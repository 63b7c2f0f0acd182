//! A canonical DAG-CBOR codec: a deterministic encoder, a strict decoder and
//! a link extractor over a generic data-model value.

pub mod codec;
pub mod decode;
pub mod encode;
pub mod link;
pub mod order;
pub mod token;
pub mod value;

pub use codec::{DagCborCodec, NotDagCborCode, DAG_CBOR_CODE};
pub use decode::{decode, StreamDecoder};
pub use encode::{encode, EncodeError};
pub use link::{links, links_of};
pub use token::DecodeError;
pub use value::Ipld;
