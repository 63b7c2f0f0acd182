//! The codec's identity and its registered multicodec code.

use vstd::prelude::*;
use crate::decode::{
    canonical, decodable, invalid_link_at, item_fault_at, list_fault_at, map_key_fault_at,
};
use crate::order::EntryBytes;
use crate::token::head;
use crate::encode::{enc, enc_entries, enc_list, first_fault, representable, EncodeError};
use crate::link::{byte_views, links_in};
use crate::token::DecodeError;
use crate::value::{Ipld, Value};

verus! {

/// The multicodec code registered for DAG-CBOR.
pub const DAG_CBOR_CODE: u64 = 0x71;

/// The DAG-CBOR codec. It carries no state: every value is the same codec.
#[derive(Clone, Copy, Debug, PartialEq, Eq, Structural)]
pub struct DagCborCodec;

/// A numeric code that is not the DAG-CBOR code; it keeps the code it was given.
#[derive(Clone, Copy, Debug, PartialEq, Eq, Structural)]
pub struct NotDagCborCode(pub u64);

impl DagCborCodec {
    /// The multicodec code of this codec.
    pub fn to_code(&self) -> (r: u64)
        ensures
            r == DAG_CBOR_CODE,
    {
        DAG_CBOR_CODE
    }

    /// The codec whose code is `code`, if there is one.
    pub fn try_from_code(code: u64) -> (r: Option<DagCborCodec>)
        ensures
            r is Some <==> code == DAG_CBOR_CODE,
    {
        if code == DAG_CBOR_CODE {
            Some(DagCborCodec)
        } else {
            None
        }
    }

    /// The codec whose code is `code`, or the code itself as the error.
    pub fn try_from(code: u64) -> (r: Result<DagCborCodec, NotDagCborCode>)
        ensures
            code == DAG_CBOR_CODE ==> r is Ok,
            code != DAG_CBOR_CODE ==> r == Err::<DagCborCodec, NotDagCborCode>(NotDagCborCode(code)),
    {
        if code == DAG_CBOR_CODE {
            Ok(DagCborCodec)
        } else {
            Err(NotDagCborCode(code))
        }
    }
}

impl DagCborCodec {
    /// Decodes one canonical DAG-CBOR item that fills `bytes` exactly.
    pub fn decode(bytes: &[u8]) -> (r: Result<Ipld, DecodeError>)
        ensures
            r is Ok <==> decodable(bytes@),
            r matches Ok(v) ==> representable(v@) && canonical(v@) && enc(v@) == bytes@,
            item_fault_at(bytes@, 0) ==> r is Err && r->Err_0 == DecodeError::Malformed(0),
            forall|n: nat, w: Seq<Value>| #[trigger] list_fault_at(bytes@, 0, n, w) ==> r is Err && r->Err_0
                == DecodeError::Malformed((head(4, n).len() + enc_list(w).len()) as usize),
            forall|n: nat, q: Seq<EntryBytes>, k: nat| #[trigger] map_key_fault_at(bytes@, 0, n, q, k) ==> r is Err
                && r->Err_0 == DecodeError::Malformed((head(5, n).len() + enc_entries(q).len()) as usize),
            r matches Err(DecodeError::InvalidLink(k)) ==> invalid_link_at(bytes@, k as int),
            r matches Err(DecodeError::TrailingBytes(k)) ==> k < bytes@.len() && decodable(bytes@.subrange(0, k as int)),
    {
        crate::decode::decode(bytes)
    }

    /// The canonical encoding of `data`, or why it has none.
    pub fn encode(data: &Ipld) -> (r: Result<Vec<u8>, EncodeError>)
        ensures
            r is Ok <==> representable(data@),
            r matches Ok(b) ==> b@ == enc(data@),
            r matches Err(e) ==> first_fault(data@) == Some(e),
    {
        crate::encode::encode(data)
    }

    /// The links of the canonical DAG-CBOR bytes `data`, in the order they
    /// stand in the bytes.
    pub fn links(&self, data: &[u8]) -> (r: Result<Vec<Vec<u8>>, DecodeError>)
        ensures
            r is Ok <==> decodable(data@),
            r matches Ok(ls) ==> exists|v: Value|
                representable(v) && canonical(v) && enc(v) == data@ && #[trigger] links_in(v)
                    == byte_views(ls@),
            item_fault_at(data@, 0) ==> r is Err && r->Err_0 == DecodeError::Malformed(0),
            forall|n: nat, w: Seq<Value>| #[trigger] list_fault_at(data@, 0, n, w) ==> r is Err && r->Err_0
                == DecodeError::Malformed((head(4, n).len() + enc_list(w).len()) as usize),
            forall|n: nat, q: Seq<EntryBytes>, k: nat| #[trigger] map_key_fault_at(data@, 0, n, q, k) ==> r is Err
                && r->Err_0 == DecodeError::Malformed((head(5, n).len() + enc_entries(q).len()) as usize),
            r matches Err(DecodeError::InvalidLink(k)) ==> invalid_link_at(data@, k as int),
            r matches Err(DecodeError::TrailingBytes(k)) ==> k < data@.len() && decodable(data@.subrange(0, k as int)),
    {
        crate::link::links(data)
    }
}

impl From<DagCborCodec> for u64 {
    fn from(c: DagCborCodec) -> (r: u64) {
        DAG_CBOR_CODE
    }
}

impl vstd::std_specs::convert::FromSpecImpl<DagCborCodec> for u64 {
    open spec fn obeys_from_spec() -> bool {
        true
    }

    open spec fn from_spec(c: DagCborCodec) -> u64 {
        DAG_CBOR_CODE
    }
}

} // verus!
