//! Content identifiers, held by the codec as their binary form.

use vstd::prelude::*;
use crate::decode::{
    canonical, decodable, decode, invalid_link_at, item_fault_at, list_fault_at, map_key_fault_at,
};
use crate::encode::{enc_entries, enc_list};
use crate::order::EntryBytes;
use crate::token::head;
use crate::encode::{enc, representable};
use crate::token::DecodeError;
use crate::value::{entry_models, model_of, models, Ipld, Value};

verus! {

/// Whether the bytes `b` read as a content identifier.
pub uninterp spec fn cid_parses(b: Seq<u8>) -> bool;

/// Relies on `Cid::try_from(&[u8])` of the cid crate, as ipld-core re-exports
/// it: whether a content identifier can be read from the start of `b`.
#[verifier::external_body]
pub(crate) fn is_cid(b: &[u8]) -> (r: bool)
    ensures
        r == cid_parses(b@),
{
    ipld_core::cid::Cid::try_from(b).is_ok()
}


/// The links of a value in depth-first, left-to-right order: list items in
/// sequence, map entries in the order the map holds them.
pub open spec fn links_in(v: Value) -> Seq<Seq<u8>>
    decreases v,
{
    match v {
        Value::Link(c) => seq![c],
        Value::List(l) => links_in_list(l),
        Value::Dict(es) => links_in_entries(es),
        _ => Seq::empty(),
    }
}

/// The links of the values of `l`, one value after the other.
pub open spec fn links_in_list(l: Seq<Value>) -> Seq<Seq<u8>>
    decreases l,
{
    if l.len() == 0 {
        Seq::empty()
    } else {
        links_in_list(l.drop_last()) + links_in(l.last())
    }
}

/// The links of the values of the entries `es`, one entry after the other.
pub open spec fn links_in_entries(es: Seq<(Seq<char>, Value)>) -> Seq<Seq<u8>>
    decreases es,
{
    if es.len() == 0 {
        Seq::empty()
    } else {
        links_in_entries(es.drop_last()) + links_in(es.last().1)
    }
}

/// The views of a sequence of byte vectors.
pub open spec fn byte_views(s: Seq<Vec<u8>>) -> Seq<Seq<u8>> {
    Seq::new(s.len(), |i: int| s[i]@)
}

/// Appends the links of `v` in depth-first, left-to-right order.
fn collect_links(v: &Ipld, out: &mut Vec<Vec<u8>>)
    ensures
        byte_views(final(out)@) == byte_views(old(out)@) + links_in(v@),
    decreases v,
{
    match v {
        Ipld::Link(c) => {
            out.push(vstd::slice::slice_to_vec(c.as_slice()));
            assert(byte_views(out@) =~= byte_views(old(out)@) + links_in(v@));
        },
        Ipld::List(l) => collect_list(l, out),
        Ipld::Dict(m) => collect_dict(m, out),
        _ => {
            assert(byte_views(out@) =~= byte_views(old(out)@) + links_in(v@));
        },
    }
}

fn collect_list(l: &Vec<Ipld>, out: &mut Vec<Vec<u8>>)
    ensures
        byte_views(final(out)@) == byte_views(old(out)@) + links_in_list(models(l@)),
    decreases l,
{
    let ghost ms = models(l@);
    proof {
        crate::encode::lemma_models(l@);
    }
    let mut i: usize = 0;
    while i < l.len()
        invariant
            0 <= i <= l.len(),
            ms.len() == l.len(),
            ms == models(l@),
            forall|k: int| 0 <= k < l.len() ==> #[trigger] ms[k] == model_of(l@[k]),
            byte_views(out@) == byte_views(old(out)@) + links_in_list(ms.subrange(0, i as int)),
        decreases l.len() - i,
    {
        collect_links(&l[i], out);
        proof {
            let a = ms.subrange(0, i + 1);
            assert(a.drop_last() =~= ms.subrange(0, i as int));
            assert(byte_views(out@) =~= byte_views(old(out)@) + links_in_list(a));
        }
        i += 1;
    }
    assert(ms.subrange(0, i as int) =~= ms);
}

fn collect_dict(m: &Vec<(String, Ipld)>, out: &mut Vec<Vec<u8>>)
    ensures
        byte_views(final(out)@) == byte_views(old(out)@) + links_in_entries(entry_models(m@)),
    decreases m,
{
    let ghost es = entry_models(m@);
    proof {
        crate::encode::lemma_entry_models(m@);
    }
    let mut i: usize = 0;
    while i < m.len()
        invariant
            0 <= i <= m.len(),
            es.len() == m.len(),
            es == entry_models(m@),
            forall|k: int| 0 <= k < m.len() ==> #[trigger] es[k] == (m@[k].0@, model_of(m@[k].1)),
            byte_views(out@) == byte_views(old(out)@) + links_in_entries(es.subrange(0, i as int)),
        decreases m.len() - i,
    {
        collect_links(&m[i].1, out);
        proof {
            let a = es.subrange(0, i + 1);
            assert(a.drop_last() =~= es.subrange(0, i as int));
            assert(byte_views(out@) =~= byte_views(old(out)@) + links_in_entries(a));
        }
        i += 1;
    }
    assert(es.subrange(0, i as int) =~= es);
}

/// The links of a value, in depth-first, left-to-right order.
pub fn links_of(v: &Ipld) -> (r: Vec<Vec<u8>>)
    ensures
        byte_views(r@) == links_in(v@),
{
    let mut out: Vec<Vec<u8>> = Vec::new();
    collect_links(v, &mut out);
    assert(byte_views(out@) =~= links_in(v@));
    out
}

/// The links of the canonical DAG-CBOR bytes `data`, in the order they
/// stand in the bytes. It fails exactly where `data` does not decode.
pub fn links(data: &[u8]) -> (r: Result<Vec<Vec<u8>>, DecodeError>)
    ensures
        r is Ok <==> decodable(data@),
        r matches Ok(ls) ==> exists|v: Value|
            representable(v) && canonical(v) && enc(v) == data@ && #[trigger] links_in(v)
                == byte_views(ls@),
        item_fault_at(data@, 0) ==> r is Err && r->Err_0 == DecodeError::Malformed(0),
        forall|n: nat, w: Seq<Value>| #[trigger] list_fault_at(data@, 0, n, w) ==> r is Err && r->Err_0
            == DecodeError::Malformed((head(4, n).len() + enc_list(w).len()) as usize),
        forall|n: nat, q: Seq<EntryBytes>, k: nat| #[trigger] map_key_fault_at(data@, 0, n, q, k) ==> r is Err
            && r->Err_0 == DecodeError::Malformed((head(5, n).len() + enc_entries(q).len()) as usize),
        r matches Err(DecodeError::InvalidLink(k)) ==> invalid_link_at(data@, k as int),
        r matches Err(DecodeError::TrailingBytes(k)) ==> k < data@.len() && decodable(data@.subrange(0, k as int)),
{
    let v = decode(data)?;
    let ls = links_of(&v);
    assert(links_in(v@) == byte_views(ls@));
    Ok(ls)
}

} // verus!
