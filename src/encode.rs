//! Canonical encoding of data-model values.

use vstd::prelude::*;
use vstd::utf8::encode_utf8;
use crate::link::{cid_parses, is_cid};
use crate::order::{
    insert_entry, key_less, key_lt, lemma_insert_entry_at, lemma_sort_len, sort_entries, EntryBytes,
};
use crate::token::{be_bytes, head, push_be, push_head};
use crate::value::{entry_models, model_of, models, Ipld, Value};

verus! {

/// The concatenated encodings of a sequence of values.
pub open spec fn enc_list(l: Seq<Value>) -> Seq<u8>
    decreases l,
{
    if l.len() == 0 {
        Seq::empty()
    } else {
        enc_list(l.drop_last()) + enc(l.last())
    }
}

/// Each entry's key bytes beside its value's encoding, in the given order.
pub open spec fn entry_encodings(es: Seq<(Seq<char>, Value)>) -> Seq<EntryBytes>
    decreases es,
{
    if es.len() == 0 {
        Seq::empty()
    } else {
        entry_encodings(es.drop_last()).push((encode_utf8(es.last().0), enc(es.last().1)))
    }
}

/// Encoded entries one after the other, each key as a text string.
pub open spec fn enc_entries(ps: Seq<EntryBytes>) -> Seq<u8>
    decreases ps.len(),
{
    if ps.len() == 0 {
        Seq::empty()
    } else {
        enc_entries(ps.drop_last()) + head(3, ps.last().0.len()) + ps.last().0 + ps.last().1
    }
}

/// The canonical DAG-CBOR encoding of a value.
pub open spec fn enc(v: Value) -> Seq<u8>
    decreases v,
{
    match v {
        Value::Null => seq![0xf6u8],
        Value::Bool(b) => if b {
            seq![0xf5u8]
        } else {
            seq![0xf4u8]
        },
        Value::Integer(i) => if i >= 0 {
            head(0, i as nat)
        } else {
            head(1, (-1 - i) as nat)
        },
        Value::Float(f) => seq![0xfbu8] + be_bytes(f as nat, 8),
        Value::Text(s) => head(3, encode_utf8(s).len()) + encode_utf8(s),
        Value::Bytes(b) => head(2, b.len()) + b,
        Value::List(l) => head(4, l.len()) + enc_list(l),
        Value::Dict(es) => head(5, es.len()) + enc_entries(sort_entries(entry_encodings(es))),
        Value::Link(c) => seq![0xd8u8, 0x2au8] + head(2, c.len() + 1) + seq![0u8] + c,
    }
}

/// A double whose exponent bits are not all set: neither infinite nor NaN.
pub open spec fn finite_bits(f: u64) -> bool {
    (f as int / 0x10_0000_0000_0000) % 0x800 != 0x7ff
}

/// No two entries have the same key.
pub open spec fn distinct_keys(es: Seq<(Seq<char>, Value)>) -> bool {
    forall|i: int, j: int| 0 <= i < j < es.len() ==> es[i].0 != es[j].0
}

/// Every value of `l` can be encoded.
pub open spec fn all_representable(l: Seq<Value>) -> bool
    decreases l,
{
    l.len() == 0 || (all_representable(l.drop_last()) && representable(l.last()))
}

/// Every value of the entries `es` can be encoded.
pub open spec fn entries_representable(es: Seq<(Seq<char>, Value)>) -> bool
    decreases es,
{
    es.len() == 0 || (entries_representable(es.drop_last()) && representable(es.last().1))
}

/// A value that DAG-CBOR can express: integers in the range of CBOR's
/// integers, finite floats, maps without a repeated key, links whose bytes
/// read as a content identifier, and lengths that fit in 64 bits.
pub open spec fn representable(v: Value) -> bool
    decreases v,
{
    match v {
        Value::Integer(i) => -0x1_0000_0000_0000_0000 <= i < 0x1_0000_0000_0000_0000,
        Value::Float(f) => finite_bits(f),
        Value::Text(t) => encode_utf8(t).len() < 0x1_0000_0000_0000_0000,
        Value::Bytes(b) => b.len() < 0x1_0000_0000_0000_0000,
        Value::List(l) => l.len() < 0x1_0000_0000_0000_0000 && all_representable(l),
        Value::Dict(es) => es.len() < 0x1_0000_0000_0000_0000 && distinct_keys(es)
            && entries_representable(es),
        Value::Link(c) => cid_parses(c) && c.len() + 1 < 0x1_0000_0000_0000_0000,
        _ => true,
    }
}


/// The first fault of `v` in the order the encoder meets them: a node's own
/// fault first (for a map, a repeated key), then its children from first to
/// last. `None` where the encoder finds none.
pub open spec fn first_fault(v: Value) -> Option<EncodeError>
    decreases v,
{
    match v {
        Value::Integer(i) => if -0x1_0000_0000_0000_0000 <= i < 0x1_0000_0000_0000_0000 {
            None
        } else {
            Some(EncodeError::IntegerOutOfRange)
        },
        Value::Float(f) => if finite_bits(f) {
            None
        } else {
            Some(EncodeError::NonFiniteFloat)
        },
        Value::Link(c) => if cid_parses(c) && c.len() + 1 < 0x1_0000_0000_0000_0000 {
            None
        } else {
            Some(EncodeError::InvalidLink)
        },
        Value::List(l) => first_fault_list(l),
        Value::Dict(es) => if !distinct_keys(es) {
            Some(EncodeError::DuplicateKey)
        } else {
            first_fault_entries(es)
        },
        _ => None,
    }
}

/// The first fault among the values of `l`, in order.
pub open spec fn first_fault_list(l: Seq<Value>) -> Option<EncodeError>
    decreases l,
{
    if l.len() == 0 {
        None
    } else if first_fault_list(l.drop_last()) is Some {
        first_fault_list(l.drop_last())
    } else {
        first_fault(l.last())
    }
}

/// The first fault among the values of the entries `es`, in order.
pub open spec fn first_fault_entries(es: Seq<(Seq<char>, Value)>) -> Option<EncodeError>
    decreases es,
{
    if es.len() == 0 {
        None
    } else if first_fault_entries(es.drop_last()) is Some {
        first_fault_entries(es.drop_last())
    } else {
        first_fault(es.last().1)
    }
}

proof fn lemma_fault_list_prefix(l: Seq<Value>, i: int)
    requires
        0 <= i <= l.len(),
        first_fault_list(l.subrange(0, i)) is Some,
    ensures
        first_fault_list(l) == first_fault_list(l.subrange(0, i)),
    decreases l.len() - i,
{
    if i < l.len() {
        assert(l.subrange(0, i + 1).drop_last() =~= l.subrange(0, i));
        lemma_fault_list_prefix(l, i + 1);
    } else {
        assert(l.subrange(0, i) =~= l);
    }
}

proof fn lemma_fault_entries_prefix(es: Seq<(Seq<char>, Value)>, i: int)
    requires
        0 <= i <= es.len(),
        first_fault_entries(es.subrange(0, i)) is Some,
    ensures
        first_fault_entries(es) == first_fault_entries(es.subrange(0, i)),
    decreases es.len() - i,
{
    if i < es.len() {
        assert(es.subrange(0, i + 1).drop_last() =~= es.subrange(0, i));
        lemma_fault_entries_prefix(es, i + 1);
    } else {
        assert(es.subrange(0, i) =~= es);
    }
}

/// Why a value cannot be encoded.
#[derive(Clone, Copy, Debug, PartialEq, Eq, Structural)]
pub enum EncodeError {
    /// An integer outside the range of CBOR's integers.
    IntegerOutOfRange,
    /// An infinite or NaN float.
    NonFiniteFloat,
    /// A map that holds one key twice.
    DuplicateKey,
    /// A link whose bytes do not read as a content identifier.
    InvalidLink,
}

/// The views of a sequence of encoded entries.
pub open spec fn pairs_view(v: Seq<(Vec<u8>, Vec<u8>)>) -> Seq<EntryBytes> {
    Seq::new(v.len(), |i: int| (v[i].0@, v[i].1@))
}

pub(crate) proof fn lemma_models(s: Seq<Ipld>)
    ensures
        models(s).len() == s.len(),
        forall|i: int| 0 <= i < s.len() ==> #[trigger] models(s)[i] == model_of(s[i]),
    decreases s.len(),
{
    if s.len() > 0 {
        lemma_models(s.drop_last());
    }
}

pub(crate) proof fn lemma_entry_models(s: Seq<(String, Ipld)>)
    ensures
        entry_models(s).len() == s.len(),
        forall|i: int|
            0 <= i < s.len() ==> #[trigger] entry_models(s)[i] == (s[i].0@, model_of(s[i].1)),
    decreases s.len(),
{
    if s.len() > 0 {
        lemma_entry_models(s.drop_last());
    }
}

pub(crate) proof fn lemma_all_representable(l: Seq<Value>)
    ensures
        all_representable(l) <==> forall|i: int| 0 <= i < l.len() ==> representable(#[trigger] l[i]),
    decreases l.len(),
{
    if l.len() > 0 {
        lemma_all_representable(l.drop_last());
        assert(forall|i: int| 0 <= i < l.len() - 1 ==> l.drop_last()[i] == l[i]);
    }
}

pub(crate) proof fn lemma_entries_representable(es: Seq<(Seq<char>, Value)>)
    ensures
        entries_representable(es) <==> forall|i: int|
            0 <= i < es.len() ==> representable(#[trigger] es[i].1),
    decreases es.len(),
{
    if es.len() > 0 {
        lemma_entries_representable(es.drop_last());
        assert(forall|i: int| 0 <= i < es.len() - 1 ==> es.drop_last()[i] == es[i]);
    }
}

pub(crate) proof fn lemma_entry_encodings(es: Seq<(Seq<char>, Value)>)
    ensures
        entry_encodings(es).len() == es.len(),
        forall|i: int|
            0 <= i < es.len() ==> #[trigger] entry_encodings(es)[i] == (
            encode_utf8(es[i].0),
            enc(es[i].1),
        ),
    decreases es.len(),
{
    if es.len() > 0 {
        lemma_entry_encodings(es.drop_last());
    }
}

/// Appends the bytes of `b`.
fn push_all(out: &mut Vec<u8>, b: &[u8])
    ensures
        final(out)@ == old(out)@ + b@,
{
    let mut i: usize = 0;
    while i < b.len()
        invariant
            0 <= i <= b.len(),
            out@ == old(out)@ + b@.subrange(0, i as int),
        decreases b.len() - i,
    {
        out.push(b[i]);
        assert(b@.subrange(0, i + 1) =~= b@.subrange(0, i as int).push(b[i as int]));
        i += 1;
    }
    assert(b@.subrange(0, i as int) =~= b@);
}

/// Puts the entry `p` into `sorted` before the first entry whose key it precedes.
fn insert_sorted(sorted: &mut Vec<(Vec<u8>, Vec<u8>)>, p: (Vec<u8>, Vec<u8>))
    ensures
        pairs_view(final(sorted)@) == insert_entry(pairs_view(old(sorted)@), (p.0@, p.1@)),
{
    let ghost s = pairs_view(sorted@);
    let mut j: usize = 0;
    while j < sorted.len() && !key_less(p.0.as_slice(), sorted[j].0.as_slice())
        invariant
            0 <= j <= sorted.len(),
            s == pairs_view(sorted@),
            sorted@ == old(sorted)@,
            forall|k: int| 0 <= k < j ==> !key_lt(p.0@, #[trigger] s[k].0),
        decreases sorted.len() - j,
    {
        j += 1;
    }
    proof {
        lemma_insert_entry_at(s, (p.0@, p.1@), j as int);
    }
    sorted.insert(j, p);
    assert(pairs_view(sorted@) =~= s.insert(j as int, (p.0@, p.1@)));
}


/// Whether the bits `f` are those of a finite double.
fn is_finite_bits(f: u64) -> (r: bool)
    ensures
        r == finite_bits(f),
{
    (f / 0x10_0000_0000_0000) % 0x800 != 0x7ff
}

/// Appends the encoding of `v`, or says why it has none.
fn encode_into(v: &Ipld, out: &mut Vec<u8>) -> (r: Result<(), EncodeError>)
    ensures
        r is Ok <==> representable(v@),
        r is Ok ==> final(out)@ == old(out)@ + enc(v@) && first_fault(v@) is None,
        r matches Err(e) ==> first_fault(v@) == Some(e),
    decreases v,
{
    match v {
        Ipld::Null => {
            out.push(0xf6);
            assert(out@ =~= old(out)@ + enc(v@));
            Ok(())
        },
        Ipld::Bool(b) => {
            out.push(if *b { 0xf5 } else { 0xf4 });
            assert(out@ =~= old(out)@ + enc(v@));
            Ok(())
        },
        Ipld::Integer(i) => {
            let i: i128 = *i;
            if i >= 0 {
                if i >= 0x1_0000_0000_0000_0000 {
                    return Err(EncodeError::IntegerOutOfRange);
                }
                push_head(out, 0, i as u64);
            } else {
                if i < -0x1_0000_0000_0000_0000 {
                    return Err(EncodeError::IntegerOutOfRange);
                }
                push_head(out, 1, (-1 - i) as u64);
            }
            Ok(())
        },
        Ipld::Float(f) => {
            if !is_finite_bits(*f) {
                return Err(EncodeError::NonFiniteFloat);
            }
            out.push(0xfb);
            push_be(out, *f, 8);
            assert(out@ =~= old(out)@ + enc(v@));
            Ok(())
        },
        Ipld::String(s) => {
            let b: &[u8] = s.as_str().as_bytes();
            push_head(out, 3, b.len() as u64);
            push_all(out, b);
            assert(out@ =~= old(out)@ + enc(v@));
            Ok(())
        },
        Ipld::Bytes(b) => {
            push_head(out, 2, b.len() as u64);
            push_all(out, b.as_slice());
            assert(out@ =~= old(out)@ + enc(v@));
            Ok(())
        },
        Ipld::Link(c) => {
            if !is_cid(c.as_slice()) || c.len() as u64 >= 0xffff_ffff_ffff_ffff {
                return Err(EncodeError::InvalidLink);
            }
            out.push(0xd8);
            out.push(0x2a);
            push_head(out, 2, c.len() as u64 + 1);
            out.push(0);
            push_all(out, c.as_slice());
            assert(out@ =~= old(out)@ + enc(v@));
            Ok(())
        },
        Ipld::List(l) => encode_list(l, out),
        Ipld::Dict(m) => encode_dict(m, out),
    }
}

/// Appends the encoding of a list of the values `l`.
fn encode_list(l: &Vec<Ipld>, out: &mut Vec<u8>) -> (r: Result<(), EncodeError>)
    ensures
        r is Ok <==> all_representable(models(l@)),
        r is Ok ==> first_fault_list(models(l@)) is None,
        r matches Err(e) ==> first_fault_list(models(l@)) == Some(e),
        models(l@).len() == l.len(),
        r is Ok ==> final(out)@ == old(out)@ + enc(Value::List(models(l@))),
    decreases l,
{
    let ghost ms = models(l@);
    proof {
        lemma_models(l@);
    }
    push_head(out, 4, l.len() as u64);
    let ghost start = out@;
    let mut i: usize = 0;
    while i < l.len()
        invariant
            0 <= i <= l.len(),
            ms == models(l@),
            ms.len() == l.len(),
            forall|k: int| 0 <= k < l.len() ==> #[trigger] ms[k] == model_of(l@[k]),
            out@ == start + enc_list(ms.subrange(0, i as int)),
            all_representable(ms.subrange(0, i as int)),
            first_fault_list(ms.subrange(0, i as int)) is None,
            start == old(out)@ + head(4, l.len() as nat),
        decreases l.len() - i,
    {
        let r = encode_into(&l[i], out);
        if r.is_err() {
            proof {
                lemma_all_representable(ms);
                assert(!representable(ms[i as int]));
                assert(ms.subrange(0, i + 1).drop_last() =~= ms.subrange(0, i as int));
                lemma_fault_list_prefix(ms, i + 1);
            }
            return r;
        }
        proof {
            let a = ms.subrange(0, i + 1);
            assert(a.drop_last() =~= ms.subrange(0, i as int));
            assert(out@ =~= start + enc_list(a));
        }
        i += 1;
    }
    assert(ms.subrange(0, i as int) =~= ms);
    assert(out@ =~= old(out)@ + enc(Value::List(ms)));
    Ok(())
}

/// Appends the encoding of a map of the entries `m`, keys in canonical order.
fn encode_dict(m: &Vec<(String, Ipld)>, out: &mut Vec<u8>) -> (r: Result<(), EncodeError>)
    ensures
        r is Ok <==> representable(Value::Dict(entry_models(m@))),
        r is Ok ==> first_fault(Value::Dict(entry_models(m@))) is None,
        r matches Err(e) ==> first_fault(Value::Dict(entry_models(m@))) == Some(e),
        r is Ok ==> final(out)@ == old(out)@ + enc(Value::Dict(entry_models(m@))),
    decreases m,
{
    let ghost es = entry_models(m@);
    proof {
        lemma_entry_models(m@);
    }
    let mut i: usize = 0;
    while i < m.len()
        invariant
            0 <= i <= m.len(),
            es.len() == m.len(),
            es == entry_models(m@),
            forall|k: int| 0 <= k < m.len() ==> #[trigger] es[k] == (m@[k].0@, model_of(m@[k].1)),
            forall|a: int, b: int| 0 <= a < i && a < b < m.len() ==> es[a].0 != es[b].0,
        decreases m.len() - i,
    {
        let mut j: usize = i + 1;
        while j < m.len()
            invariant
                0 <= i < j <= m.len(),
                es.len() == m.len(),
                es == entry_models(m@),
                forall|k: int| 0 <= k < m.len() ==> #[trigger] es[k] == (m@[k].0@, model_of(m@[k].1)),
                forall|a: int, b: int| 0 <= a < i && a < b < m.len() ==> es[a].0 != es[b].0,
                forall|b: int| i < b < j ==> es[i as int].0 != #[trigger] es[b].0,
            decreases m.len() - j,
        {
            if m[i].0 == m[j].0 {
                assert(es[i as int].0 == es[j as int].0);
                assert(!distinct_keys(es));
                return Err(EncodeError::DuplicateKey);
            }
            j += 1;
        }
        i += 1;
    }
    let ghost ps = entry_encodings(es);
    proof {
        lemma_entry_encodings(es);
    }
    let mut sorted: Vec<(Vec<u8>, Vec<u8>)> = Vec::new();
    let mut i: usize = 0;
    while i < m.len()
        invariant
            0 <= i <= m.len(),
            es.len() == m.len(),
            es == entry_models(m@),
            ps.len() == m.len(),
            ps == entry_encodings(es),
            forall|k: int| 0 <= k < m.len() ==> #[trigger] es[k] == (m@[k].0@, model_of(m@[k].1)),
            forall|k: int|
                0 <= k < m.len() ==> #[trigger] ps[k] == (encode_utf8(es[k].0), enc(es[k].1)),
            pairs_view(sorted@) == sort_entries(ps.subrange(0, i as int)),
            entries_representable(es.subrange(0, i as int)),
            first_fault_entries(es.subrange(0, i as int)) is None,
            distinct_keys(es),
        decreases m.len() - i,
    {
        let mut vb: Vec<u8> = Vec::new();
        let r = encode_into(&m[i].1, &mut vb);
        if r.is_err() {
            proof {
                lemma_entries_representable(es);
                assert(!representable(es[i as int].1));
                assert(es.subrange(0, i + 1).drop_last() =~= es.subrange(0, i as int));
                lemma_fault_entries_prefix(es, i + 1);
            }
            return r;
        }
        let kb = vstd::slice::slice_to_vec(m[i].0.as_str().as_bytes());
        assert(vb@ =~= enc(es[i as int].1));
        insert_sorted(&mut sorted, (kb, vb));
        proof {
            assert(ps.subrange(0, i + 1).drop_last() =~= ps.subrange(0, i as int));
            assert(es.subrange(0, i + 1).drop_last() =~= es.subrange(0, i as int));
        }
        i += 1;
    }
    assert(ps.subrange(0, i as int) =~= ps);
    assert(es.subrange(0, i as int) =~= es);
    proof {
        lemma_sort_len(ps);
    }
    push_head(out, 5, m.len() as u64);
    let ghost start = out@;
    let ghost ss = pairs_view(sorted@);
    let mut k: usize = 0;
    while k < sorted.len()
        invariant
            0 <= k <= sorted.len(),
            ss == pairs_view(sorted@),
            out@ == start + enc_entries(ss.subrange(0, k as int)),
        decreases sorted.len() - k,
    {
        push_head(out, 3, sorted[k].0.len() as u64);
        push_all(out, sorted[k].0.as_slice());
        push_all(out, sorted[k].1.as_slice());
        proof {
            let a = ss.subrange(0, k + 1);
            assert(a.drop_last() =~= ss.subrange(0, k as int));
            assert(out@ =~= start + enc_entries(a));
        }
        k += 1;
    }
    assert(ss.subrange(0, k as int) =~= ss);
    assert(out@ =~= old(out)@ + enc(Value::Dict(es)));
    Ok(())
}

/// The canonical encoding of `v`: integers in their shortest form, floats at
/// full width, map keys in canonical order, links as tag 42 over a byte
/// string of a zero byte and the identifier's bytes. It fails exactly when
/// the value is not representable, with the first fault met.
pub fn encode(v: &Ipld) -> (r: Result<Vec<u8>, EncodeError>)
    ensures
        r is Ok <==> representable(v@),
        r matches Ok(b) ==> b@ == enc(v@),
        r matches Err(e) ==> first_fault(v@) == Some(e),
{
    let mut out: Vec<u8> = Vec::new();
    match encode_into(v, &mut out) {
        Ok(()) => {
            assert(out@ =~= enc(v@));
            Ok(out)
        },
        Err(e) => Err(e),
    }
}

} // verus!
