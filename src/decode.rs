//! Strict decoding of canonical DAG-CBOR.

use vstd::prelude::*;
use vstd::utf8::{encode_utf8, valid_utf8};
use crate::encode::{
    all_representable, enc, enc_entries, enc_list, entries_representable, entry_encodings,
    finite_bits, representable,
};
use crate::order::{
    key_less, key_lt, lemma_key_lt_irreflexive, lemma_key_lt_transitive, lemma_sort_contains,
    lemma_sort_len, lemma_sort_sorted, lemma_sorted_identity, lemma_sorted_unique, sort_entries,
    strictly_sorted, EntryBytes,
};
use crate::link::{cid_parses, is_cid};
use crate::token::{
    be_bytes, from_be, head, head_at, head_fault_at, lemma_head_at, read_be, read_head, DecodeError,
};
use crate::value::{entry_models, models, Ipld, Value};

verus! {

/// Relies on `String::from_utf8`: it succeeds exactly on valid UTF-8, with
/// the string whose UTF-8 form is those bytes.
#[verifier::external_body]
fn string_from_utf8(b: Vec<u8>) -> (r: Option<String>)
    ensures
        r is Some <==> valid_utf8(b@),
        r matches Some(s) ==> encode_utf8(s@) == b@,
{
    String::from_utf8(b).ok()
}

/// Every value of `l` is canonical.
pub open spec fn all_canonical(l: Seq<Value>) -> bool
    decreases l,
{
    l.len() == 0 || (all_canonical(l.drop_last()) && canonical(l.last()))
}

/// Every value of the entries `es` is canonical.
pub open spec fn entries_canonical(es: Seq<(Seq<char>, Value)>) -> bool
    decreases es,
{
    es.len() == 0 || (entries_canonical(es.drop_last()) && canonical(es.last().1))
}

/// A value in the form the decoder gives: the entries of every map stand in
/// strictly ascending canonical key order.
pub open spec fn canonical(v: Value) -> bool
    decreases v,
{
    match v {
        Value::List(l) => all_canonical(l),
        Value::Dict(es) => strictly_sorted(entry_encodings(es)) && entries_canonical(es),
        _ => true,
    }
}

/// `s` holds at `pos` the encoding of the representable value `w`.
pub open spec fn item_at(s: Seq<u8>, pos: int, w: Value) -> bool {
    &&& representable(w)
    &&& 0 <= pos
    &&& pos + enc(w).len() <= s.len()
    &&& s.subrange(pos, pos + enc(w).len()) == enc(w)
}

/// `s` holds at `pos` the encodings of the representable values `l`, one
/// after the other.
pub open spec fn list_at(s: Seq<u8>, pos: int, l: Seq<Value>) -> bool {
    &&& all_representable(l)
    &&& 0 <= pos
    &&& pos + enc_list(l).len() <= s.len()
    &&& s.subrange(pos, pos + enc_list(l).len()) == enc_list(l)
}

/// The bytes of some representable value.
pub open spec fn value_bytes(x: Seq<u8>) -> bool {
    exists|w: Value| representable(w) && enc(w) == x
}

/// Encoded entries with UTF-8 keys in strictly ascending order, each beside
/// the bytes of a representable value.
pub open spec fn entries_ok(ps: Seq<EntryBytes>) -> bool {
    &&& strictly_sorted(ps)
    &&& forall|i: int| 0 <= i < ps.len() ==> valid_utf8(#[trigger] ps[i].0) && value_bytes(ps[i].1)
}

/// `s` holds at `pos` the encoded entries `ps`, one after the other.
pub open spec fn dict_at(s: Seq<u8>, pos: int, ps: Seq<EntryBytes>) -> bool {
    &&& entries_ok(ps)
    &&& ps.len() < 0x1_0000_0000_0000_0000
    &&& 0 <= pos
    &&& pos + enc_entries(ps).len() <= s.len()
    &&& s.subrange(pos, pos + enc_entries(ps).len()) == enc_entries(ps)
}

/// The canonically ordered encoded entries of a representable map are in
/// strictly ascending key order, with UTF-8 keys and encoded values.
proof fn lemma_sorted_entries_ok(es: Seq<(Seq<char>, Value)>)
    requires
        representable(Value::Dict(es)),
    ensures
        entries_ok(sort_entries(entry_encodings(es))),
{
    let e = entry_encodings(es);
    crate::encode::lemma_entry_encodings(es);
    crate::encode::lemma_entries_representable(es);
    assert forall|a: int, c: int| 0 <= a < c < e.len() implies (#[trigger] e[a]).0 != (#[trigger] e[c]).0 by {
        vstd::utf8::encode_utf8_decode_utf8(es[a].0);
        vstd::utf8::encode_utf8_decode_utf8(es[c].0);
    }
    lemma_sort_sorted(e);
    let t = sort_entries(e);
    assert forall|i: int| 0 <= i < t.len() implies valid_utf8(#[trigger] t[i].0) && value_bytes(t[i].1) by {
        assert(t.contains(t[i]));
        let j = choose|j: int| 0 <= j < e.len() && e[j] == t[i];
        vstd::utf8::encode_utf8_valid_utf8(es[j].0);
        assert(representable(es[j].1));
    }
}

proof fn lemma_enc_list_concat(a: Seq<Value>, c: Seq<Value>)
    ensures
        enc_list(a + c) == enc_list(a) + enc_list(c),
    decreases c.len(),
{
    if c.len() == 0 {
        assert(a + c =~= a);
        assert(enc_list(a) + enc_list(c) =~= enc_list(a));
    } else {
        lemma_enc_list_concat(a, c.drop_last());
        assert((a + c).drop_last() =~= a + c.drop_last());
        assert(enc_list(a + c) =~= enc_list(a) + enc_list(c));
    }
}

/// Where the encodings of `l` stand from `p` on, the `i`-th item stands
/// right after the first `i`.
proof fn lemma_list_step(s: Seq<u8>, p: int, l: Seq<Value>, i: int)
    requires
        list_at(s, p, l),
        0 <= i < l.len(),
    ensures
        item_at(s, p + enc_list(l.subrange(0, i)).len(), l[i]),
        enc_list(l.subrange(0, i + 1)).len() == enc_list(l.subrange(0, i)).len() + enc(l[i]).len(),
{
    let a = l.subrange(0, i);
    let a1 = l.subrange(0, i + 1);
    let c = l.subrange(i + 1, l.len() as int);
    assert(a1.drop_last() =~= a);
    assert(l =~= a1 + c);
    lemma_enc_list_concat(a1, c);
    crate::encode::lemma_all_representable(l);
    let cur = p + enc_list(a).len();
    let e = enc(l[i]);
    let whole = enc_list(l);
    assert(s.subrange(cur, cur + e.len()) =~= whole.subrange(cur - p, cur - p + e.len())) by {
        assert forall|k: int| 0 <= k < e.len() implies #[trigger] s.subrange(cur, cur + e.len())[k]
            == whole.subrange(cur - p, cur - p + e.len())[k] by {
            assert(s.subrange(p, p + whole.len())[cur - p + k] == s[cur + k]);
        }
    }
    assert(whole.subrange(cur - p, cur - p + e.len()) =~= e);
}

proof fn lemma_sub(s: Seq<u8>, p: int, whole: Seq<u8>, off: int, piece: Seq<u8>)
    requires
        0 <= p,
        p + whole.len() <= s.len(),
        s.subrange(p, p + whole.len()) == whole,
        0 <= off,
        off + piece.len() <= whole.len(),
        whole.subrange(off, off + piece.len()) == piece,
    ensures
        s.subrange(p + off, p + off + piece.len()) == piece,
{
    assert forall|k: int| 0 <= k < piece.len() implies #[trigger] s.subrange(
        p + off,
        p + off + piece.len(),
    )[k] == piece[k] by {
        assert(s.subrange(p, p + whole.len())[off + k] == s[p + off + k]);
        assert(whole.subrange(off, off + piece.len())[k] == whole[off + k]);
    }
    assert(s.subrange(p + off, p + off + piece.len()) =~= piece);
}

proof fn lemma_enc_entries_concat(a: Seq<EntryBytes>, c: Seq<EntryBytes>)
    ensures
        enc_entries(a + c) == enc_entries(a) + enc_entries(c),
    decreases c.len(),
{
    if c.len() == 0 {
        assert(a + c =~= a);
        assert(enc_entries(a) + enc_entries(c) =~= enc_entries(a));
    } else {
        lemma_enc_entries_concat(a, c.drop_last());
        assert((a + c).drop_last() =~= a + c.drop_last());
        assert(enc_entries(a + c) =~= enc_entries(a) + enc_entries(c));
    }
}

/// Where the encoded entries `ps` stand from `p` on, the `i`-th entry's key
/// head, key bytes and value stand right after the first `i` entries.
proof fn lemma_dict_step(s: Seq<u8>, p: int, ps: Seq<EntryBytes>, i: int)
    requires
        dict_at(s, p, ps),
        s.len() < 0x1_0000_0000_0000_0000,
        0 <= i < ps.len(),
    ensures
        ({
            let cur = p + enc_entries(ps.subrange(0, i)).len();
            let k = ps[i].0;
            let hl = head(3, k.len()).len();
            &&& head_at(s, cur, 3, k.len())
            &&& cur + hl + k.len() <= s.len()
            &&& s.subrange(cur + hl, cur + hl + k.len()) == k
            &&& valid_utf8(k)
            &&& value_bytes(ps[i].1)
            &&& forall|w: Value|
                representable(w) && enc(w) == ps[i].1 ==> #[trigger] item_at(s, cur + hl + k.len(), w)
            &&& enc_entries(ps.subrange(0, i + 1)).len() == enc_entries(ps.subrange(0, i)).len() + hl
                + k.len() + ps[i].1.len()
        }),
        i > 0 ==> key_lt(ps[i - 1].0, ps[i].0),
{
    let a = ps.subrange(0, i);
    let a1 = ps.subrange(0, i + 1);
    let c = ps.subrange(i + 1, ps.len() as int);
    assert(a1.drop_last() =~= a);
    assert(ps =~= a1 + c);
    lemma_enc_entries_concat(a1, c);
    let whole = enc_entries(ps);
    let k = ps[i].0;
    let v = ps[i].1;
    let h = head(3, k.len());
    let off = enc_entries(a).len() as int;
    assert(enc_entries(a1) == enc_entries(a) + h + k + v);
    assert(whole.subrange(off, off + h.len()) =~= h);
    assert(whole.subrange(off + h.len(), off + h.len() + k.len()) =~= k);
    assert(whole.subrange(off + h.len() + k.len(), off + h.len() + k.len() + v.len()) =~= v);
    lemma_sub(s, p, whole, off, h);
    lemma_sub(s, p, whole, off + h.len(), k);
    lemma_sub(s, p, whole, off + h.len() + k.len(), v);
    if i > 0 {
        assert(key_lt(ps[i - 1].0, ps[i].0));
    }
}

/// What the encoding of a value tells of its first bytes and its parts.
#[verifier::rlimit(40)]
proof fn lemma_item_shape(s: Seq<u8>, pos: int, w: Value)
    requires
        item_at(s, pos, w),
    ensures
        pos < s.len(),
        match w {
            Value::Null => s[pos] == 0xf6 && enc(w).len() == 1,
            Value::Bool(x) => s[pos] == (if x {
                0xf5u8
            } else {
                0xf4u8
            }) && enc(w).len() == 1,
            Value::Float(f) => s[pos] == 0xfb && enc(w).len() == 9 && from_be(
                s.subrange(pos + 1, pos + 9),
            ) == f && finite_bits(f),
            Value::Link(c) => {
                let hl = head(2, c.len() + 1).len();
                &&& s[pos] == 0xd8
                &&& pos + 1 < s.len()
                &&& s[pos + 1] == 0x2a
                &&& head_at(s, pos + 2, 2, c.len() + 1)
                &&& enc(w).len() == 2 + hl + 1 + c.len()
                &&& s[pos + 2 + hl] == 0
                &&& s.subrange(pos + 3 + hl, pos + enc(w).len()) == c
                &&& cid_parses(c)
            },
            Value::Integer(i) => s[pos] < 0xc0 && (i >= 0 ==> head_at(s, pos, 0, i as nat)
                && enc(w).len() == head(0, i as nat).len()) && (i < 0 ==> head_at(
                s,
                pos,
                1,
                (-1 - i) as nat,
            ) && enc(w).len() == head(1, (-1 - i) as nat).len()),
            Value::Bytes(bb) => {
                let hl = head(2, bb.len()).len();
                &&& s[pos] < 0xc0
                &&& head_at(s, pos, 2, bb.len())
                &&& enc(w).len() == hl + bb.len()
                &&& s.subrange(pos + hl, pos + enc(w).len()) == bb
            },
            Value::Text(t) => {
                let u = encode_utf8(t);
                let hl = head(3, u.len()).len();
                &&& s[pos] < 0xc0
                &&& head_at(s, pos, 3, u.len())
                &&& enc(w).len() == hl + u.len()
                &&& s.subrange(pos + hl, pos + enc(w).len()) == u
            },
            Value::List(l) => {
                let hl = head(4, l.len()).len();
                &&& s[pos] < 0xc0
                &&& head_at(s, pos, 4, l.len())
                &&& enc(w).len() == hl + enc_list(l).len()
                &&& list_at(s, pos + hl, l)
            },
            Value::Dict(es) => {
                let hl = head(5, es.len()).len();
                let ps = sort_entries(entry_encodings(es));
                &&& s[pos] < 0xc0
                &&& head_at(s, pos, 5, es.len())
                &&& ps.len() == es.len()
                &&& enc(w).len() == hl + enc_entries(ps).len()
                &&& s.subrange(pos + hl, pos + enc(w).len()) == enc_entries(ps)
            },
        },
{
    let e = enc(w);
    assert(s[pos] == e[0]);
    match w {
        Value::Float(f) => {
            reveal_with_fuel(crate::token::pow256, 9);
            crate::token::lemma_be_bytes_inverse(f as nat, 8);
            assert(s.subrange(pos + 1, pos + 9) =~= e.subrange(1, 9));
            assert(e.subrange(1, 9) =~= be_bytes(f as nat, 8));
        },
        Value::Link(c) => {
            let h = head(2, c.len() + 1);
            let hl = h.len() as int;
            assert(s.subrange(pos + 2, pos + 2 + hl) =~= e.subrange(2, 2 + hl));
            assert(e.subrange(2, 2 + hl) =~= h);
            assert(s[pos + 1] == e[1]);
            assert(s[pos + 2 + hl] == e[2 + hl]);
            assert(s.subrange(pos + 3 + hl, pos + e.len()) =~= e.subrange(3 + hl, e.len() as int));
            assert(e.subrange(3 + hl, e.len() as int) =~= c);
            lemma_head_at(s, pos + 2, 2, c.len() + 1);
        },
        Value::Integer(i) => {
            if i >= 0 {
                assert(s.subrange(pos, pos + e.len()) =~= head(0, i as nat));
                lemma_head_at(s, pos, 0, i as nat);
            } else {
                assert(s.subrange(pos, pos + e.len()) =~= head(1, (-1 - i) as nat));
                lemma_head_at(s, pos, 1, (-1 - i) as nat);
            }
        },
        Value::Bytes(bb) => {
            let h = head(2, bb.len());
            assert(s.subrange(pos, pos + h.len()) =~= e.subrange(0, h.len() as int));
            assert(e.subrange(0, h.len() as int) =~= h);
            assert(s.subrange(pos + h.len(), pos + e.len()) =~= e.subrange(h.len() as int, e.len() as int));
            assert(e.subrange(h.len() as int, e.len() as int) =~= bb);
            lemma_head_at(s, pos, 2, bb.len());
        },
        Value::Text(t) => {
            let u = encode_utf8(t);
            let h = head(3, u.len());
            assert(s.subrange(pos, pos + h.len()) =~= e.subrange(0, h.len() as int));
            assert(e.subrange(0, h.len() as int) =~= h);
            assert(s.subrange(pos + h.len(), pos + e.len()) =~= e.subrange(h.len() as int, e.len() as int));
            assert(e.subrange(h.len() as int, e.len() as int) =~= u);
            lemma_head_at(s, pos, 3, u.len());
        },
        Value::List(l) => {
            let h = head(4, l.len());
            assert(s.subrange(pos, pos + h.len()) =~= e.subrange(0, h.len() as int));
            assert(e.subrange(0, h.len() as int) =~= h);
            assert(s.subrange(pos + h.len(), pos + e.len()) =~= e.subrange(h.len() as int, e.len() as int));
            assert(e.subrange(h.len() as int, e.len() as int) =~= enc_list(l));
            lemma_head_at(s, pos, 4, l.len());
        },
        Value::Dict(es) => {
            let h = head(5, es.len());
            let ps = sort_entries(entry_encodings(es));
            assert(s.subrange(pos, pos + h.len()) =~= e.subrange(0, h.len() as int));
            assert(e.subrange(0, h.len() as int) =~= h);
            assert(s.subrange(pos + h.len(), pos + e.len()) =~= e.subrange(h.len() as int, e.len() as int));
            assert(e.subrange(h.len() as int, e.len() as int) =~= enc_entries(ps));
            lemma_head_at(s, pos, 5, es.len());
            crate::encode::lemma_entry_encodings(es);
            lemma_sort_len(entry_encodings(es));
        },
        _ => {},
    }
}

/// Decodes the null, boolean or float at `pos`.
fn decode_simple(b: &[u8], pos: usize) -> (r: Result<(Ipld, usize), DecodeError>)
    requires
        pos < b.len(),
        b@[pos as int] == 0xf4 || b@[pos as int] == 0xf5 || b@[pos as int] == 0xf6
            || b@[pos as int] == 0xfb,
    ensures
        r matches Ok((v, end)) ==> {
            &&& pos < end <= b.len()
            &&& representable(v@)
            &&& canonical(v@)
            &&& b@.subrange(pos as int, end as int) == enc(v@)
        },
        forall|w: Value| #[trigger]
            item_at(b@, pos as int, w) ==> r is Ok && r->Ok_0.1 == pos + enc(w).len(),
        item_fault_at(b@, pos as int) ==> r == Err::<(Ipld, usize), DecodeError>(DecodeError::Malformed(pos)),
        r matches Err(DecodeError::InvalidLink(k)) ==> invalid_link_at(b@, k as int),
        !(r matches Err(DecodeError::TrailingBytes(_))),
{
    let ib: u8 = b[pos];
    if ib == 0xf4 || ib == 0xf5 || ib == 0xf6 {
        let v = if ib == 0xf4 {
            Ipld::Bool(false)
        } else if ib == 0xf5 {
            Ipld::Bool(true)
        } else {
            Ipld::Null
        };
        assert(b@.subrange(pos as int, pos + 1) =~= enc(v@));
        proof {
            assert forall|w: Value| #[trigger] item_at(b@, pos as int, w) implies enc(w).len()
                == 1 by {
                lemma_item_shape(b@, pos as int, w);
                if w is Integer {
                    let i = w->Integer_0;
                    if i >= 0 {
                        lemma_head_at(b@, pos as int, 0, i as nat);
                    } else {
                        lemma_head_at(b@, pos as int, 1, (-1 - i) as nat);
                    }
                }
            }
        }
        return Ok((v, pos + 1));
    }
    if ib == 0xfb {
        if b.len() - pos < 9 {
            proof {
                assert forall|w: Value| #[trigger] item_at(b@, pos as int, w) implies false by {
                    lemma_item_shape(b@, pos as int, w);
                }
            }
            return Err(DecodeError::UnexpectedEof);
        }
        let f = read_be(b, pos + 1, 8);
        if (f / 0x10_0000_0000_0000) % 0x800 == 0x7ff {
            proof {
                assert forall|w: Value| #[trigger] item_at(b@, pos as int, w) implies false by {
                    lemma_item_shape(b@, pos as int, w);
                }
            }
            return Err(DecodeError::Malformed(pos));
        }
        let v = Ipld::Float(f);
        assert(b@.subrange(pos as int, pos + 9) =~= seq![ib] + b@.subrange(pos + 1, pos + 9));
        assert(b@.subrange(pos as int, pos + 9) =~= enc(v@));
        proof {
            assert forall|w: Value| #[trigger] item_at(b@, pos as int, w) implies enc(w).len()
                == 9 by {
                lemma_item_shape(b@, pos as int, w);
            }
        }
        return Ok((v, pos + 9));
    }
    Err(DecodeError::Malformed(pos))
}

/// Decodes the integer, byte string or text string at `pos`.
#[verifier::rlimit(40)]
fn decode_atom(b: &[u8], pos: usize) -> (r: Result<(Ipld, usize), DecodeError>)
    requires
        pos < b.len(),
        b@[pos as int] < 0x80,
    ensures
        r matches Ok((v, end)) ==> {
            &&& pos < end <= b.len()
            &&& representable(v@)
            &&& canonical(v@)
            &&& b@.subrange(pos as int, end as int) == enc(v@)
        },
        forall|w: Value| #[trigger]
            item_at(b@, pos as int, w) ==> r is Ok && r->Ok_0.1 == pos + enc(w).len(),
        item_fault_at(b@, pos as int) ==> r == Err::<(Ipld, usize), DecodeError>(DecodeError::Malformed(pos)),
        r matches Err(DecodeError::InvalidLink(k)) ==> invalid_link_at(b@, k as int),
        !(r matches Err(DecodeError::TrailingBytes(_))),
{
    proof {
        assert forall|w: Value| #[trigger] item_at(b@, pos as int, w) implies !(w is Null || w is Bool
            || w is Float || w is Link || w is List || w is Dict) by {
            lemma_item_shape(b@, pos as int, w);
            if w is List {
                lemma_head_at(b@, pos as int, 4, w->List_0.len());
            } else if w is Dict {
                lemma_head_at(b@, pos as int, 5, w->Dict_0.len());
            }
        }
    }
    let hr = read_head(b, pos);
    let (major, n, p) = match hr {
        Ok(x) => x,
        Err(e) => {
            proof {
                assert forall|w: Value| #[trigger] item_at(b@, pos as int, w) implies false by {
                    lemma_item_shape(b@, pos as int, w);
                }
            }
            return Err(e);
        },
    };
    if major == 0 {
        let v = Ipld::Integer(n as i128);
        assert(b@.subrange(pos as int, p as int) =~= enc(v@));
        proof {
            assert forall|w: Value| #[trigger] item_at(b@, pos as int, w) implies enc(w).len()
                == p - pos by {
                lemma_item_shape(b@, pos as int, w);
            }
        }
        Ok((v, p))
    } else if major == 1 {
        let v = Ipld::Integer(-1 - n as i128);
        assert(b@.subrange(pos as int, p as int) =~= enc(v@));
        proof {
            assert forall|w: Value| #[trigger] item_at(b@, pos as int, w) implies enc(w).len()
                == p - pos by {
                lemma_item_shape(b@, pos as int, w);
            }
        }
        Ok((v, p))
    } else if major == 2 || major == 3 {
        if n > (b.len() - p) as u64 {
            proof {
                assert forall|w: Value| #[trigger] item_at(b@, pos as int, w) implies false by {
                    lemma_item_shape(b@, pos as int, w);
                }
            }
            return Err(DecodeError::UnexpectedEof);
        }
        let end: usize = p + n as usize;
        let bytes = vstd::slice::slice_to_vec(vstd::slice::slice_subrange(b, p, end));
        assert(b@.subrange(pos as int, end as int) =~= b@.subrange(pos as int, p as int) + bytes@);
        proof {
            assert forall|w: Value| #[trigger] item_at(b@, pos as int, w) implies enc(w).len()
                == end - pos && (major == 3 ==> valid_utf8(bytes@)) by {
                lemma_item_shape(b@, pos as int, w);
                if w is Text {
                    vstd::utf8::encode_utf8_valid_utf8(w->Text_0);
                }
            }
        }
        if major == 2 {
            let v = Ipld::Bytes(bytes);
            assert(b@.subrange(pos as int, end as int) =~= enc(v@));
            Ok((v, end))
        } else {
            match string_from_utf8(bytes) {
                Some(s) => {
                    let v = Ipld::String(s);
                    assert(b@.subrange(pos as int, end as int) =~= enc(v@));
                    Ok((v, end))
                },
                None => Err(DecodeError::Malformed(pos)),
            }
        }
    } else {
        proof {
            assert forall|w: Value| #[trigger] item_at(b@, pos as int, w) implies false by {
                lemma_item_shape(b@, pos as int, w);
            }
        }
        Err(DecodeError::Malformed(pos))
    }
}

/// Decodes the item at `pos`: the value and where its encoding ends. The
/// value's canonical encoding is exactly the bytes read, and wherever the
/// encoding of a representable value stands at `pos`, the item is read.
#[verifier::rlimit(40)]
fn decode_item(b: &[u8], pos: usize) -> (r: Result<(Ipld, usize), DecodeError>)
    requires
        pos <= b.len(),
    ensures
        r matches Ok((v, end)) ==> {
            &&& pos < end <= b.len()
            &&& representable(v@)
            &&& canonical(v@)
            &&& b@.subrange(pos as int, end as int) == enc(v@)
        },
        forall|w: Value| #[trigger]
            item_at(b@, pos as int, w) ==> r is Ok && r->Ok_0.1 == pos + enc(w).len(),
        item_fault_at(b@, pos as int) ==> r == Err::<(Ipld, usize), DecodeError>(DecodeError::Malformed(pos)),
        r matches Err(DecodeError::InvalidLink(k)) ==> invalid_link_at(b@, k as int),
        !(r matches Err(DecodeError::TrailingBytes(_))),
        forall|n: nat, w: Seq<Value>| #[trigger] list_fault_at(b@, pos as int, n, w) ==> r is Err
            && r->Err_0 == DecodeError::Malformed((pos + head(4, n).len() + enc_list(w).len()) as usize),
        forall|n: nat, q: Seq<EntryBytes>, k: nat| #[trigger] map_key_fault_at(b@, pos as int, n, q, k)
            ==> r is Err && r->Err_0 == DecodeError::Malformed(
                (pos + head(5, n).len() + enc_entries(q).len()) as usize,
            ),
    decreases b.len() - pos, 0nat,
{
    if pos >= b.len() {
        proof {
            assert forall|w: Value| #[trigger] item_at(b@, pos as int, w) implies false by {
                lemma_item_shape(b@, pos as int, w);
            }
        }
        return Err(DecodeError::UnexpectedEof);
    }
    let ib: u8 = b[pos];
    if ib == 0xf4 || ib == 0xf5 || ib == 0xf6 || ib == 0xfb {
        proof {
            assert forall|n: nat, w: Seq<Value>| #[trigger] list_fault_at(b@, pos as int, n, w) implies false by {
                lemma_head_at(b@, pos as int, 4, n);
            }
        }
        proof {
            assert forall|n: nat, q: Seq<EntryBytes>, k: nat| #[trigger] map_key_fault_at(b@, pos as int, n, q, k) implies false by {
                lemma_head_at(b@, pos as int, 5, n);
            }
        }
        return decode_simple(b, pos);
    }
    if ib >= 0xc0 {
        proof {
            assert forall|w: Value| #[trigger] item_at(b@, pos as int, w) implies w is Link by {
                lemma_item_shape(b@, pos as int, w);
            }
        }
        proof {
            assert forall|n: nat, w: Seq<Value>| #[trigger] list_fault_at(b@, pos as int, n, w) implies false by {
                lemma_head_at(b@, pos as int, 4, n);
            }
        }
        proof {
            assert forall|n: nat, q: Seq<EntryBytes>, k: nat| #[trigger] map_key_fault_at(b@, pos as int, n, q, k) implies false by {
                lemma_head_at(b@, pos as int, 5, n);
            }
        }
        return decode_link(b, pos);
    }
    if ib < 0x80 {
        proof {
            assert forall|n: nat, w: Seq<Value>| #[trigger] list_fault_at(b@, pos as int, n, w) implies false by {
                lemma_head_at(b@, pos as int, 4, n);
            }
        }
        proof {
            assert forall|n: nat, q: Seq<EntryBytes>, k: nat| #[trigger] map_key_fault_at(b@, pos as int, n, q, k) implies false by {
                lemma_head_at(b@, pos as int, 5, n);
            }
        }
        return decode_atom(b, pos);
    }
    proof {
        assert forall|w: Value| #[trigger] item_at(b@, pos as int, w) implies w is List || w is Dict by {
            lemma_item_shape(b@, pos as int, w);
            if w is Integer {
                let i = w->Integer_0;
                if i >= 0 {
                    lemma_head_at(b@, pos as int, 0, i as nat);
                } else {
                    lemma_head_at(b@, pos as int, 1, (-1 - i) as nat);
                }
            } else if w is Bytes {
                lemma_head_at(b@, pos as int, 2, w->Bytes_0.len());
            } else if w is Text {
                lemma_head_at(b@, pos as int, 3, encode_utf8(w->Text_0).len());
            }
        }
    }
    let hr = read_head(b, pos);
    let (major, n, p) = match hr {
        Ok(x) => x,
        Err(e) => {
            proof {
                assert forall|w: Value| #[trigger] item_at(b@, pos as int, w) implies false by {
                    lemma_item_shape(b@, pos as int, w);
                }
            }
            return Err(e);
        },
    };
    if major == 4 {
        proof {
            assert forall|w: Value| #[trigger] item_at(b@, pos as int, w) implies list_at(
                b@,
                p as int,
                w->List_0,
            ) && w->List_0.len() == n && enc(w).len() == (p - pos) + enc_list(w->List_0).len() by {
                lemma_item_shape(b@, pos as int, w);
            }
        }
        let (items, end) = decode_list(b, p, n)?;
        proof {
            crate::encode::lemma_models(items@);
        }
        let v = Ipld::List(items);
        assert(b@.subrange(pos as int, end as int) =~= b@.subrange(pos as int, p as int) + b@.subrange(p as int, end as int));
        assert(b@.subrange(pos as int, end as int) =~= enc(v@));
        Ok((v, end))
    } else {
        proof {
            assert forall|w: Value| #[trigger] item_at(b@, pos as int, w) implies dict_at(
                b@,
                p as int,
                sort_entries(entry_encodings(w->Dict_0)),
            ) && sort_entries(entry_encodings(w->Dict_0)).len() == n && enc(w).len() == (p - pos)
                + enc_entries(sort_entries(entry_encodings(w->Dict_0))).len() by {
                lemma_item_shape(b@, pos as int, w);
                lemma_sorted_entries_ok(w->Dict_0);
            }
        }
        let (entries, end) = decode_dict(b, p, n)?;
        proof {
            crate::encode::lemma_entry_models(entries@);
        }
        let v = Ipld::Dict(entries);
        assert(b@.subrange(pos as int, end as int) =~= b@.subrange(pos as int, p as int) + b@.subrange(p as int, end as int));
        assert(b@.subrange(pos as int, end as int) =~= enc(v@));
        Ok((v, end))
    }
}

/// Decodes the link at `pos`, whose first byte is of major type 6 or 7.
#[verifier::rlimit(40)]
fn decode_link(b: &[u8], pos: usize) -> (r: Result<(Ipld, usize), DecodeError>)
    requires
        pos < b.len(),
    ensures
        r matches Ok((v, end)) ==> {
            &&& pos < end <= b.len()
            &&& representable(v@)
            &&& canonical(v@)
            &&& b@.subrange(pos as int, end as int) == enc(v@)
        },
        forall|w: Value| #[trigger]
            item_at(b@, pos as int, w) && w is Link ==> r is Ok && r->Ok_0.1 == pos + enc(w).len(),
        item_fault_at(b@, pos as int) ==> r == Err::<(Ipld, usize), DecodeError>(DecodeError::Malformed(pos)),
        r matches Err(DecodeError::InvalidLink(k)) ==> invalid_link_at(b@, k as int),
        !(r matches Err(DecodeError::TrailingBytes(_))),
{
    if b[pos] != 0xd8 {
        proof {
            assert forall|w: Value| #[trigger] item_at(b@, pos as int, w) && w is Link implies false by {
                lemma_item_shape(b@, pos as int, w);
            }
        }
        return Err(DecodeError::Malformed(pos));
    }
    if b.len() - pos < 2 {
        proof {
            assert forall|w: Value| #[trigger] item_at(b@, pos as int, w) && w is Link implies false by {
                lemma_item_shape(b@, pos as int, w);
            }
        }
        return Err(DecodeError::UnexpectedEof);
    }
    if b[pos + 1] != 0x2a {
        proof {
            assert forall|w: Value| #[trigger] item_at(b@, pos as int, w) && w is Link implies false by {
                lemma_item_shape(b@, pos as int, w);
            }
        }
        return Err(DecodeError::Malformed(pos));
    }
    let hr = read_head(b, pos + 2);
    proof {
        assert forall|w: Value| #[trigger] item_at(b@, pos as int, w) && w is Link implies hr == Ok::<
            (u8, u64, usize),
            DecodeError,
        >((2, (w->Link_0.len() + 1) as u64, (pos + 2 + head(2, w->Link_0.len() + 1).len()) as usize)) by {
            lemma_item_shape(b@, pos as int, w);
        }
    }
    let (major, n, p) = hr?;
    proof {
        assert forall|w: Value| #[trigger] item_at(b@, pos as int, w) && w is Link implies major == 2
            && n >= 1 && n <= b.len() - p && b@[p as int] == 0 by {
            lemma_item_shape(b@, pos as int, w);
        }
    }
    if major != 2 || n == 0 {
        return Err(DecodeError::Malformed(pos));
    }
    if n > (b.len() - p) as u64 {
        return Err(DecodeError::UnexpectedEof);
    }
    if b[p] != 0 {
        return Err(DecodeError::Malformed(pos));
    }
    let end: usize = p + n as usize;
    let c = vstd::slice::slice_to_vec(vstd::slice::slice_subrange(b, p + 1, end));
    proof {
        assert forall|w: Value| #[trigger] item_at(b@, pos as int, w) && w is Link implies w->Link_0
            == c@ && enc(w).len() == end - pos by {
            lemma_item_shape(b@, pos as int, w);
        }
    }
    assert(b@.subrange(pos as int, end as int) =~= link_bytes(c@));
    if !is_cid(c.as_slice()) {
        assert(b@.subrange(pos as int, pos + link_bytes(c@).len()) == link_bytes(c@));
        return Err(DecodeError::InvalidLink(pos));
    }
    let v = Ipld::Link(c);
    assert(b@.subrange(pos as int, end as int) =~= seq![0xd8u8, 0x2au8] + b@.subrange(pos + 2, p as int) + seq![0u8] + c@);
    assert(b@.subrange(pos as int, end as int) =~= enc(v@));
    Ok((v, end))
}

/// Decodes `n` items one after the other from `p` on.
#[verifier::rlimit(40)]
fn decode_list(b: &[u8], p: usize, n: u64) -> (r: Result<(Vec<Ipld>, usize), DecodeError>)
    requires
        p <= b.len(),
    ensures
        r matches Ok((items, end)) ==> {
            &&& p <= end <= b.len()
            &&& items.len() == n
            &&& all_representable(models(items@))
            &&& all_canonical(models(items@))
            &&& b@.subrange(p as int, end as int) == enc_list(models(items@))
        },
        forall|w: Seq<Value>| #[trigger]
            list_at(b@, p as int, w) && w.len() == n ==> r is Ok && r->Ok_0.1 == p + enc_list(w).len(),
        forall|w: Seq<Value>| #[trigger]
            list_at(b@, p as int, w) && w.len() < n && item_fault_at(b@, p + enc_list(w).len())
                ==> r is Err && r->Err_0 == DecodeError::Malformed((p + enc_list(w).len()) as usize),
        r matches Err(DecodeError::InvalidLink(k)) ==> invalid_link_at(b@, k as int),
        !(r matches Err(DecodeError::TrailingBytes(_))),
    decreases b.len() - p, 1nat,
{
    let mut items: Vec<Ipld> = Vec::new();
    let mut cur: usize = p;
    let mut i: u64 = 0;
    while i < n
        invariant
            p <= cur <= b.len(),
            items.len() == i,
            i <= n,
            all_representable(models(items@)),
            all_canonical(models(items@)),
            b@.subrange(p as int, cur as int) == enc_list(models(items@)),
            forall|w: Seq<Value>| #[trigger]
                list_at(b@, p as int, w) && i <= w.len() <= n ==> cur == p + enc_list(
                    w.subrange(0, i as int),
                ).len(),
            forall|w: Seq<Value>| #[trigger]
                list_at(b@, p as int, w) && w.len() < i ==> !item_fault_at(b@, p + enc_list(w).len()),
        decreases n - i,
    {
        proof {
            assert forall|w: Seq<Value>| #[trigger] list_at(b@, p as int, w) && i < w.len() <= n implies item_at(
                b@,
                cur as int,
                w[i as int],
            ) && cur + enc(w[i as int]).len() == p + enc_list(w.subrange(0, i + 1)).len() by {
                lemma_list_step(b@, p as int, w, i as int);
            }
            assert forall|w: Seq<Value>| #[trigger] list_at(b@, p as int, w) && w.len() == i implies cur
                == p + enc_list(w).len() by {
                assert(w.subrange(0, i as int) =~= w);
            }
        }
        let (v, end) = match decode_item(b, cur) {
            Ok(x) => x,
            Err(e) => {
                proof {
                    assert forall|w: Seq<Value>| #[trigger] list_at(b@, p as int, w) && w.len() < n
                        && item_fault_at(b@, p + enc_list(w).len()) implies e == DecodeError::Malformed(
                        (p + enc_list(w).len()) as usize,
                    ) by {
                        if w.len() > i {
                            assert(item_at(b@, cur as int, w[i as int]));
                        }
                    }
                }
                return Err(e);
            },
        };
        proof {
            assert forall|w: Seq<Value>| #[trigger] list_at(b@, p as int, w) && w.len() <= i implies !item_fault_at(
                b@,
                p + enc_list(w).len(),
            ) by {
                if w.len() == i {
                    assert(cur == p + enc_list(w).len());
                }
            }
        }
        let ghost before = items@;
        let ghost gv = v;
        items.push(v);
        proof {
            assert(items@.drop_last() =~= before);
            assert(items@.last() == gv);
            assert(models(items@) == models(before).push(gv@));
            assert(models(items@).drop_last() =~= models(before));
            assert(b@.subrange(p as int, end as int) =~= b@.subrange(p as int, cur as int) + b@.subrange(cur as int, end as int));
        }
        cur = end;
        i += 1;
    }
    proof {
        assert forall|w: Seq<Value>| #[trigger] list_at(b@, p as int, w) && w.len() == n implies cur
            == p + enc_list(w).len() by {
            assert(w.subrange(0, i as int) =~= w);
        }
    }
    Ok((items, cur))
}

/// Decodes `n` map entries from `p` on: text keys in strictly ascending
/// canonical order, each followed by its value.
#[verifier::rlimit(60)]
fn decode_dict(b: &[u8], p: usize, n: u64) -> (r: Result<(Vec<(String, Ipld)>, usize), DecodeError>)
    requires
        p <= b.len(),
    ensures
        r matches Ok((m, end)) ==> {
            &&& p <= end <= b.len()
            &&& m.len() == n
            &&& representable(Value::Dict(entry_models(m@)))
            &&& canonical(Value::Dict(entry_models(m@)))
            &&& b@.subrange(p as int, end as int) == enc_entries(sort_entries(entry_encodings(entry_models(m@))))
        },
        forall|q: Seq<EntryBytes>| #[trigger]
            dict_at(b@, p as int, q) && q.len() == n ==> r is Ok && r->Ok_0.1 == p + enc_entries(q).len(),
        forall|q: Seq<EntryBytes>, k: nat| #[trigger]
            dict_key_fault(b@, p as int, q, k) && q.len() < n ==> r is Err && r->Err_0
                == DecodeError::Malformed((p + enc_entries(q).len()) as usize),
        r matches Err(DecodeError::InvalidLink(k)) ==> invalid_link_at(b@, k as int),
        !(r matches Err(DecodeError::TrailingBytes(_))),
    decreases b.len() - p, 1nat,
{
    let mut m: Vec<(String, Ipld)> = Vec::new();
    let mut prev: Vec<u8> = Vec::new();
    let mut cur: usize = p;
    let mut i: u64 = 0;
    while i < n
        invariant
            p <= cur <= b.len(),
            m.len() == i,
            i <= n,
            entry_encodings(entry_models(m@)).len() == i,
            strictly_sorted(entry_encodings(entry_models(m@))),
            i > 0 ==> prev@ == entry_encodings(entry_models(m@))[i - 1].0,
            entries_representable(entry_models(m@)),
            entries_canonical(entry_models(m@)),
            b@.subrange(p as int, cur as int) == enc_entries(entry_encodings(entry_models(m@))),
            forall|q: Seq<EntryBytes>| #[trigger]
                dict_at(b@, p as int, q) && i <= q.len() <= n ==> cur == p + enc_entries(
                    q.subrange(0, i as int),
                ).len() && (i > 0 ==> prev@ == q[i - 1].0),
            forall|q: Seq<EntryBytes>, k: nat| #[trigger]
                dict_key_fault(b@, p as int, q, k) ==> q.len() >= i,
        decreases n - i,
    {
        let ghost ps = entry_encodings(entry_models(m@));
        proof {
            assert forall|q: Seq<EntryBytes>| #[trigger] dict_at(b@, p as int, q) && i < q.len() <= n implies ({
                let k = q[i as int].0;
                let hl = head(3, k.len()).len();
                &&& head_at(b@, cur as int, 3, k.len())
                &&& cur + hl + k.len() <= b.len()
                &&& b@.subrange(cur + hl, cur + hl + k.len()) == k
                &&& valid_utf8(k)
                &&& (i > 0 ==> key_lt(prev@, k))
            }) by {
                lemma_dict_step(b@, p as int, q, i as int);
            }
        }
        let hr = read_head(b, cur);
        let (km, kn, kp) = match hr {
            Ok(x) => x,
            Err(e) => {
                proof {
                    assert forall|q: Seq<EntryBytes>, k: nat| #[trigger] dict_key_fault(b@, p as int, q, k)
                        && q.len() < n implies false by {
                        if q.len() == i {
                            assert(q.subrange(0, i as int) =~= q);
                            assert(head_at(b@, cur as int, 3, k));
                        } else {
                            lemma_dict_step(b@, p as int, q, i as int);
                        }
                    }
                }
                return Err(e);
            },
        };
        proof {
            assert forall|q: Seq<EntryBytes>| #[trigger] dict_at(b@, p as int, q) && i < q.len() <= n implies km
                == 3 && kn == q[i as int].0.len() && kp == cur + head(3, q[i as int].0.len()).len() by {
                lemma_dict_step(b@, p as int, q, i as int);
            }
        }
        proof {
            assert forall|q: Seq<EntryBytes>, k: nat| #[trigger] dict_key_fault(b@, p as int, q, k)
                && q.len() == i implies cur == p + enc_entries(q).len() && km == 3 && kn == k && kp
                == cur + head(3, k).len() && prev@ == q.last().0 by {
                assert(q.subrange(0, i as int) =~= q);
            }
        }
        if km != 3 {
            return Err(DecodeError::Malformed(cur));
        }
        if kn > (b.len() - kp) as u64 {
            return Err(DecodeError::UnexpectedEof);
        }
        let kend: usize = kp + kn as usize;
        let kb = vstd::slice::slice_to_vec(vstd::slice::slice_subrange(b, kp, kend));
        proof {
            assert forall|q: Seq<EntryBytes>| #[trigger] dict_at(b@, p as int, q) && i < q.len() <= n implies kb@
                == q[i as int].0 by {
                lemma_dict_step(b@, p as int, q, i as int);
            }
        }
        if i > 0 && !key_less(prev.as_slice(), kb.as_slice()) {
            return Err(DecodeError::Malformed(cur));
        }
        proof {
            assert forall|q: Seq<EntryBytes>, k: nat| #[trigger] dict_key_fault(b@, p as int, q, k)
                implies q.len() != i by {
                if q.len() == i {
                    assert(b@.subrange(kp as int, kend as int) == kb@);
                }
            }
        }
        let ks = match string_from_utf8(vstd::slice::slice_to_vec(vstd::slice::slice_subrange(b, kp, kend))) {
            Some(s) => s,
            None => {
                return Err(DecodeError::Malformed(cur));
            },
        };
        proof {
            assert forall|q: Seq<EntryBytes>| #[trigger] dict_at(b@, p as int, q) && i < q.len() <= n implies exists|
                w: Value,
            | #[trigger] item_at(b@, kend as int, w) && enc(w) == q[i as int].1 by {
                lemma_dict_step(b@, p as int, q, i as int);
                let w = choose|w: Value| representable(w) && enc(w) == q[i as int].1;
                assert(item_at(b@, kend as int, w));
            }
        }
        let (v, end) = match decode_item(b, kend) {
            Ok(x) => x,
            Err(e) => {
                return Err(e);
            },
        };
        proof {
            assert forall|q: Seq<EntryBytes>| #[trigger] dict_at(b@, p as int, q) && i < q.len() <= n implies end
                == p + enc_entries(q.subrange(0, i + 1)).len() by {
                lemma_dict_step(b@, p as int, q, i as int);
                let w = choose|w: Value| #[trigger] item_at(b@, kend as int, w) && enc(w) == q[i as int].1;
            }
        }
        let ghost before = m@;
        let ghost entry = (ks@, v@);
        m.push((ks, v));
        proof {
            assert(m@.drop_last() =~= before);
            assert(entry_models(m@) == entry_models(before).push(entry));
            assert(entry_models(m@).drop_last() =~= entry_models(before));
            let ps2 = entry_encodings(entry_models(m@));
            assert(ps2 == ps.push((kb@, enc(v@))));
            assert(ps2.drop_last() =~= ps);
            assert forall|a: int, c: int| 0 <= a < c < ps2.len() implies key_lt(
                #[trigger] ps2[a].0,
                #[trigger] ps2[c].0,
            ) by {
                if c < ps.len() {
                    assert(ps2[a] == ps[a] && ps2[c] == ps[c]);
                } else if a < ps.len() - 1 {
                    assert(ps2[a] == ps[a]);
                    assert(key_lt(ps[a].0, ps[ps.len() - 1].0));
                    lemma_key_lt_transitive(ps[a].0, prev@, kb@);
                }
            }
            assert(b@.subrange(p as int, end as int) =~= b@.subrange(p as int, cur as int)
                + b@.subrange(cur as int, kp as int) + kb@ + b@.subrange(kend as int, end as int));
        }
        prev = kb;
        cur = end;
        i += 1;
    }
    proof {
        assert forall|q: Seq<EntryBytes>| #[trigger] dict_at(b@, p as int, q) && q.len() == n implies cur
            == p + enc_entries(q).len() by {
            assert(q.subrange(0, i as int) =~= q);
        }
    }
    proof {
        let es = entry_models(m@);
        let ps = entry_encodings(es);
        lemma_sorted_identity(ps);
        crate::encode::lemma_entry_encodings(es);
        assert forall|a: int, c: int| 0 <= a < c < es.len() implies es[a].0 != es[c].0 by {
            assert(key_lt(ps[a].0, ps[c].0));
            lemma_key_lt_irreflexive(ps[a].0);
        }
    }
    Ok((m, cur))
}

/// The bytes of a link to the identifier bytes `c`: tag 42 over a byte string
/// of a zero byte and `c`.
pub open spec fn link_bytes(c: Seq<u8>) -> Seq<u8> {
    seq![0xd8u8, 0x2au8] + head(2, c.len() + 1) + seq![0u8] + c
}

/// At `k` stands a link whose identifier bytes do not read as a content
/// identifier.
pub open spec fn invalid_link_at(s: Seq<u8>, k: int) -> bool {
    exists|c: Seq<u8>|
        !cid_parses(c) && 0 <= k && k + link_bytes(c).len() <= s.len() && #[trigger] s.subrange(
            k,
            k + link_bytes(c).len(),
        ) == link_bytes(c)
}

/// The item at `pos` is not canonical, and no later byte can mend it: a head
/// with reserved or indefinite-length information or a needlessly long
/// argument, a tag other than 42, a simple value other than false, true and
/// null, a float narrower than 64 bits, or an infinite or NaN float.
pub open spec fn item_fault_at(s: Seq<u8>, pos: int) -> bool {
    &&& 0 <= pos < s.len()
    &&& {
        let ib = s[pos];
        ||| (ib < 0xc0 && head_fault_at(s, pos))
        ||| (ib >= 0xc0 && ib != 0xd8 && ib != 0xf4 && ib != 0xf5 && ib != 0xf6 && ib != 0xfb)
        ||| (ib == 0xd8 && pos + 1 < s.len() && s[pos + 1] != 0x2a)
        ||| (ib == 0xfb && pos + 9 <= s.len() && !finite_bits(
            from_be(s.subrange(pos + 1, pos + 9)) as u64,
        ))
    }
}

/// At `pos` stands the head of a list of `n` items, then the canonical
/// encodings of its first `w.len()` items, and then an item that is not
/// canonical (see [`item_fault_at`]).
pub open spec fn list_fault_at(s: Seq<u8>, pos: int, n: nat, w: Seq<Value>) -> bool {
    &&& head_at(s, pos, 4, n)
    &&& list_at(s, pos + head(4, n).len(), w)
    &&& w.len() < n
    &&& item_fault_at(s, pos + head(4, n).len() + enc_list(w).len())
}

/// From `p` on stand the encoded entries `q` of a map, then the head of a
/// text key of `k` bytes that does not come after the last key of `q` in
/// canonical order: it repeats a key, or stands out of order.
pub open spec fn dict_key_fault(s: Seq<u8>, p: int, q: Seq<EntryBytes>, k: nat) -> bool {
    let kpos = p + enc_entries(q).len();
    let kb = kpos + head(3, k).len();
    &&& dict_at(s, p, q)
    &&& q.len() > 0
    &&& head_at(s, kpos, 3, k)
    &&& kb + k <= s.len()
    &&& !key_lt(q.last().0, s.subrange(kb, kb + k))
}

/// At `pos` stands the head of a map of `n` entries whose entries after the
/// first `q.len()` begin with a key that repeats or precedes the last one.
pub open spec fn map_key_fault_at(s: Seq<u8>, pos: int, n: nat, q: Seq<EntryBytes>, k: nat) -> bool {
    &&& head_at(s, pos, 5, n)
    &&& q.len() < n
    &&& dict_key_fault(s, pos + head(5, n).len(), q, k)
}

/// The bytes are the canonical encoding of some representable value.
pub open spec fn decodable(b: Seq<u8>) -> bool {
    exists|w: Value| representable(w) && #[trigger] enc(w) == b
}

/// Decodes one canonical DAG-CBOR item that fills `b` exactly. Bytes after
/// the item are refused. It succeeds exactly on the encodings of
/// representable values; what it returns encodes back to exactly `b`, and its
/// maps hold their entries in canonical key order.
pub fn decode(b: &[u8]) -> (r: Result<Ipld, DecodeError>)
    ensures
        r is Ok <==> decodable(b@),
        r matches Ok(v) ==> representable(v@) && canonical(v@) && enc(v@) == b@,
        item_fault_at(b@, 0) ==> r == Err::<Ipld, DecodeError>(DecodeError::Malformed(0)),
        forall|n: nat, w: Seq<Value>| #[trigger] list_fault_at(b@, 0, n, w) ==> r is Err && r->Err_0
            == DecodeError::Malformed((head(4, n).len() + enc_list(w).len()) as usize),
        forall|n: nat, q: Seq<EntryBytes>, k: nat| #[trigger] map_key_fault_at(b@, 0, n, q, k) ==> r is Err
            && r->Err_0 == DecodeError::Malformed((head(5, n).len() + enc_entries(q).len()) as usize),
        r matches Err(DecodeError::InvalidLink(k)) ==> invalid_link_at(b@, k as int),
        r matches Err(DecodeError::TrailingBytes(k)) ==> k < b@.len() && decodable(b@.subrange(0, k as int)),
{
    proof {
        assert forall|w: Value| representable(w) && #[trigger] enc(w) == b@ implies item_at(b@, 0, w) by {
            assert(b@.subrange(0, enc(w).len() as int) =~= b@);
        }
    }
    let (v, end) = decode_item(b, 0)?;
    if end != b.len() {
        return Err(DecodeError::TrailingBytes(end));
    }
    assert(b@.subrange(0, end as int) =~= b@);
    Ok(v)
}

/// Round trip: the encoding of every representable value decodes, and the
/// one canonical value with that encoding is the value itself when it is
/// canonical. With the contracts of `encode` and `decode`, decoding what
/// `encode` gives for a canonical `v` returns `v`.
pub proof fn lemma_round_trip(v: Value, x: Value)
    requires
        representable(v),
        canonical(v),
        enc(v).len() < 0x1_0000_0000_0000_0000,
    ensures
        decodable(enc(v)),
        representable(x) && canonical(x) && enc(x) == enc(v) ==> x == v,
{
    if representable(x) && canonical(x) && enc(x) == enc(v) {
        lemma_canonical_unique(x, v);
    }
}

proof fn lemma_all_canonical(l: Seq<Value>)
    ensures
        all_canonical(l) <==> forall|i: int| 0 <= i < l.len() ==> canonical(#[trigger] l[i]),
    decreases l.len(),
{
    if l.len() > 0 {
        lemma_all_canonical(l.drop_last());
        assert(forall|i: int| 0 <= i < l.len() - 1 ==> l.drop_last()[i] == l[i]);
    }
}

proof fn lemma_entries_canonical(es: Seq<(Seq<char>, Value)>)
    ensures
        entries_canonical(es) <==> forall|i: int| 0 <= i < es.len() ==> canonical(#[trigger] es[i].1),
    decreases es.len(),
{
    if es.len() > 0 {
        lemma_entries_canonical(es.drop_last());
        assert(forall|i: int| 0 <= i < es.len() - 1 ==> es.drop_last()[i] == es[i]);
    }
}

proof fn lemma_head_unique(s: Seq<u8>, pos: int, m1: u8, n1: nat, m2: u8, n2: nat)
    requires
        head_at(s, pos, m1, n1),
        head_at(s, pos, m2, n2),
    ensures
        m1 == m2,
        n1 == n2,
        head(m1, n1).len() == head(m2, n2).len(),
{
    lemma_head_at(s, pos, m1, n1);
    lemma_head_at(s, pos, m2, n2);
}

/// Two canonical representable values whose encodings stand at one place
/// are the same value.
#[verifier::rlimit(40)]
proof fn lemma_item_unique(s: Seq<u8>, pos: int, x: Value, y: Value)
    requires
        item_at(s, pos, x),
        item_at(s, pos, y),
        canonical(x),
        canonical(y),
        s.len() < 0x1_0000_0000_0000_0000,
    ensures
        x == y,
    decreases x, 1nat,
{
    lemma_item_shape(s, pos, x);
    lemma_item_shape(s, pos, y);
    match x {
        Value::Integer(i) => {
            if i >= 0 {
                lemma_head_at(s, pos, 0, i as nat);
            } else {
                lemma_head_at(s, pos, 1, (-1 - i) as nat);
            }
            match y {
                Value::Integer(j) => {
                    if i >= 0 && j >= 0 {
                        lemma_head_unique(s, pos, 0, i as nat, 0, j as nat);
                    } else if i < 0 && j < 0 {
                        lemma_head_unique(s, pos, 1, (-1 - i) as nat, 1, (-1 - j) as nat);
                    } else if i >= 0 {
                        lemma_head_unique(s, pos, 0, i as nat, 1, (-1 - j) as nat);
                    } else {
                        lemma_head_unique(s, pos, 1, (-1 - i) as nat, 0, j as nat);
                    }
                },
                Value::Bytes(b) => lemma_head_at(s, pos, 2, b.len()),
                Value::Text(t) => lemma_head_at(s, pos, 3, encode_utf8(t).len()),
                Value::List(l) => lemma_head_at(s, pos, 4, l.len()),
                Value::Dict(es) => lemma_head_at(s, pos, 5, es.len()),
                _ => {},
            }
        },
        Value::Bytes(b) => {
            lemma_head_at(s, pos, 2, b.len());
            match y {
                Value::Bytes(b2) => lemma_head_unique(s, pos, 2, b.len(), 2, b2.len()),
                Value::Integer(j) => if j >= 0 {
                    lemma_head_at(s, pos, 0, j as nat)
                } else {
                    lemma_head_at(s, pos, 1, (-1 - j) as nat)
                },
                Value::Text(t) => lemma_head_at(s, pos, 3, encode_utf8(t).len()),
                Value::List(l) => lemma_head_at(s, pos, 4, l.len()),
                Value::Dict(es) => lemma_head_at(s, pos, 5, es.len()),
                _ => {},
            }
        },
        Value::Text(t) => {
            lemma_head_at(s, pos, 3, encode_utf8(t).len());
            match y {
                Value::Text(t2) => {
                    lemma_head_unique(s, pos, 3, encode_utf8(t).len(), 3, encode_utf8(t2).len());
                    vstd::utf8::encode_utf8_decode_utf8(t);
                    vstd::utf8::encode_utf8_decode_utf8(t2);
                },
                Value::Integer(j) => if j >= 0 {
                    lemma_head_at(s, pos, 0, j as nat)
                } else {
                    lemma_head_at(s, pos, 1, (-1 - j) as nat)
                },
                Value::Bytes(b) => lemma_head_at(s, pos, 2, b.len()),
                Value::List(l) => lemma_head_at(s, pos, 4, l.len()),
                Value::Dict(es) => lemma_head_at(s, pos, 5, es.len()),
                _ => {},
            }
        },
        Value::List(l) => {
            lemma_head_at(s, pos, 4, l.len());
            match y {
                Value::List(l2) => {
                    lemma_head_unique(s, pos, 4, l.len(), 4, l2.len());
                    let p = pos + head(4, l.len()).len();
                    assert(l.subrange(0, 0) =~= l2.subrange(0, 0));
                    lemma_list_unique(s, p, l, l2, 0);
                },
                Value::Integer(j) => if j >= 0 {
                    lemma_head_at(s, pos, 0, j as nat)
                } else {
                    lemma_head_at(s, pos, 1, (-1 - j) as nat)
                },
                Value::Bytes(b) => lemma_head_at(s, pos, 2, b.len()),
                Value::Text(t) => lemma_head_at(s, pos, 3, encode_utf8(t).len()),
                Value::Dict(es) => lemma_head_at(s, pos, 5, es.len()),
                _ => {},
            }
        },
        Value::Dict(es) => {
            lemma_head_at(s, pos, 5, es.len());
            match y {
                Value::Dict(es2) => {
                    lemma_head_unique(s, pos, 5, es.len(), 5, es2.len());
                    let p = pos + head(5, es.len()).len();
                    lemma_sorted_identity(entry_encodings(es));
                    lemma_sorted_identity(entry_encodings(es2));
                    lemma_sorted_entries_ok(es);
                    lemma_sorted_entries_ok(es2);
                    crate::encode::lemma_entry_encodings(es);
                    crate::encode::lemma_entry_encodings(es2);
                    assert(es.subrange(0, 0) =~= es2.subrange(0, 0));
                    lemma_dict_unique(s, p, es, es2, 0);
                },
                Value::Integer(j) => if j >= 0 {
                    lemma_head_at(s, pos, 0, j as nat)
                } else {
                    lemma_head_at(s, pos, 1, (-1 - j) as nat)
                },
                Value::Bytes(b) => lemma_head_at(s, pos, 2, b.len()),
                Value::Text(t) => lemma_head_at(s, pos, 3, encode_utf8(t).len()),
                Value::List(l) => lemma_head_at(s, pos, 4, l.len()),
                _ => {},
            }
        },
        Value::Link(c) => {
            match y {
                Value::Link(c2) => {
                    lemma_head_unique(s, pos + 2, 2, c.len() + 1, 2, c2.len() + 1);
                },
                _ => {},
            }
        },
        Value::Float(f) => {},
        _ => {},
    }
}

proof fn lemma_list_unique(s: Seq<u8>, p: int, l: Seq<Value>, l2: Seq<Value>, i: int)
    requires
        list_at(s, p, l),
        list_at(s, p, l2),
        all_canonical(l),
        all_canonical(l2),
        l.len() == l2.len(),
        0 <= i <= l.len(),
        l.subrange(0, i) == l2.subrange(0, i),
        s.len() < 0x1_0000_0000_0000_0000,
    ensures
        l == l2,
    decreases l, 0nat, l.len() - i,
{
    if i == l.len() {
        assert(l =~= l.subrange(0, i));
        assert(l2 =~= l2.subrange(0, i));
    } else {
        lemma_list_step(s, p, l, i);
        lemma_list_step(s, p, l2, i);
        lemma_all_canonical(l);
        lemma_all_canonical(l2);
        assert(enc_list(l.subrange(0, i)) == enc_list(l2.subrange(0, i)));
        lemma_item_unique(s, p + enc_list(l.subrange(0, i)).len(), l[i], l2[i]);
        assert(l.subrange(0, i + 1) =~= l.subrange(0, i).push(l[i]));
        assert(l2.subrange(0, i + 1) =~= l2.subrange(0, i).push(l2[i]));
        lemma_list_unique(s, p, l, l2, i + 1);
    }
}

proof fn lemma_dict_unique(s: Seq<u8>, p: int, es: Seq<(Seq<char>, Value)>, es2: Seq<(Seq<char>, Value)>, i: int)
    requires
        dict_at(s, p, entry_encodings(es)),
        dict_at(s, p, entry_encodings(es2)),
        entries_representable(es),
        entries_representable(es2),
        entries_canonical(es),
        entries_canonical(es2),
        es.len() == es2.len(),
        entry_encodings(es).len() == es.len(),
        entry_encodings(es2).len() == es2.len(),
        0 <= i <= es.len(),
        es.subrange(0, i) == es2.subrange(0, i),
        s.len() < 0x1_0000_0000_0000_0000,
    ensures
        es == es2,
    decreases es, 0nat, es.len() - i,
{
    if i == es.len() {
        assert(es =~= es.subrange(0, i));
        assert(es2 =~= es2.subrange(0, i));
    } else {
        let e = entry_encodings(es);
        let e2 = entry_encodings(es2);
        crate::encode::lemma_entry_encodings(es);
        crate::encode::lemma_entry_encodings(es2);
        assert(e.subrange(0, i) =~= e2.subrange(0, i)) by {
            assert forall|k: int| 0 <= k < i implies e[k] == e2[k] by {
                assert(es.subrange(0, i)[k] == es2.subrange(0, i)[k]);
            }
        }
        lemma_dict_step(s, p, e, i);
        lemma_dict_step(s, p, e2, i);
        let cur = p + enc_entries(e.subrange(0, i)).len();
        lemma_head_unique(s, cur, 3, e[i].0.len(), 3, e2[i].0.len());
        assert(e[i].0 == e2[i].0);
        vstd::utf8::encode_utf8_decode_utf8(es[i].0);
        vstd::utf8::encode_utf8_decode_utf8(es2[i].0);
        crate::encode::lemma_entries_representable(es);
        crate::encode::lemma_entries_representable(es2);
        lemma_entries_canonical(es);
        lemma_entries_canonical(es2);
        let vpos = cur + head(3, e[i].0.len()).len() + e[i].0.len();
        assert(item_at(s, vpos, es[i].1));
        assert(item_at(s, vpos, es2[i].1));
        lemma_item_unique(s, vpos, es[i].1, es2[i].1);
        assert(es.subrange(0, i + 1) =~= es.subrange(0, i).push(es[i]));
        assert(es2.subrange(0, i + 1) =~= es2.subrange(0, i).push(es2[i]));
        lemma_dict_unique(s, p, es, es2, i + 1);
    }
}

/// Distinct canonical values have distinct encodings: a canonical value is
/// the one value that decoding its encoding can give. So decoding what
/// `encode` gives for a canonical value returns that value itself, and
/// decoding returns one same value however its input was delivered.
pub proof fn lemma_canonical_unique(x: Value, y: Value)
    requires
        representable(x),
        representable(y),
        canonical(x),
        canonical(y),
        enc(x) == enc(y),
        enc(x).len() < 0x1_0000_0000_0000_0000,
    ensures
        x == y,
{
    let s = enc(x);
    assert(s.subrange(0, s.len() as int) =~= s);
    lemma_item_unique(s, 0, x, y);
}

proof fn lemma_encodings_contain(es: Seq<(Seq<char>, Value)>, y: EntryBytes)
    ensures
        entry_encodings(es).contains(y) <==> exists|i: int|
            0 <= i < es.len() && y == (encode_utf8(#[trigger] es[i].0), enc(es[i].1)),
{
    crate::encode::lemma_entry_encodings(es);
    let e = entry_encodings(es);
    if e.contains(y) {
        let k = choose|k: int| 0 <= k < e.len() && e[k] == y;
        assert(y == (encode_utf8(es[k].0), enc(es[k].1)));
    }
    if exists|i: int| 0 <= i < es.len() && y == (encode_utf8(#[trigger] es[i].0), enc(es[i].1)) {
        let i = choose|i: int| 0 <= i < es.len() && y == (encode_utf8(#[trigger] es[i].0), enc(es[i].1));
        assert(e[i] == y);
    }
}

/// Determinism: two representable maps that hold the same entries, in
/// whatever order they were inserted, have the same encoding.
pub proof fn lemma_entry_order_irrelevant(es1: Seq<(Seq<char>, Value)>, es2: Seq<(Seq<char>, Value)>)
    requires
        representable(Value::Dict(es1)),
        representable(Value::Dict(es2)),
        forall|x: (Seq<char>, Value)| #![trigger es1.contains(x)] #![trigger es2.contains(x)] es1.contains(x) <==> es2.contains(x),
    ensures
        enc(Value::Dict(es1)) == enc(Value::Dict(es2)),
{
    let e1 = entry_encodings(es1);
    let e2 = entry_encodings(es2);
    lemma_sorted_entries_ok(es1);
    lemma_sorted_entries_ok(es2);
    let s1 = sort_entries(e1);
    let s2 = sort_entries(e2);
    crate::encode::lemma_entry_encodings(es1);
    crate::encode::lemma_entry_encodings(es2);
    assert forall|a: int, c: int| 0 <= a < c < e1.len() implies (#[trigger] e1[a]).0 != (#[trigger] e1[c]).0 by {
        vstd::utf8::encode_utf8_decode_utf8(es1[a].0);
        vstd::utf8::encode_utf8_decode_utf8(es1[c].0);
    }
    assert forall|a: int, c: int| 0 <= a < c < e2.len() implies (#[trigger] e2[a]).0 != (#[trigger] e2[c]).0 by {
        vstd::utf8::encode_utf8_decode_utf8(es2[a].0);
        vstd::utf8::encode_utf8_decode_utf8(es2[c].0);
    }
    lemma_sort_sorted(e1);
    lemma_sort_sorted(e2);
    lemma_sort_contains(e1);
    lemma_sort_contains(e2);
    assert forall|y: EntryBytes| #[trigger] e1.contains(y) implies e2.contains(y) by {
        lemma_encodings_contain(es1, y);
        lemma_encodings_contain(es2, y);
        if e1.contains(y) {
            let i = choose|i: int| 0 <= i < es1.len() && y == (encode_utf8(#[trigger] es1[i].0), enc(es1[i].1));
            assert(es1.contains(es1[i]));
            let j = choose|j: int| 0 <= j < es2.len() && es2[j] == es1[i];
            assert(y == (encode_utf8(es2[j].0), enc(es2[j].1)));
        }
    }
    assert forall|y: EntryBytes| #[trigger] e2.contains(y) implies e1.contains(y) by {
        lemma_encodings_contain(es1, y);
        lemma_encodings_contain(es2, y);
        if e2.contains(y) {
            let i = choose|i: int| 0 <= i < es2.len() && y == (encode_utf8(#[trigger] es2[i].0), enc(es2[i].1));
            assert(es2.contains(es2[i]));
            let j = choose|j: int| 0 <= j < es1.len() && es1[j] == es2[i];
            assert(y == (encode_utf8(es1[j].0), enc(es1[j].1)));
        }
    }
    assert forall|x: EntryBytes| #![trigger s1.contains(x)] #![trigger s2.contains(x)] s1.contains(x) <==> s2.contains(x) by {
        if s1.contains(x) {
            assert(e1.contains(x));
            assert(e2.contains(x));
        }
        if s2.contains(x) {
            assert(e2.contains(x));
            assert(e1.contains(x));
        }
    }
    lemma_sorted_unique(s1, s2);
    lemma_sort_len(e1);
    lemma_sort_len(e2);
}

/// A decoder fed from a source that hands its bytes over in pieces of any
/// size. It reads forward only; the item is decoded once the source is done.
pub struct StreamDecoder {
    buf: Vec<u8>,
}

impl View for StreamDecoder {
    type V = Seq<u8>;

    /// The bytes fed so far, in order.
    closed spec fn view(&self) -> Seq<u8> {
        self.buf@
    }
}

impl StreamDecoder {
    /// A decoder that has been fed nothing.
    pub fn new() -> (r: StreamDecoder)
        ensures
            r@ == Seq::<u8>::empty(),
    {
        StreamDecoder { buf: Vec::new() }
    }

    /// Takes the next piece of the input.
    pub fn feed(&mut self, chunk: &[u8])
        ensures
            final(self)@ == old(self)@ + chunk@,
    {
        let mut i: usize = 0;
        while i < chunk.len()
            invariant
                0 <= i <= chunk.len(),
                self@ == old(self)@ + chunk@.subrange(0, i as int),
            decreases chunk.len() - i,
        {
            self.buf.push(chunk[i]);
            assert(chunk@.subrange(0, i + 1) =~= chunk@.subrange(0, i as int).push(chunk[i as int]));
            i += 1;
        }
        assert(chunk@.subrange(0, i as int) =~= chunk@);
    }

    /// Decodes all that was fed as one item, as [`decode`] does.
    pub fn finish(&self) -> (r: Result<Ipld, DecodeError>)
        ensures
            item_fault_at(self@, 0) ==> r is Err && r->Err_0 == DecodeError::Malformed(0),
            forall|n: nat, w: Seq<Value>| #[trigger] list_fault_at(self@, 0, n, w) ==> r is Err && r->Err_0
                == DecodeError::Malformed((head(4, n).len() + enc_list(w).len()) as usize),
            forall|n: nat, q: Seq<EntryBytes>, k: nat| #[trigger] map_key_fault_at(self@, 0, n, q, k) ==> r is Err
                && r->Err_0 == DecodeError::Malformed((head(5, n).len() + enc_entries(q).len()) as usize),
            r matches Err(DecodeError::InvalidLink(k)) ==> invalid_link_at(self@, k as int),
            r matches Err(DecodeError::TrailingBytes(k)) ==> k < self@.len() && decodable(self@.subrange(0, k as int)),
            r is Ok <==> decodable(self@),
            r matches Ok(v) ==> representable(v@) && canonical(v@) && enc(v@) == self@,
    {
        decode(self.buf.as_slice())
    }
}

} // verus!
