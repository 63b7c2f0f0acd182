//! The canonical order of map keys and the insertion sort that puts encoded
//! map entries in that order.

use vstd::prelude::*;

verus! {

/// The canonical order of map keys, over their UTF-8 bytes: the shorter key
/// first, and between keys of one length the bytewise smaller.
pub open spec fn key_lt(a: Seq<u8>, b: Seq<u8>) -> bool {
    a.len() < b.len() || (a.len() == b.len() && lex_lt(a, b))
}

/// `a` is before `b` at the first byte where they differ.
pub open spec fn lex_lt(a: Seq<u8>, b: Seq<u8>) -> bool {
    exists|i: int|
        0 <= i < a.len() && i < b.len() && a.subrange(0, i) == b.subrange(0, i) && a[i] < b[i]
}

/// An encoded map entry: the key's UTF-8 bytes and the value's encoding.
pub type EntryBytes = (Seq<u8>, Seq<u8>);

/// Puts `p` before the first entry of `s` whose key it precedes.
pub open spec fn insert_entry(s: Seq<EntryBytes>, p: EntryBytes) -> Seq<EntryBytes>
    decreases s.len(),
{
    if s.len() == 0 {
        seq![p]
    } else if key_lt(p.0, s[0].0) {
        seq![p] + s
    } else {
        seq![s[0]] + insert_entry(s.drop_first(), p)
    }
}

/// The entries of `s` in canonical key order.
pub open spec fn sort_entries(s: Seq<EntryBytes>) -> Seq<EntryBytes>
    decreases s.len(),
{
    if s.len() == 0 {
        s
    } else {
        insert_entry(sort_entries(s.drop_last()), s.last())
    }
}

pub(crate) proof fn lemma_insert_entry_at(s: Seq<EntryBytes>, p: EntryBytes, j: int)
    requires
        0 <= j <= s.len(),
        forall|k: int| 0 <= k < j ==> !key_lt(p.0, #[trigger] s[k].0),
        j < s.len() ==> key_lt(p.0, s[j].0),
    ensures
        insert_entry(s, p) == s.insert(j, p),
    decreases s.len(),
{
    if s.len() == 0 {
        assert(insert_entry(s, p) =~= s.insert(j, p));
    } else if j == 0 {
        assert(insert_entry(s, p) =~= s.insert(j, p));
    } else {
        let t = s.drop_first();
        assert forall|k: int| 0 <= k < j - 1 implies !key_lt(p.0, #[trigger] t[k].0) by {
            assert(t[k] == s[k + 1]);
        }
        lemma_insert_entry_at(t, p, j - 1);
        assert(insert_entry(s, p) =~= s.insert(j, p));
    }
}

pub(crate) proof fn lemma_sort_len(s: Seq<EntryBytes>)
    ensures
        sort_entries(s).len() == s.len(),
    decreases s.len(),
{
    if s.len() > 0 {
        lemma_sort_len(s.drop_last());
        lemma_insert_len(sort_entries(s.drop_last()), s.last());
    }
}

pub(crate) proof fn lemma_insert_len(s: Seq<EntryBytes>, p: EntryBytes)
    ensures
        insert_entry(s, p).len() == s.len() + 1,
    decreases s.len(),
{
    if s.len() > 0 {
        lemma_insert_len(s.drop_first(), p);
    }
}

/// Whether `a` precedes `b` in the canonical key order.
pub fn key_less(a: &[u8], b: &[u8]) -> (r: bool)
    ensures
        r == key_lt(a@, b@),
{
    if a.len() != b.len() {
        return a.len() < b.len();
    }
    let mut i: usize = 0;
    while i < a.len()
        invariant
            a.len() == b.len(),
            0 <= i <= a.len(),
            a@.subrange(0, i as int) == b@.subrange(0, i as int),
        decreases a.len() - i,
    {
        if a[i] != b[i] {
            if a[i] < b[i] {
                assert(lex_lt(a@, b@));
                return true;
            } else {
                assert(!lex_lt(a@, b@)) by {
                    if lex_lt(a@, b@) {
                        let k = choose|k: int|
                            0 <= k < a@.len() && k < b@.len() && a@.subrange(0, k) == b@.subrange(0, k)
                                && a@[k] < b@[k];
                        if k < i {
                            assert(a@.subrange(0, i as int)[k] == b@.subrange(0, i as int)[k]);
                        } else if k > i {
                            assert(a@.subrange(0, k)[i as int] == b@.subrange(0, k)[i as int]);
                        }
                    }
                }
                return false;
            }
        }
        assert(a@.subrange(0, i + 1) =~= a@.subrange(0, i as int).push(a[i as int]));
        assert(b@.subrange(0, i + 1) =~= b@.subrange(0, i as int).push(b[i as int]));
        i += 1;
    }
    assert(!lex_lt(a@, b@)) by {
        if lex_lt(a@, b@) {
            let k = choose|k: int|
                0 <= k < a@.len() && k < b@.len() && a@.subrange(0, k) == b@.subrange(0, k)
                    && a@[k] < b@[k];
            assert(a@.subrange(0, i as int)[k] == b@.subrange(0, i as int)[k]);
        }
    }
    false
}

/// The keys of the encoded entries `ps` are in strictly ascending canonical order.
pub open spec fn strictly_sorted(ps: Seq<EntryBytes>) -> bool {
    forall|a: int, c: int| 0 <= a < c < ps.len() ==> key_lt(#[trigger] ps[a].0, #[trigger] ps[c].0)
}

pub(crate) proof fn lemma_lex_total(a: Seq<u8>, b: Seq<u8>)
    requires
        a.len() == b.len(),
        a != b,
    ensures
        lex_lt(a, b) || lex_lt(b, a),
    decreases a.len(),
{
    if a.len() == 0 {
        assert(a =~= b);
    } else if a[0] != b[0] {
        assert(a.subrange(0, 0) =~= b.subrange(0, 0));
    } else {
        let a1 = a.drop_first();
        let b1 = b.drop_first();
        if a1 == b1 {
            assert(a =~= b) by {
                assert forall|k: int| 0 <= k < a.len() implies a[k] == b[k] by {
                    if k > 0 {
                        assert(a1[k - 1] == b1[k - 1]);
                    }
                }
            }
        }
        lemma_lex_total(a1, b1);
        if lex_lt(a1, b1) {
            let i = choose|i: int|
                0 <= i < a1.len() && i < b1.len() && a1.subrange(0, i) == b1.subrange(0, i) && a1[i] < b1[i];
            assert(a.subrange(0, i + 1) =~= b.subrange(0, i + 1)) by {
                assert forall|k: int| 0 <= k < i + 1 implies a[k] == b[k] by {
                    if k > 0 {
                        assert(a1.subrange(0, i)[k - 1] == b1.subrange(0, i)[k - 1]);
                    }
                }
            }
            assert(a[i + 1] < b[i + 1]);
        } else {
            let i = choose|i: int|
                0 <= i < b1.len() && i < a1.len() && b1.subrange(0, i) == a1.subrange(0, i) && b1[i] < a1[i];
            assert(b.subrange(0, i + 1) =~= a.subrange(0, i + 1)) by {
                assert forall|k: int| 0 <= k < i + 1 implies a[k] == b[k] by {
                    if k > 0 {
                        assert(a1.subrange(0, i)[k - 1] == b1.subrange(0, i)[k - 1]);
                    }
                }
            }
            assert(b[i + 1] < a[i + 1]);
        }
    }
}

pub(crate) proof fn lemma_key_lt_total(a: Seq<u8>, b: Seq<u8>)
    requires
        a != b,
    ensures
        key_lt(a, b) || key_lt(b, a),
{
    if a.len() == b.len() {
        lemma_lex_total(a, b);
    }
}

pub(crate) proof fn lemma_insert_sorted(t: Seq<EntryBytes>, p: EntryBytes)
    requires
        strictly_sorted(t),
        forall|k: int| 0 <= k < t.len() ==> (#[trigger] t[k]).0 != p.0,
    ensures
        strictly_sorted(insert_entry(t, p)),
        forall|x: EntryBytes| #[trigger] insert_entry(t, p).contains(x) ==> t.contains(x) || x == p,
    decreases t.len(),
{
    let r = insert_entry(t, p);
    if t.len() == 0 {
    } else if key_lt(p.0, t[0].0) {
        assert(r == seq![p] + t);
        assert forall|a: int, c: int| 0 <= a < c < r.len() implies key_lt(#[trigger] r[a].0, #[trigger] r[c].0) by {
            if a == 0 {
                assert(r[c] == t[c - 1]);
                if c > 1 {
                    lemma_key_lt_transitive(p.0, t[0].0, t[c - 1].0);
                }
            } else {
                assert(r[a] == t[a - 1] && r[c] == t[c - 1]);
            }
        }
        assert forall|x: EntryBytes| #[trigger] r.contains(x) implies t.contains(x) || x == p by {
            let k = choose|k: int| 0 <= k < r.len() && r[k] == x;
            if k > 0 {
                assert(t[k - 1] == x);
            }
        }
    } else {
        let t1 = t.drop_first();
        assert forall|a: int, c: int| 0 <= a < c < t1.len() implies key_lt(#[trigger] t1[a].0, #[trigger] t1[c].0) by {
            assert(t1[a] == t[a + 1] && t1[c] == t[c + 1]);
        }
        assert forall|k: int| 0 <= k < t1.len() implies (#[trigger] t1[k]).0 != p.0 by {
            assert(t1[k] == t[k + 1]);
        }
        lemma_insert_sorted(t1, p);
        let r1 = insert_entry(t1, p);
        assert(r == seq![t[0]] + r1);
        lemma_key_lt_total(p.0, t[0].0);
        assert forall|a: int, c: int| 0 <= a < c < r.len() implies key_lt(#[trigger] r[a].0, #[trigger] r[c].0) by {
            if a == 0 {
                assert(r[c] == r1[c - 1]);
                assert(r1.contains(r1[c - 1]));
                if r1[c - 1] != p {
                    let j = choose|j: int| 0 <= j < t1.len() && t1[j] == r1[c - 1];
                    assert(t1[j] == t[j + 1]);
                }
            } else {
                assert(r[a] == r1[a - 1] && r[c] == r1[c - 1]);
            }
        }
        assert forall|x: EntryBytes| #[trigger] r.contains(x) implies t.contains(x) || x == p by {
            let k = choose|k: int| 0 <= k < r.len() && r[k] == x;
            if k == 0 {
                assert(t[0] == x);
            } else {
                assert(r1[k - 1] == x);
                assert(r1.contains(x));
                if x != p {
                    let j = choose|j: int| 0 <= j < t1.len() && t1[j] == x;
                    assert(t[j + 1] == x);
                }
            }
        }
    }
}

pub(crate) proof fn lemma_sort_sorted(e: Seq<EntryBytes>)
    requires
        forall|a: int, c: int| 0 <= a < c < e.len() ==> (#[trigger] e[a]).0 != (#[trigger] e[c]).0,
    ensures
        strictly_sorted(sort_entries(e)),
        forall|x: EntryBytes| #[trigger] sort_entries(e).contains(x) ==> e.contains(x),
    decreases e.len(),
{
    if e.len() > 0 {
        let e1 = e.drop_last();
        assert forall|a: int, c: int| 0 <= a < c < e1.len() implies (#[trigger] e1[a]).0 != (#[trigger] e1[c]).0 by {
            assert(e1[a] == e[a] && e1[c] == e[c]);
        }
        lemma_sort_sorted(e1);
        let t = sort_entries(e1);
        let p = e.last();
        assert forall|k: int| 0 <= k < t.len() implies (#[trigger] t[k]).0 != p.0 by {
            assert(t.contains(t[k]));
            let j = choose|j: int| 0 <= j < e1.len() && e1[j] == t[k];
            assert(e[j] == t[k]);
        }
        lemma_insert_sorted(t, p);
        assert forall|x: EntryBytes| #[trigger] sort_entries(e).contains(x) implies e.contains(x) by {
            if x != p {
                assert(t.contains(x));
                let j = choose|j: int| 0 <= j < e1.len() && e1[j] == x;
                assert(e[j] == x);
            } else {
                assert(e[e.len() - 1] == x);
            }
        }
    }
}

pub(crate) proof fn lemma_key_lt_irreflexive(a: Seq<u8>)
    ensures
        !key_lt(a, a),
{
}

pub(crate) proof fn lemma_key_lt_asymmetric(a: Seq<u8>, b: Seq<u8>)
    requires
        key_lt(a, b),
    ensures
        !key_lt(b, a),
{
    if a.len() == b.len() && lex_lt(b, a) {
        let i = choose|i: int|
            0 <= i < a.len() && i < b.len() && a.subrange(0, i) == b.subrange(0, i) && a[i] < b[i];
        let j = choose|j: int|
            0 <= j < b.len() && j < a.len() && b.subrange(0, j) == a.subrange(0, j) && b[j] < a[j];
        if i < j {
            assert(b.subrange(0, j)[i] == a.subrange(0, j)[i]);
        } else if j < i {
            assert(a.subrange(0, i)[j] == b.subrange(0, i)[j]);
        }
    }
}

pub(crate) proof fn lemma_key_lt_transitive(a: Seq<u8>, b: Seq<u8>, c: Seq<u8>)
    requires
        key_lt(a, b),
        key_lt(b, c),
    ensures
        key_lt(a, c),
{
    if a.len() == b.len() && b.len() == c.len() {
        let i = choose|i: int|
            0 <= i < a.len() && i < b.len() && a.subrange(0, i) == b.subrange(0, i) && a[i] < b[i];
        let j = choose|j: int|
            0 <= j < b.len() && j < c.len() && b.subrange(0, j) == c.subrange(0, j) && b[j] < c[j];
        if i < j {
            assert(a.subrange(0, i) =~= c.subrange(0, i)) by {
                assert forall|k: int| 0 <= k < i implies a[k] == c[k] by {
                    assert(a.subrange(0, i)[k] == b.subrange(0, i)[k]);
                    assert(b.subrange(0, j)[k] == c.subrange(0, j)[k]);
                }
            }
            assert(b.subrange(0, j)[i] == c.subrange(0, j)[i]);
        } else {
            assert(a.subrange(0, j) =~= c.subrange(0, j)) by {
                assert forall|k: int| 0 <= k < j implies a[k] == c[k] by {
                    assert(a.subrange(0, i)[k] == b.subrange(0, i)[k]);
                    assert(b.subrange(0, j)[k] == c.subrange(0, j)[k]);
                }
            }
            if j < i {
                assert(a.subrange(0, i)[j] == b.subrange(0, i)[j]);
            }
        }
    }
}

pub(crate) proof fn lemma_sorted_identity(ps: Seq<EntryBytes>)
    requires
        strictly_sorted(ps),
    ensures
        sort_entries(ps) == ps,
    decreases ps.len(),
{
    if ps.len() > 0 {
        let t = ps.drop_last();
        assert(strictly_sorted(t)) by {
            assert forall|a: int, c: int| 0 <= a < c < t.len() implies key_lt(
                #[trigger] t[a].0,
                #[trigger] t[c].0,
            ) by {
                assert(t[a] == ps[a] && t[c] == ps[c]);
            }
        }
        lemma_sorted_identity(t);
        let p = ps.last();
        assert forall|k: int| 0 <= k < t.len() implies !key_lt(p.0, #[trigger] t[k].0) by {
            assert(t[k] == ps[k]);
            assert(key_lt(ps[k].0, ps[ps.len() - 1].0));
            lemma_key_lt_asymmetric(t[k].0, p.0);
        }
        lemma_insert_entry_at(t, p, t.len() as int);
        assert(t.insert(t.len() as int, p) =~= ps);
    }
}

pub(crate) proof fn lemma_insert_contains(t: Seq<EntryBytes>, p: EntryBytes)
    ensures
        insert_entry(t, p).contains(p),
        forall|x: EntryBytes| t.contains(x) ==> #[trigger] insert_entry(t, p).contains(x),
    decreases t.len(),
{
    let r = insert_entry(t, p);
    if t.len() == 0 {
        assert(r[0] == p);
    } else if key_lt(p.0, t[0].0) {
        assert(r == seq![p] + t);
        assert(r[0] == p);
        assert forall|x: EntryBytes| t.contains(x) implies #[trigger] r.contains(x) by {
            let k = choose|k: int| 0 <= k < t.len() && t[k] == x;
            assert(r[k + 1] == x);
        }
    } else {
        let t1 = t.drop_first();
        lemma_insert_contains(t1, p);
        let r1 = insert_entry(t1, p);
        assert(r == seq![t[0]] + r1);
        let j = choose|j: int| 0 <= j < r1.len() && r1[j] == p;
        assert(r[j + 1] == p);
        assert forall|x: EntryBytes| t.contains(x) implies #[trigger] r.contains(x) by {
            let k = choose|k: int| 0 <= k < t.len() && t[k] == x;
            if k == 0 {
                assert(r[0] == x);
            } else {
                assert(t1[k - 1] == x);
                assert(t1.contains(x));
                assert(r1.contains(x));
                let i = choose|i: int| 0 <= i < r1.len() && r1[i] == x;
                assert(r[i + 1] == x);
            }
        }
    }
}

pub(crate) proof fn lemma_sort_contains(e: Seq<EntryBytes>)
    ensures
        forall|x: EntryBytes| e.contains(x) ==> #[trigger] sort_entries(e).contains(x),
    decreases e.len(),
{
    if e.len() > 0 {
        let e1 = e.drop_last();
        lemma_sort_contains(e1);
        lemma_insert_contains(sort_entries(e1), e.last());
        assert forall|x: EntryBytes| e.contains(x) implies #[trigger] sort_entries(e).contains(x) by {
            let k = choose|k: int| 0 <= k < e.len() && e[k] == x;
            if k < e.len() - 1 {
                assert(e1[k] == x);
                assert(e1.contains(x));
            }
        }
    }
}

pub(crate) proof fn lemma_sorted_unique(a: Seq<EntryBytes>, b: Seq<EntryBytes>)
    requires
        strictly_sorted(a),
        strictly_sorted(b),
        forall|x: EntryBytes| #![trigger a.contains(x)] #![trigger b.contains(x)] a.contains(x) <==> b.contains(x),
    ensures
        a == b,
    decreases a.len(),
{
    if a.len() == 0 {
        if b.len() > 0 {
            assert(b.contains(b[0]));
            assert(a.contains(b[0]));
        }
        assert(a =~= b);
    } else {
        assert(a.contains(a[0]));
        assert(b.len() > 0);
        assert(b.contains(b[0]));
        assert(a.contains(b[0]));
        assert(b.contains(a[0]));
        let j = choose|j: int| 0 <= j < b.len() && b[j] == a[0];
        let k = choose|k: int| 0 <= k < a.len() && a[k] == b[0];
        if j > 0 {
            assert(key_lt(b[0].0, b[j].0));
            if k > 0 {
                assert(key_lt(a[0].0, a[k].0));
                lemma_key_lt_asymmetric(b[0].0, a[0].0);
            } else {
                lemma_key_lt_irreflexive(a[0].0);
            }
        }
        assert(a[0] == b[0]);
        let a1 = a.drop_first();
        let b1 = b.drop_first();
        assert forall|x: EntryBytes| #![trigger a1.contains(x)] #![trigger b1.contains(x)] a1.contains(x) <==> b1.contains(x) by {
            if a1.contains(x) {
                let i = choose|i: int| 0 <= i < a1.len() && a1[i] == x;
                assert(a[i + 1] == x);
                assert(a.contains(x));
                let i2 = choose|i2: int| 0 <= i2 < b.len() && b[i2] == x;
                if i2 == 0 {
                    assert(key_lt(a[0].0, a[i + 1].0));
                    lemma_key_lt_irreflexive(a[0].0);
                }
                assert(b1[i2 - 1] == x);
            }
            if b1.contains(x) {
                let i = choose|i: int| 0 <= i < b1.len() && b1[i] == x;
                assert(b[i + 1] == x);
                assert(b.contains(x));
                let i2 = choose|i2: int| 0 <= i2 < a.len() && a[i2] == x;
                if i2 == 0 {
                    assert(key_lt(b[0].0, b[i + 1].0));
                    lemma_key_lt_irreflexive(b[0].0);
                }
                assert(a1[i2 - 1] == x);
            }
        }
        assert forall|p: int, c: int| 0 <= p < c < a1.len() implies key_lt(#[trigger] a1[p].0, #[trigger] a1[c].0) by {
            assert(a1[p] == a[p + 1] && a1[c] == a[c + 1]);
        }
        assert forall|p: int, c: int| 0 <= p < c < b1.len() implies key_lt(#[trigger] b1[p].0, #[trigger] b1[c].0) by {
            assert(b1[p] == b[p + 1] && b1[c] == b[c + 1]);
        }
        lemma_sorted_unique(a1, b1);
        assert(a =~= seq![a[0]] + a1);
        assert(b =~= seq![b[0]] + b1);
    }
}

} // verus!
