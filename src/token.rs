//! The byte form of a CBOR item head: a major type and an argument written
//! in the shortest form that holds it.

use vstd::prelude::*;

verus! {

/// The last `k` bytes of `n` in big-endian order.
pub open spec fn be_bytes(n: nat, k: nat) -> Seq<u8>
    decreases k,
{
    if k == 0 {
        Seq::empty()
    } else {
        be_bytes(n / 256, (k - 1) as nat).push((n % 256) as u8)
    }
}

/// The big-endian number that the bytes `s` spell.
pub open spec fn from_be(s: Seq<u8>) -> nat
    decreases s.len(),
{
    if s.len() == 0 {
        0
    } else {
        (from_be(s.drop_last()) * 256 + s.last()) as nat
    }
}

/// The canonical head of an item of major type `major` with argument `n`:
/// the argument stands in the initial byte when it is under 24, else in the
/// fewest of 1, 2, 4 or 8 following bytes that hold it.
pub open spec fn head(major: u8, n: nat) -> Seq<u8> {
    let m = major as int * 32;
    if n < 24 {
        seq![(m + n) as u8]
    } else if n < 0x100 {
        seq![(m + 24) as u8] + be_bytes(n, 1)
    } else if n < 0x1_0000 {
        seq![(m + 25) as u8] + be_bytes(n, 2)
    } else if n < 0x1_0000_0000 {
        seq![(m + 26) as u8] + be_bytes(n, 4)
    } else {
        seq![(m + 27) as u8] + be_bytes(n, 8)
    }
}

/// Appends the last `k` bytes of `n`, most significant first.
pub fn push_be(out: &mut Vec<u8>, n: u64, k: usize)
    requires
        k <= 8,
    ensures
        final(out)@ == old(out)@ + be_bytes(n as nat, k as nat),
    decreases k,
{
    if k > 0 {
        push_be(out, n / 256, k - 1);
        out.push((n % 256) as u8);
    }
    assert(final(out)@ =~= old(out)@ + be_bytes(n as nat, k as nat));
}

/// Appends the canonical head of major type `major` with argument `n`.
pub fn push_head(out: &mut Vec<u8>, major: u8, n: u64)
    requires
        major < 8,
    ensures
        final(out)@ == old(out)@ + head(major, n as nat),
{
    let m: u8 = major * 32;
    if n < 24 {
        out.push(m + n as u8);
    } else if n < 0x100 {
        out.push(m + 24);
        push_be(out, n, 1);
    } else if n < 0x1_0000 {
        out.push(m + 25);
        push_be(out, n, 2);
    } else if n < 0x1_0000_0000 {
        out.push(m + 26);
        push_be(out, n, 4);
    } else {
        out.push(m + 27);
        push_be(out, n, 8);
    }
    assert(final(out)@ =~= old(out)@ + head(major, n as nat));
}


/// 256 to the power `k`.
pub open spec fn pow256(k: nat) -> nat
    decreases k,
{
    if k == 0 {
        1
    } else {
        256 * pow256((k - 1) as nat)
    }
}

proof fn lemma_from_be(s: Seq<u8>)
    ensures
        from_be(s) < pow256(s.len()),
        be_bytes(from_be(s), s.len()) == s,
    decreases s.len(),
{
    if s.len() > 0 {
        let t = s.drop_last();
        lemma_from_be(t);
        let x = from_be(s);
        assert(x / 256 == from_be(t));
        assert(x % 256 == s.last());
        assert(be_bytes(x, s.len()) =~= s);
    }
}

proof fn lemma_pow256_le(i: nat, k: nat)
    requires
        i <= k,
    ensures
        pow256(i) <= pow256(k),
    decreases k,
{
    if i < k {
        lemma_pow256_le(i, (k - 1) as nat);
    }
}

/// Reads the `k` bytes at `pos` as a big-endian number.
pub(crate) fn read_be(b: &[u8], pos: usize, k: usize) -> (r: u64)
    requires
        1 <= k <= 8,
        pos + k <= b.len(),
    ensures
        r == from_be(b@.subrange(pos as int, pos + k)),
        r < pow256(k as nat),
        be_bytes(r as nat, k as nat) == b@.subrange(pos as int, pos + k),
{
    proof {
        reveal_with_fuel(pow256, 9);
    }
    let mut acc: u64 = 0;
    let mut i: usize = 0;
    while i < k
        invariant
            0 <= i <= k <= 8,
            pos + k <= b.len(),
            acc == from_be(b@.subrange(pos as int, pos + i)),
            acc < pow256(i as nat),
            pow256(7) == 0x100_0000_0000_0000,
        decreases k - i,
    {
        proof {
            lemma_pow256_le(i as nat, 7);
            assert(b@.subrange(pos as int, pos + i + 1).drop_last() =~= b@.subrange(pos as int, pos + i));
        }
        acc = acc * 256 + b[pos + i] as u64;
        i += 1;
    }
    proof {
        lemma_from_be(b@.subrange(pos as int, pos + k));
    }
    acc
}

/// The big-endian bytes of a number that fits in them spell that number.
pub(crate) proof fn lemma_be_bytes_inverse(n: nat, k: nat)
    requires
        n < pow256(k),
    ensures
        be_bytes(n, k).len() == k,
        from_be(be_bytes(n, k)) == n,
    decreases k,
{
    if k > 0 {
        let p = pow256((k - 1) as nat);
        assert(n / 256 < p) by (nonlinear_arith)
            requires
                n < 256 * p,
        ;
        lemma_be_bytes_inverse(n / 256, (k - 1) as nat);
        assert(be_bytes(n, k).drop_last() =~= be_bytes(n / 256, (k - 1) as nat));
    }
}

/// `s` holds at `pos` the canonical head of major type `m` with argument `n`.
pub open spec fn head_at(s: Seq<u8>, pos: int, m: u8, n: nat) -> bool {
    &&& m < 8
    &&& n < 0x1_0000_0000_0000_0000
    &&& 0 <= pos
    &&& pos + head(m, n).len() <= s.len()
    &&& s.subrange(pos, pos + head(m, n).len()) == head(m, n)
}

/// What a head tells of its first byte, its length and its argument.
pub proof fn lemma_head_at(s: Seq<u8>, pos: int, m: u8, n: nat)
    requires
        head_at(s, pos, m, n),
    ensures
        pos < s.len(),
        s[pos] / 32 == m,
        s[pos] % 32 < 28,
        s[pos] % 32 < 24 ==> n == s[pos] % 32 && head(m, n).len() == 1,
        s[pos] % 32 == 24 ==> 24 <= n < 0x100 && head(m, n).len() == 2,
        s[pos] % 32 == 25 ==> 0x100 <= n < 0x1_0000 && head(m, n).len() == 3,
        s[pos] % 32 == 26 ==> 0x1_0000 <= n < 0x1_0000_0000 && head(m, n).len() == 5,
        s[pos] % 32 == 27 ==> 0x1_0000_0000 <= n && head(m, n).len() == 9,
        s[pos] % 32 >= 24 ==> from_be(s.subrange(pos + 1, pos + head(m, n).len())) == n,
{
    reveal_with_fuel(pow256, 9);
    let h = head(m, n);
    assert(s[pos] == h[0]);
    let k: nat = if n < 24 {
        0
    } else if n < 0x100 {
        1
    } else if n < 0x1_0000 {
        2
    } else if n < 0x1_0000_0000 {
        4
    } else {
        8
    };
    if k > 0 {
        lemma_be_bytes_inverse(n, k);
        assert(s.subrange(pos + 1, pos + h.len()) =~= h.subrange(1, h.len() as int));
        assert(h.subrange(1, h.len() as int) =~= be_bytes(n, k));
    }
}

/// The number of argument bytes that additional information `info`
/// (24 to 27) announces.
pub open spec fn arg_width(info: int) -> int {
    if info == 24 {
        1
    } else if info == 25 {
        2
    } else if info == 26 {
        4
    } else {
        8
    }
}

/// The least argument that may be written with additional information
/// `info` (24 to 27): anything smaller has a shorter form.
pub open spec fn arg_min(info: int) -> int {
    if info == 24 {
        24
    } else if info == 25 {
        0x100
    } else if info == 26 {
        0x1_0000
    } else {
        0x1_0000_0000
    }
}

/// The head at `pos` is not canonical: its additional information is 28 to
/// 31 (reserved, or an indefinite length), or its argument, all present,
/// would fit a shorter form.
pub open spec fn head_fault_at(s: Seq<u8>, pos: int) -> bool {
    &&& 0 <= pos < s.len()
    &&& {
        let info = s[pos] % 32;
        ||| info >= 28
        ||| (24 <= info <= 27 && pos + 1 + arg_width(info as int) <= s.len() && from_be(
            s.subrange(pos + 1, pos + 1 + arg_width(info as int)),
        ) < arg_min(info as int))
    }
}

/// Why a byte sequence does not decode.
#[derive(Clone, Copy, Debug, PartialEq, Eq, Structural)]
pub enum DecodeError {
    /// The input ended inside an item.
    UnexpectedEof,
    /// The item at this offset is not canonical DAG-CBOR.
    Malformed(usize),
    /// The link at this offset does not hold a content identifier.
    InvalidLink(usize),
    /// Bytes follow the top-level item from this offset on.
    TrailingBytes(usize),
}

/// Reads the head at `pos`: its major type, its argument, and where it ends.
/// A head whose argument is not in its shortest form is refused.
pub fn read_head(b: &[u8], pos: usize) -> (r: Result<(u8, u64, usize), DecodeError>)
    requires
        pos <= b.len(),
    ensures
        r matches Ok((major, n, end)) ==> {
            &&& major < 8
            &&& pos < end <= b.len()
            &&& b@.subrange(pos as int, end as int) == head(major, n as nat)
        },
        forall|m: u8, n: nat|
            #[trigger] head_at(b@, pos as int, m, n) ==> r == Ok::<(u8, u64, usize), DecodeError>(
                (m, n as u64, (pos + head(m, n).len()) as usize),
            ),
        r matches Err(e) ==> e == DecodeError::UnexpectedEof || e == DecodeError::Malformed(pos),
        head_fault_at(b@, pos as int) ==> r == Err::<(u8, u64, usize), DecodeError>(
            DecodeError::Malformed(pos),
        ),
{
    if pos >= b.len() {
        proof {
            assert forall|m: u8, n: nat| #[trigger] head_at(b@, pos as int, m, n) implies false by {
                lemma_head_at(b@, pos as int, m, n);
            }
        }
        return Err(DecodeError::UnexpectedEof);
    }
    let ib: u8 = b[pos];
    let major: u8 = ib / 32;
    let info: u8 = ib % 32;
    let k: usize;
    let min: u64;
    if info < 24 {
        assert(b@.subrange(pos as int, pos + 1) =~= head(major, info as nat));
        proof {
            assert forall|m: u8, n: nat| #[trigger] head_at(b@, pos as int, m, n) implies m == major
                && n == info && head(m, n).len() == 1 by {
                lemma_head_at(b@, pos as int, m, n);
            }
        }
        return Ok((major, info as u64, pos + 1));
    } else if info == 24 {
        k = 1;
        min = 24;
    } else if info == 25 {
        k = 2;
        min = 0x100;
    } else if info == 26 {
        k = 4;
        min = 0x1_0000;
    } else if info == 27 {
        k = 8;
        min = 0x1_0000_0000;
    } else {
        proof {
            assert forall|m: u8, n: nat| #[trigger] head_at(b@, pos as int, m, n) implies false by {
                lemma_head_at(b@, pos as int, m, n);
            }
        }
        return Err(DecodeError::Malformed(pos));
    }
    if b.len() - (pos + 1) < k {
        proof {
            assert forall|m: u8, n: nat| #[trigger] head_at(b@, pos as int, m, n) implies false by {
                lemma_head_at(b@, pos as int, m, n);
            }
        }
        return Err(DecodeError::UnexpectedEof);
    }
    let n = read_be(b, pos + 1, k);
    proof {
        assert forall|m: u8, w: nat| #[trigger] head_at(b@, pos as int, m, w) implies m == major
            && w == n && head(m, w).len() == k + 1 && w >= min by {
            lemma_head_at(b@, pos as int, m, w);
        }
    }
    if n < min {
        return Err(DecodeError::Malformed(pos));
    }
    proof {
        reveal_with_fuel(pow256, 9);
        assert(b@.subrange(pos as int, pos + 1 + k) =~= seq![ib] + b@.subrange(pos + 1, pos + 1 + k));
    }
    Ok((major, n, pos + 1 + k))
}

} // verus!
