//! Big-endian integers on byte strings, and lowercase hex.
//!
//! Every multi-byte integer of the wire formats in this crate is big-endian;
//! `be_val` and `be_bytes` are the two directions of that correspondence and
//! are proved inverse to each other below.

use vstd::prelude::*;

verus! {

/// `256^w`.
pub open spec fn pow256(w: nat) -> nat
    decreases w,
{
    if w == 0 {
        1
    } else {
        256 * pow256((w - 1) as nat)
    }
}

/// The value of a byte string read as a big-endian integer.
pub open spec fn be_val(s: Seq<u8>) -> nat
    decreases s.len(),
{
    if s.len() == 0 {
        0
    } else {
        be_val(s.drop_last()) * 256 + s.last() as nat
    }
}

/// The `w`-byte big-endian encoding of `v mod 256^w`, most significant first.
pub open spec fn be_bytes(v: nat, w: nat) -> Seq<u8>
    decreases w,
{
    if w == 0 {
        Seq::empty()
    } else {
        be_bytes(v / 256, (w - 1) as nat).push((v % 256) as u8)
    }
}

pub proof fn lemma_pow256_pos(w: nat)
    ensures
        pow256(w) >= 1,
    decreases w,
{
    if w > 0 {
        lemma_pow256_pos((w - 1) as nat);
    }
}

pub proof fn lemma_pow256_increases(i: nat, j: nat)
    requires
        i <= j,
    ensures
        pow256(i) <= pow256(j),
    decreases j,
{
    if i < j {
        lemma_pow256_increases(i, (j - 1) as nat);
        lemma_pow256_pos((j - 1) as nat);
    }
}

pub proof fn lemma_be_bytes_len(v: nat, w: nat)
    ensures
        be_bytes(v, w).len() == w,
    decreases w,
{
    if w > 0 {
        lemma_be_bytes_len(v / 256, (w - 1) as nat);
    }
}

/// A `w`-byte string holds a value below `256^w`.
pub proof fn lemma_be_val_bound(s: Seq<u8>)
    ensures
        be_val(s) < pow256(s.len()),
    decreases s.len(),
{
    if s.len() > 0 {
        lemma_be_val_bound(s.drop_last());
    }
}

/// Decoding after encoding gives the value back (when it fits the width).
pub proof fn lemma_be_val_of_be_bytes(v: nat, w: nat)
    requires
        v < pow256(w),
    ensures
        be_val(be_bytes(v, w)) == v,
    decreases w,
{
    if w > 0 {
        assert(v / 256 < pow256((w - 1) as nat)) by (nonlinear_arith)
            requires
                v < 256 * pow256((w - 1) as nat),
        ;
        lemma_be_val_of_be_bytes(v / 256, (w - 1) as nat);
        lemma_be_bytes_len(v / 256, (w - 1) as nat);
        assert(be_bytes(v, w).drop_last() =~= be_bytes(v / 256, (w - 1) as nat));
    }
}

/// Encoding after decoding gives the byte string back.
pub proof fn lemma_be_bytes_of_be_val(s: Seq<u8>)
    ensures
        be_bytes(be_val(s), s.len()) == s,
    decreases s.len(),
{
    if s.len() > 0 {
        lemma_be_bytes_of_be_val(s.drop_last());
        let a = be_val(s.drop_last());
        let b = s.last();
        assert(be_val(s) / 256 == a && be_val(s) % 256 == b) by (nonlinear_arith)
            requires
                be_val(s) == a * 256 + b,
                0 <= b < 256,
                a >= 0,
        ;
        assert(be_bytes(be_val(s), s.len()) =~= s);
    }
}

/// Reads the `n` bytes at `pos` as a big-endian integer (`n <= 8`).
pub fn read_be(buf: &[u8], pos: usize, n: usize) -> (r: u64)
    requires
        n <= 8,
        pos + n <= buf@.len(),
    ensures
        r == be_val(buf@.subrange(pos as int, pos + n)),
{
    let buf_len: usize = buf.len();
    let mut acc: u64 = 0;
    let mut i: usize = 0;
    while i < n
        invariant
            n <= 8,
            buf_len == buf@.len(),
            pos + n <= buf@.len(),
            i <= n,
            acc == be_val(buf@.subrange(pos as int, pos + i)),
            acc < pow256(i as nat),
        decreases n - i,
    {
        proof {
            lemma_pow256_increases(i as nat, 7);
            assert(pow256(7) == 0x100000000000000) by {
                reveal_with_fuel(pow256, 8);
            }
        }
        let b = buf[pos + i];
        acc = acc * 256 + (b as u64);
        proof {
            assert(buf@.subrange(pos as int, pos + i + 1).drop_last() =~= buf@.subrange(
                pos as int,
                pos + i,
            ));
        }
        i = i + 1;
    }
    acc
}

/// Appends the `w`-byte big-endian encoding of `v` to `out`.
pub fn push_be_bytes(out: &mut Vec<u8>, v: u64, w: u8)
    requires
        w <= 8,
        old(out)@.len() + w <= usize::MAX,
    ensures
        final(out)@ == old(out)@ + be_bytes(v as nat, w as nat),
        final(out)@.len() == old(out)@.len() + w,
    decreases w,
{
    if w > 0 {
        push_be_bytes(out, v / 256, w - 1);
        out.push((v % 256) as u8);
        proof {
            assert(v as nat % 256 == (v % 256) as nat);
            assert(final(out)@ =~= old(out)@ + be_bytes(v as nat, w as nat));
        }
    } else {
        proof {
            assert(final(out)@ =~= old(out)@ + be_bytes(v as nat, 0));
        }
    }
}

/// Appends a copy of `bytes` to `out`.
pub fn append_bytes(out: &mut Vec<u8>, bytes: &[u8])
    requires
        old(out)@.len() + bytes@.len() <= usize::MAX,
    ensures
        final(out)@ == old(out)@ + bytes@,
{
    let n = bytes.len();
    let mut i: usize = 0;
    while i < n
        invariant
            n == bytes@.len(),
            i <= n,
            out@ == old(out)@ + bytes@.subrange(0, i as int),
        decreases n - i,
    {
        out.push(bytes[i]);
        proof {
            assert(out@ =~= old(out)@ + bytes@.subrange(0, i + 1));
        }
        i = i + 1;
    }
    proof {
        assert(old(out)@ + bytes@.subrange(0, n as int) =~= old(out)@ + bytes@);
    }
}

/// Whether `a` comes strictly before `b` in byte-lexicographic order:
/// some position holds a smaller byte in `a` while everything before it
/// is equal.
pub open spec fn lex_less(a: Seq<u8>, b: Seq<u8>) -> bool {
    exists|k: int|
        #![trigger a[k], b[k]]
        {
            &&& 0 <= k < a.len()
            &&& k < b.len()
            &&& a[k] < b[k]
            &&& forall|m: int| 0 <= m < k ==> a[m] == b[m]
        }
}

/// Big-endian encoding preserves order: of two values that fit the
/// width, the smaller one encodes to the lexicographically smaller byte
/// string.
pub proof fn lemma_be_bytes_order(v1: nat, v2: nat, w: nat)
    requires
        v1 < v2,
        v2 < pow256(w),
    ensures
        lex_less(be_bytes(v1, w), be_bytes(v2, w)),
    decreases w,
{
    let a = be_bytes(v1, w);
    let b = be_bytes(v2, w);
    lemma_be_bytes_len(v1, w);
    lemma_be_bytes_len(v2, w);
    if w == 0 {
        // nothing is below 1, so the premises are impossible
    } else {
        let p1 = be_bytes(v1 / 256, (w - 1) as nat);
        let p2 = be_bytes(v2 / 256, (w - 1) as nat);
        lemma_be_bytes_len(v1 / 256, (w - 1) as nat);
        lemma_be_bytes_len(v2 / 256, (w - 1) as nat);
        if v1 / 256 == v2 / 256 {
            assert(v1 % 256 < v2 % 256) by (nonlinear_arith)
                requires
                    v1 < v2,
                    v1 / 256 == v2 / 256,
                    v1 == 256 * (v1 / 256) + v1 % 256,
                    v2 == 256 * (v2 / 256) + v2 % 256,
            ;
            assert(p1 =~= p2);
            let k = w - 1;
            assert(a[k] == (v1 % 256) as u8 && b[k] == (v2 % 256) as u8);
            assert(forall|m: int| 0 <= m < k ==> a[m] == b[m]);
        } else {
            assert(v1 / 256 < v2 / 256) by (nonlinear_arith)
                requires
                    v1 < v2,
                    v1 / 256 != v2 / 256,
                    v1 == 256 * (v1 / 256) + v1 % 256,
                    v2 == 256 * (v2 / 256) + v2 % 256,
                    0 <= v1 % 256 < 256,
                    0 <= v2 % 256 < 256,
            ;
            assert(v2 / 256 < pow256((w - 1) as nat)) by (nonlinear_arith)
                requires
                    v2 < 256 * pow256((w - 1) as nat),
            ;
            lemma_be_bytes_order(v1 / 256, v2 / 256, (w - 1) as nat);
            let k = choose|k: int|
                #![trigger p1[k], p2[k]]
                {
                    &&& 0 <= k < p1.len()
                    &&& k < p2.len()
                    &&& p1[k] < p2[k]
                    &&& forall|m: int| 0 <= m < k ==> p1[m] == p2[m]
                };
            assert(a[k] == p1[k] && b[k] == p2[k]);
            assert(forall|m: int| 0 <= m < k ==> a[m] == b[m]);
        }
    }
}

/// A nibble as a lowercase hex character code.
pub open spec fn hex_digit(n: u8) -> u8
    recommends
        n < 16,
{
    if n < 10 {
        (48 + n) as u8
    } else {
        (87 + n) as u8
    }
}

/// The lowercase hex expansion of a byte string, two digits per byte.
pub open spec fn hex_bytes(s: Seq<u8>) -> Seq<u8>
    decreases s.len(),
{
    if s.len() == 0 {
        Seq::empty()
    } else {
        hex_bytes(s.drop_last()) + seq![
            hex_digit(s.last() / 16),
            hex_digit(s.last() % 16),
        ]
    }
}

fn hex_digit_of(n: u8) -> (r: u8)
    requires
        n < 16,
    ensures
        r == hex_digit(n),
{
    if n < 10 {
        48 + n
    } else {
        87 + n
    }
}

/// The lowercase hex expansion of a byte string, as ASCII bytes.
pub fn hex_lower(bytes: &[u8]) -> (r: Vec<u8>)
    requires
        2 * bytes@.len() <= usize::MAX,
    ensures
        r@ == hex_bytes(bytes@),
{
    let mut out: Vec<u8> = Vec::new();
    let mut i: usize = 0;
    while i < bytes.len()
        invariant
            2 * bytes@.len() <= usize::MAX,
            i <= bytes@.len(),
            out@ == hex_bytes(bytes@.take(i as int)),
            out@.len() == 2 * i,
        decreases bytes@.len() - i,
    {
        let b = bytes[i];
        out.push(hex_digit_of(b / 16));
        out.push(hex_digit_of(b % 16));
        proof {
            assert(bytes@.take(i + 1).drop_last() =~= bytes@.take(i as int));
            assert(out@ =~= hex_bytes(bytes@.take(i + 1)));
        }
        i = i + 1;
    }
    proof {
        assert(bytes@.take(bytes@.len() as int) =~= bytes@);
    }
    out
}

} // verus!
