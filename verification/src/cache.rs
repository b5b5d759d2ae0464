//! The byte formats of the durable entry cache.
//!
//! A database holds the entries of exactly one CT log. The key of entry
//! `index` is a kind byte (1, leaving room for schema evolution) followed by
//! the index in big-endian, so that the byte-lexicographic key order is the
//! index order. The value is the length-prefixed pair of the raw
//! `leaf_input` and `extra_data` bytes, exactly as the log returned them.

use vstd::prelude::*;

use crate::encoding::{
    be_bytes, be_val, lex_less, pow256, push_be_bytes, lemma_be_bytes_len,
    lemma_be_bytes_order, lemma_be_val_of_be_bytes,
};
use crate::errors::Error;

verus! {

/// A raw CT entry: the exact bytes the log returned, before any
/// interpretation.
pub struct RawCtEntry {
    pub leaf_input: Vec<u8>,
    pub extra_data: Vec<u8>,
}

/// Spec-level shape of [`RawCtEntry`].
pub struct RawCtEntryV {
    pub leaf_input: Seq<u8>,
    pub extra_data: Seq<u8>,
}

impl View for RawCtEntry {
    type V = RawCtEntryV;

    open spec fn view(&self) -> RawCtEntryV {
        RawCtEntryV { leaf_input: self.leaf_input@, extra_data: self.extra_data@ }
    }
}

/// The cache key of entry `index`: the kind byte, then the index.
pub open spec fn spec_cache_key(index: u64) -> Seq<u8> {
    seq![1u8] + be_bytes(index as nat, 8)
}

/// Builds the 9-byte cache key of entry `index`.
pub fn cache_key(index: u64) -> (r: Vec<u8>)
    ensures
        r@ == spec_cache_key(index),
        r@.len() == 9,
{
    let mut out: Vec<u8> = Vec::new();
    out.push(1u8);
    push_be_bytes(&mut out, index, 8);
    proof {
        lemma_be_bytes_len(index as nat, 8);
        assert(out@ =~= spec_cache_key(index));
    }
    out
}

/// The cache value holding a raw entry: the `u64` length and bytes of
/// `leaf_input`, then the same for `extra_data`.
pub open spec fn spec_cache_value(leaf: Seq<u8>, extra: Seq<u8>) -> Seq<u8> {
    be_bytes(leaf.len(), 8) + leaf + be_bytes(extra.len(), 8) + extra
}

/// Encodes a raw entry as a cache value.
pub fn encode_cache_value(entry: &RawCtEntry) -> (r: Vec<u8>)
    requires
        entry.leaf_input@.len() + entry.extra_data@.len() + 16 <= usize::MAX,
    ensures
        r@ == spec_cache_value(entry.leaf_input@, entry.extra_data@),
{
    let mut out: Vec<u8> = Vec::new();
    push_be_bytes(&mut out, entry.leaf_input.len() as u64, 8);
    crate::encoding::append_bytes(&mut out, entry.leaf_input.as_slice());
    push_be_bytes(&mut out, entry.extra_data.len() as u64, 8);
    crate::encoding::append_bytes(&mut out, entry.extra_data.as_slice());
    proof {
        assert(out@ =~= spec_cache_value(entry.leaf_input@, entry.extra_data@));
    }
    out
}

/// The reference reading of a cache value. Trailing bytes after the pair
/// are tolerated: the value is the outermost boundary of this format.
pub open spec fn spec_decode_cache_value(s: Seq<u8>) -> Result<RawCtEntryV, Error> {
    if s.len() < 8 {
        Err(Error::Truncated)
    } else {
        let ll = be_val(s.subrange(0, 8));
        if 8 + ll > s.len() {
            Err(Error::Truncated)
        } else {
            let p = (8 + ll) as int;
            if p + 8 > s.len() {
                Err(Error::Truncated)
            } else {
                let el = be_val(s.subrange(p, p + 8));
                if p + 8 + el > s.len() {
                    Err(Error::Truncated)
                } else {
                    Ok(
                        RawCtEntryV {
                            leaf_input: s.subrange(8, p),
                            extra_data: s.subrange(p + 8, (p + 8 + el) as int),
                        },
                    )
                }
            }
        }
    }
}

/// Decodes a cache value back into a raw entry. Returns exactly what
/// [`spec_decode_cache_value`] denotes on the input.
pub fn decode_cache_value(buf: &[u8]) -> (r: Result<RawCtEntry, Error>)
    ensures
        ({
            let sp = spec_decode_cache_value(buf@);
            match r {
                Ok(entry) => sp == Ok::<RawCtEntryV, Error>(entry@),
                Err(e) => sp == Err::<RawCtEntryV, Error>(e),
            }
        }),
{
    let len = buf.len();
    if len < 8 {
        return Err(Error::Truncated);
    }
    let ll = crate::encoding::read_be(buf, 0, 8);
    if ll > (len - 8) as u64 {
        return Err(Error::Truncated);
    }
    let ll_us = ll as usize;
    let p = 8 + ll_us;
    if len - p < 8 {
        return Err(Error::Truncated);
    }
    let el = crate::encoding::read_be(buf, p, 8);
    if el > (len - p - 8) as u64 {
        return Err(Error::Truncated);
    }
    let el_us = el as usize;
    let leaf_input = read_value_bytes(buf, 8, ll_us);
    let extra_data = read_value_bytes(buf, p + 8, el_us);
    Ok(RawCtEntry { leaf_input, extra_data })
}

/// Reads the `n` bytes at `pos` into a fresh buffer.
fn read_value_bytes(buf: &[u8], pos: usize, n: usize) -> (r: Vec<u8>)
    requires
        pos + n <= buf@.len(),
    ensures
        r@ == buf@.subrange(pos as int, pos + n),
{
    let buf_len = buf.len();
    let mut out: Vec<u8> = Vec::new();
    let mut i: usize = 0;
    while i < n
        invariant
            pos + n <= buf@.len(),
            buf_len == buf@.len(),
            i <= n,
            out@ == buf@.subrange(pos as int, pos + i),
        decreases n - i,
    {
        out.push(buf[pos + i]);
        proof {
            assert(out@ =~= buf@.subrange(pos as int, pos + i + 1));
        }
        i = i + 1;
    }
    out
}

/// Cache round trip: decoding an encoded value gives the raw entry back,
/// byte for byte.
pub proof fn lemma_cache_value_round_trip(leaf: Seq<u8>, extra: Seq<u8>)
    requires
        leaf.len() < pow256(8),
        extra.len() < pow256(8),
    ensures
        spec_decode_cache_value(spec_cache_value(leaf, extra)) == Ok::<RawCtEntryV, Error>(
            RawCtEntryV { leaf_input: leaf, extra_data: extra },
        ),
{
    let s = spec_cache_value(leaf, extra);
    lemma_be_bytes_len(leaf.len(), 8);
    lemma_be_bytes_len(extra.len(), 8);
    lemma_be_val_of_be_bytes(leaf.len(), 8);
    lemma_be_val_of_be_bytes(extra.len(), 8);
    assert(s.subrange(0, 8) =~= be_bytes(leaf.len(), 8));
    let p = 8 + leaf.len() as int;
    assert(s.subrange(p, p + 8) =~= be_bytes(extra.len(), 8));
    assert(s.subrange(8, p) =~= leaf);
    assert(s.subrange(p + 8, p + 8 + extra.len() as int) =~= extra);
}

/// Key order is index order: the key of a smaller index comes first in
/// byte-lexicographic order, so a store that walks its keys in that
/// order walks the entries by index.
pub proof fn lemma_cache_key_order(i: u64, j: u64)
    requires
        i < j,
    ensures
        lex_less(spec_cache_key(i), spec_cache_key(j)),
{
    assert(pow256(8) == 0x10000000000000000) by {
        reveal_with_fuel(pow256, 9);
    }
    lemma_be_bytes_order(i as nat, j as nat, 8);
    lemma_be_bytes_len(i as nat, 8);
    lemma_be_bytes_len(j as nat, 8);
    let a = be_bytes(i as nat, 8);
    let b = be_bytes(j as nat, 8);
    let k = choose|k: int|
        #![trigger a[k], b[k]]
        {
            &&& 0 <= k < a.len()
            &&& k < b.len()
            &&& a[k] < b[k]
            &&& forall|m: int| 0 <= m < k ==> a[m] == b[m]
        };
    let ka = spec_cache_key(i);
    let kb = spec_cache_key(j);
    assert(ka[k + 1] == a[k] && kb[k + 1] == b[k]);
    assert(forall|m: int| 0 <= m < k + 1 ==> ka[m] == kb[m]);
}

} // verus!
