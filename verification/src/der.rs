//! Lists the extension OIDs of an X.509 certificate, or of the bare
//! `TBSCertificate` a CT pre-certificate entry delivers.
//!
//! The descent follows the RFC 5280 layout: inside `TBSCertificate` the seven
//! leading fields (`version` through `subjectPublicKeyInfo`) are skipped
//! without being read, the optional `issuerUniqueID` / `subjectUniqueID`
//! fields (context tags `[1]`, `[2]`) are skipped by tag lookahead, and the
//! explicit `[3]` wrapper, when present, holds the `SEQUENCE OF Extension`.
//! Of each `Extension` only the `extnID` OID is decoded; the optional
//! `critical` BOOLEAN and the `extnValue` OCTET STRING are skipped.
//!
//! The spec functions in this module are the reference reading of that
//! grammar over byte sequences; each executable function returns exactly
//! what its spec function denotes.

use vstd::prelude::*;

use crate::encoding::{be_bytes, be_val, pow256, lemma_be_bytes_len, lemma_be_val_of_be_bytes};
use crate::errors::Error;
use crate::oid::Oid;

verus! {

/// A DER length at `pos` (bounded by `end`): short form below 0x80, else
/// minimally-encoded long form of at most eight length bytes. Returns the
/// content length and the position after the length bytes.
pub open spec fn spec_der_len(s: Seq<u8>, pos: int, end: int) -> Result<(nat, int), Error> {
    if pos >= end {
        Err(Error::Truncated)
    } else {
        let b = s[pos];
        if b < 0x80 {
            Ok((b as nat, pos + 1))
        } else if b == 0x80 {
            // indefinite length: not DER
            Err(Error::MalformedDer)
        } else {
            let n = b - 0x80;
            if n > 8 {
                Err(Error::MalformedDer)
            } else if pos + 1 + n > end {
                Err(Error::Truncated)
            } else if s[pos + 1] == 0 {
                // leading zero length byte: not minimal
                Err(Error::MalformedDer)
            } else {
                let v = be_val(s.subrange(pos + 1, pos + 1 + n));
                if n == 1 && v < 0x80 {
                    // long form where the short form would do: not minimal
                    Err(Error::MalformedDer)
                } else {
                    Ok((v, pos + 1 + n))
                }
            }
        }
    }
}

/// A TLV header at `pos`: a single-byte tag (multi-byte tag numbers are
/// rejected), then a DER length whose content must lie within `end`.
/// Returns the tag, the content start and the content length.
pub open spec fn spec_der_header(s: Seq<u8>, pos: int, end: int) -> Result<(u8, int, nat), Error> {
    if pos >= end {
        Err(Error::Truncated)
    } else {
        let tag = s[pos];
        if tag % 32 == 31 {
            Err(Error::MalformedDer)
        } else {
            match spec_der_len(s, pos + 1, end) {
                Err(e) => Err(e),
                Ok((l, cs)) => {
                    if cs + l > end {
                        Err(Error::Truncated)
                    } else {
                        Ok((tag, cs, l))
                    }
                },
            }
        }
    }
}

/// The position after the TLV at `pos`.
pub open spec fn spec_skip_tlv(s: Seq<u8>, pos: int, end: int) -> Result<int, Error> {
    match spec_der_header(s, pos, end) {
        Err(e) => Err(e),
        Ok((tag, cs, l)) => Ok(cs + l),
    }
}

/// The position after `n` consecutive TLVs at `pos`.
pub open spec fn spec_skip_tlvs(s: Seq<u8>, pos: int, end: int, n: nat) -> Result<int, Error>
    decreases n,
{
    if n == 0 {
        Ok(pos)
    } else {
        match spec_skip_tlv(s, pos, end) {
            Err(e) => Err(e),
            Ok(p) => spec_skip_tlvs(s, p, end, (n - 1) as nat),
        }
    }
}

/// The arcs encoded by an OID's content bytes, from `pos` on. `acc` is the
/// value of the base-128 bytes of the current arc read so far, `started`
/// says whether any byte of the current arc has been read, and `first`
/// says whether the current arc is the leading subidentifier, which
/// encodes the first two arcs together as `arc1 * 40 + arc2`.
pub open spec fn spec_oid_arcs_at(
    s: Seq<u8>,
    pos: int,
    acc: nat,
    started: bool,
    first: bool,
) -> Result<Seq<u64>, Error>
    decreases s.len() - pos,
{
    if pos < 0 || pos >= s.len() {
        if started || first {
            // a dangling continuation, or empty content
            Err(Error::MalformedDer)
        } else {
            Ok(Seq::empty())
        }
    } else {
        let b = s[pos];
        if !started && b == 0x80 {
            // a leading 0x80 byte: the arc is not minimally encoded
            Err(Error::MalformedDer)
        } else if acc * 128 + (b % 128) as nat > u64::MAX as nat {
            // the arc does not fit 64 bits
            Err(Error::MalformedDer)
        } else {
            let v = acc * 128 + (b % 128) as nat;
            if b >= 0x80 {
                spec_oid_arcs_at(s, pos + 1, v, true, first)
            } else {
                match spec_oid_arcs_at(s, pos + 1, 0, false, false) {
                    Err(e) => Err(e),
                    Ok(rest) => {
                        if first {
                            if v < 40 {
                                Ok(seq![0u64, v as u64] + rest)
                            } else if v < 80 {
                                Ok(seq![1u64, (v - 40) as u64] + rest)
                            } else {
                                Ok(seq![2u64, (v - 80) as u64] + rest)
                            }
                        } else {
                            Ok(seq![v as u64] + rest)
                        }
                    },
                }
            }
        }
    }
}

/// The arcs encoded by an OID's content bytes.
pub open spec fn spec_oid_arcs(content: Seq<u8>) -> Result<Seq<u64>, Error> {
    spec_oid_arcs_at(content, 0, 0, false, true)
}

/// One `Extension` at `pos`: `SEQUENCE { extnID OID, critical BOOLEAN
/// optional, extnValue OCTET STRING }`, nothing after the OCTET STRING.
/// Returns the extension's OID arcs and the position after the extension.
pub open spec fn spec_extension(s: Seq<u8>, pos: int, end: int) -> Result<(Seq<u64>, int), Error> {
    match spec_der_header(s, pos, end) {
        Err(e) => Err(e),
        Ok((t, cs, l)) => {
            if t != 0x30 {
                Err(Error::UnexpectedTag)
            } else {
                let ext_end = cs + l;
                match spec_der_header(s, cs, ext_end) {
                    Err(e) => Err(e),
                    Ok((t_oid, cs_oid, l_oid)) => {
                        if t_oid != 0x06 {
                            Err(Error::UnexpectedTag)
                        } else {
                            match spec_oid_arcs(s.subrange(cs_oid, cs_oid + l_oid)) {
                                Err(e) => Err(e),
                                Ok(arcs) => spec_extension_rest(s, cs_oid + l_oid, ext_end, arcs),
                            }
                        }
                    },
                }
            }
        },
    }
}

/// After an extension's OID: an optional BOOLEAN, then the value OCTET
/// STRING, which must close the extension exactly.
pub open spec fn spec_extension_rest(
    s: Seq<u8>,
    pos: int,
    ext_end: int,
    arcs: Seq<u64>,
) -> Result<(Seq<u64>, int), Error> {
    match spec_der_header(s, pos, ext_end) {
        Err(e) => Err(e),
        Ok((t, cs, l)) => {
            if t == 0x01 {
                match spec_der_header(s, cs + l, ext_end) {
                    Err(e) => Err(e),
                    Ok((t_val, cs_val, l_val)) => {
                        if t_val != 0x04 {
                            Err(Error::UnexpectedTag)
                        } else if cs_val + l_val != ext_end {
                            Err(Error::OverlongField)
                        } else {
                            Ok((arcs, ext_end))
                        }
                    },
                }
            } else if t == 0x04 {
                if cs + l != ext_end {
                    Err(Error::OverlongField)
                } else {
                    Ok((arcs, ext_end))
                }
            } else {
                Err(Error::UnexpectedTag)
            }
        },
    }
}

/// The OID arcs of each `Extension` from `pos` up to exactly `end`,
/// in encounter order.
pub open spec fn spec_extensions_from(s: Seq<u8>, pos: int, end: int) -> Result<
    Seq<Seq<u64>>,
    Error,
>
    decreases end - pos,
    via spec_extensions_from_decreases
{
    if pos >= end {
        Ok(Seq::empty())
    } else {
        match spec_extension(s, pos, end) {
            Err(e) => Err(e),
            Ok((arcs, p)) => {
                match spec_extensions_from(s, p, end) {
                    Err(e) => Err(e),
                    Ok(rest) => Ok(seq![arcs] + rest),
                }
            },
        }
    }
}

#[via_fn]
proof fn spec_extensions_from_decreases(s: Seq<u8>, pos: int, end: int) {
    if pos < end {
        lemma_extension_bounds(s, pos, end);
    }
}

/// An extension occupies at least one byte and stays within `end`.
pub proof fn lemma_extension_bounds(s: Seq<u8>, pos: int, end: int)
    ensures
        spec_extension(s, pos, end) matches Ok((arcs, p)) ==> pos < p <= end,
{
}

/// Byte-window correspondence: `s2` holds, `d` positions later, the same
/// bytes that `s1` holds between `lo` and `hi`.
pub open spec fn window_eq(s1: Seq<u8>, s2: Seq<u8>, d: int, lo: int, hi: int) -> bool {
    &&& 0 <= lo
    &&& hi <= s1.len()
    &&& 0 <= lo + d
    &&& hi + d <= s2.len()
    &&& forall|k: int| lo <= k < hi ==> s1[k] == s2[k + d]
}

proof fn lemma_der_len_shift(s1: Seq<u8>, s2: Seq<u8>, d: int, lo: int, hi: int, q: int, f: int)
    requires
        window_eq(s1, s2, d, lo, hi),
        lo <= q,
        f <= hi,
    ensures
        ({
            match spec_der_len(s1, q, f) {
                Ok((l, cs)) => spec_der_len(s2, q + d, f + d) == Ok::<(nat, int), Error>(
                    (l, cs + d),
                ),
                Err(e) => spec_der_len(s2, q + d, f + d) == Err::<(nat, int), Error>(e),
            }
        }),
{
    if q < f {
        let b = s1[q];
        if b > 0x80 {
            let n = b - 0x80;
            if n <= 8 && q + 1 + n <= f {
                assert(s1.subrange(q + 1, q + 1 + n) =~= s2.subrange(q + 1 + d, q + 1 + n + d));
            }
        }
    }
}

proof fn lemma_header_shift(s1: Seq<u8>, s2: Seq<u8>, d: int, lo: int, hi: int, q: int, f: int)
    requires
        window_eq(s1, s2, d, lo, hi),
        lo <= q,
        f <= hi,
    ensures
        ({
            match spec_der_header(s1, q, f) {
                Ok((t, cs, l)) => spec_der_header(s2, q + d, f + d) == Ok::<
                    (u8, int, nat),
                    Error,
                >((t, cs + d, l)),
                Err(e) => spec_der_header(s2, q + d, f + d) == Err::<(u8, int, nat), Error>(e),
            }
        }),
{
    if q < f {
        lemma_der_len_shift(s1, s2, d, lo, hi, q + 1, f);
    }
}

proof fn lemma_extension_shift(s1: Seq<u8>, s2: Seq<u8>, d: int, lo: int, hi: int, q: int, f: int)
    requires
        window_eq(s1, s2, d, lo, hi),
        lo <= q,
        f <= hi,
    ensures
        ({
            match spec_extension(s1, q, f) {
                Ok((o, p)) => spec_extension(s2, q + d, f + d) == Ok::<(Seq<u64>, int), Error>(
                    (o, p + d),
                ),
                Err(e) => spec_extension(s2, q + d, f + d) == Err::<(Seq<u64>, int), Error>(e),
            }
        }),
{
    lemma_header_shift(s1, s2, d, lo, hi, q, f);
    match spec_der_header(s1, q, f) {
        Err(_) => {},
        Ok((t, cs, l)) => {
            if t == 0x30 {
                let ext_end = cs + l;
                lemma_header_shift(s1, s2, d, lo, hi, cs, ext_end);
                match spec_der_header(s1, cs, ext_end) {
                    Err(_) => {},
                    Ok((t_oid, cs_oid, l_oid)) => {
                        if t_oid == 0x06 {
                            assert(s1.subrange(cs_oid, cs_oid + l_oid) =~= s2.subrange(
                                cs_oid + d,
                                cs_oid + l_oid + d,
                            ));
                            match spec_oid_arcs(s1.subrange(cs_oid, cs_oid + l_oid)) {
                                Err(_) => {},
                                Ok(arcs) => {
                                    lemma_header_shift(
                                        s1,
                                        s2,
                                        d,
                                        lo,
                                        hi,
                                        cs_oid + l_oid,
                                        ext_end,
                                    );
                                    match spec_der_header(s1, cs_oid + l_oid, ext_end) {
                                        Err(_) => {},
                                        Ok((t2, cs2, l2)) => {
                                            if t2 == 0x01 {
                                                lemma_header_shift(
                                                    s1,
                                                    s2,
                                                    d,
                                                    lo,
                                                    hi,
                                                    cs2 + l2,
                                                    ext_end,
                                                );
                                            }
                                        },
                                    }
                                },
                            }
                        }
                    },
                }
            }
        },
    }
}

proof fn lemma_extensions_from_shift(
    s1: Seq<u8>,
    s2: Seq<u8>,
    d: int,
    lo: int,
    hi: int,
    q: int,
    f: int,
)
    requires
        window_eq(s1, s2, d, lo, hi),
        lo <= q,
        f <= hi,
    ensures
        spec_extensions_from(s2, q + d, f + d) == spec_extensions_from(s1, q, f),
    decreases
            if f - q >= 0 {
                f - q
            } else {
                0
            },
{
    if q >= f {
    } else {
        lemma_extension_shift(s1, s2, d, lo, hi, q, f);
        match spec_extension(s1, q, f) {
            Err(_) => {},
            Ok((o, p)) => {
                lemma_extension_bounds(s1, q, f);
                lemma_extensions_from_shift(s1, s2, d, lo, hi, p, f);
            },
        }
    }
}

proof fn lemma_der_len_widen(s: Seq<u8>, q: int, f: int, f2: int)
    requires
        f <= f2 <= s.len(),
        spec_der_len(s, q, f) is Ok,
    ensures
        spec_der_len(s, q, f2) == spec_der_len(s, q, f),
{
}

proof fn lemma_header_widen(s: Seq<u8>, q: int, f: int, f2: int)
    requires
        f <= f2 <= s.len(),
        spec_der_header(s, q, f) is Ok,
    ensures
        spec_der_header(s, q, f2) == spec_der_header(s, q, f),
{
    if q < f {
        lemma_der_len_widen(s, q + 1, f, f2);
    }
}

proof fn lemma_extension_widen(s: Seq<u8>, q: int, f: int, f2: int)
    requires
        f <= f2 <= s.len(),
        spec_extension(s, q, f) is Ok,
    ensures
        spec_extension(s, q, f2) == spec_extension(s, q, f),
{
    lemma_header_widen(s, q, f, f2);
}

/// The first extension of `x` is also the first extension of `x + y`.
proof fn lemma_concat_first(x: Seq<u8>, y: Seq<u8>, o1: Seq<u64>, p1: int)
    requires
        x.len() > 0,
        spec_extension(x, 0, x.len() as int) == Ok::<(Seq<u64>, int), Error>((o1, p1)),
    ensures
        spec_extension(x + y, 0, (x + y).len() as int) == Ok::<(Seq<u64>, int), Error>((o1, p1)),
{
    assert(window_eq(x, x + y, 0, 0, x.len() as int));
    lemma_extension_shift(x, x + y, 0, 0, x.len() as int, 0, x.len() as int);
    lemma_extension_widen(x + y, 0, x.len() as int, (x + y).len() as int);
}

/// Reading `x + y` from `p1` on is reading `x.skip(p1) + y` from its
/// start.
proof fn lemma_concat_tail(x: Seq<u8>, y: Seq<u8>, p1: int)
    requires
        0 <= p1 <= x.len(),
    ensures
        spec_extensions_from(x + y, p1, (x + y).len() as int) == spec_extensions_from(
            x.skip(p1) + y,
            0,
            (x.skip(p1) + y).len() as int,
        ),
{
    let t = x.skip(p1) + y;
    assert(window_eq(t, x + y, p1, 0, t.len() as int)) by {
        assert forall|k: int| 0 <= k < t.len() implies t[k] == (x + y)[k + p1] by {
            if k < x.len() - p1 {
                assert(t[k] == x[k + p1]);
            } else {
                assert(t[k] == y[k - (x.len() - p1)]);
            }
        }
    }
    lemma_extensions_from_shift(t, x + y, p1, 0, t.len() as int, 0, t.len() as int);
}

/// The tail of an extension run, read as a byte string of its own.
proof fn lemma_skip_standalone(x: Seq<u8>, p1: int)
    requires
        0 <= p1 <= x.len(),
    ensures
        spec_extensions_from(x.skip(p1), 0, (x.len() - p1) as int) == spec_extensions_from(
            x,
            p1,
            x.len() as int,
        ),
{
    assert(window_eq(x, x.skip(p1), -p1, p1, x.len() as int));
    lemma_extensions_from_shift(x, x.skip(p1), -p1, p1, x.len() as int, p1, x.len() as int);
}

/// Concatenation: two byte strings that each parse as whole extension
/// sequences parse, concatenated, as the concatenation of their OID
/// lists.
pub proof fn lemma_ext_list_concat(x: Seq<u8>, y: Seq<u8>, lx: Seq<Seq<u64>>, ly: Seq<Seq<u64>>)
    requires
        spec_extensions_from(x, 0, x.len() as int) == Ok::<Seq<Seq<u64>>, Error>(lx),
        spec_extensions_from(y, 0, y.len() as int) == Ok::<Seq<Seq<u64>>, Error>(ly),
    ensures
        spec_extensions_from(x + y, 0, (x.len() + y.len()) as int) == Ok::<Seq<Seq<u64>>, Error>(
            lx + ly,
        ),
    decreases x.len(),
{
    let s = x + y;
    assert(s.len() == x.len() + y.len());
    if x.len() == 0 {
        assert(s =~= y);
        assert(lx + ly =~= ly);
    } else {
        match spec_extension(x, 0, x.len() as int) {
            Err(_) => {
                assert(false);
            },
            Ok((o1, p1)) => {
                lemma_extension_bounds(x, 0, x.len() as int);
                let lx1 = spec_extensions_from(x, p1, x.len() as int)->Ok_0;
                assert(lx == seq![o1] + lx1);
                lemma_concat_first(x, y, o1, p1);
                let x2 = x.skip(p1);
                lemma_skip_standalone(x, p1);
                lemma_ext_list_concat(x2, y, lx1, ly);
                lemma_concat_tail(x, y, p1);
                assert(spec_extensions_from(s, p1, s.len() as int) == Ok::<
                    Seq<Seq<u64>>,
                    Error,
                >(lx1 + ly));
                assert(seq![o1] + (lx1 + ly) =~= lx + ly);
            },
        }
    }
}

/// A byte string holding exactly one extension lists exactly its OID.
proof fn lemma_single_extension_list(poison: Seq<u8>, o: Seq<u64>)
    requires
        spec_extension(poison, 0, poison.len() as int) == Ok::<(Seq<u64>, int), Error>(
            (o, poison.len() as int),
        ),
    ensures
        spec_extensions_from(poison, 0, poison.len() as int) == Ok::<Seq<Seq<u64>>, Error>(
            seq![o],
        ),
{
    lemma_extension_bounds(poison, 0, poison.len() as int);
    assert(spec_extensions_from(poison, poison.len() as int, poison.len() as int) == Ok::<
        Seq<Seq<u64>>,
        Error,
    >(Seq::empty()));
    assert(seq![o] + Seq::<Seq<u64>>::empty() =~= seq![o]);
}

/// Pre-cert parity, at the level of the `SEQUENCE OF Extension` content:
/// a poison extension standing between two extension runs contributes
/// exactly its own OID, and the same content without it lists exactly the
/// other OIDs. Removing the poison extension from a pre-cert TBS
/// therefore removes exactly the poison OID from the extension list.
pub proof fn lemma_precert_parity(
    a: Seq<u8>,
    poison: Seq<u8>,
    b: Seq<u8>,
    la: Seq<Seq<u64>>,
    lb: Seq<Seq<u64>>,
    o: Seq<u64>,
)
    requires
        spec_extensions_from(a, 0, a.len() as int) == Ok::<Seq<Seq<u64>>, Error>(la),
        spec_extension(poison, 0, poison.len() as int) == Ok::<(Seq<u64>, int), Error>(
            (o, poison.len() as int),
        ),
        spec_extensions_from(b, 0, b.len() as int) == Ok::<Seq<Seq<u64>>, Error>(lb),
    ensures
        spec_extensions_from(a + poison + b, 0, (a + poison + b).len() as int) == Ok::<
            Seq<Seq<u64>>,
            Error,
        >(la + seq![o] + lb),
        spec_extensions_from(a + b, 0, (a + b).len() as int) == Ok::<Seq<Seq<u64>>, Error>(
            la + lb,
        ),
{
    lemma_single_extension_list(poison, o);
    lemma_ext_list_concat(a, poison, la, seq![o]);
    lemma_ext_list_concat(a + poison, b, la + seq![o], lb);
    assert((a + poison) + b =~= a + poison + b);
    assert((a + poison).len() + b.len() == (a + poison + b).len());
    lemma_ext_list_concat(a, b, la, lb);
}

/// The number of base-256 digits of `n`: zero for zero, else one more
/// than its quotient's.
pub open spec fn be_width(n: nat) -> nat
    decreases n,
{
    if n == 0 {
        0
    } else {
        be_width(n / 256) + 1
    }
}

proof fn lemma_be_width_le(n: nat, w: nat)
    requires
        n < pow256(w),
    ensures
        be_width(n) <= w,
    decreases w,
{
    if n > 0 {
        assert(n / 256 < pow256((w - 1) as nat)) by (nonlinear_arith)
            requires
                n < 256 * pow256((w - 1) as nat),
        ;
        lemma_be_width_le(n / 256, (w - 1) as nat);
    }
}

proof fn lemma_be_width_bounds(n: nat)
    requires
        n > 0,
    ensures
        be_width(n) >= 1,
        pow256((be_width(n) - 1) as nat) <= n < pow256(be_width(n)),
    decreases n,
{
    if n < 256 {
        assert(n / 256 == 0);
        assert(be_width(0) == 0);
        assert(pow256(0) == 1 && pow256(1) == 256) by {
            reveal_with_fuel(pow256, 2);
        }
    } else {
        let m = n / 256;
        assert(m >= 1 && m < n) by (nonlinear_arith)
            requires
                n >= 256,
                n == 256 * m + n % 256,
                0 <= n % 256 < 256,
        ;
        lemma_be_width_bounds(m);
        let wm = be_width(m);
        assert(be_width(n) == wm + 1);
        assert(pow256(wm) == 256 * pow256((wm - 1) as nat));
        assert(pow256((wm + 1) as nat) == 256 * pow256(wm));
        assert(n >= 256 * pow256((wm - 1) as nat)) by (nonlinear_arith)
            requires
                m >= pow256((wm - 1) as nat),
                n == 256 * m + n % 256,
                n % 256 >= 0,
        ;
        assert(n < 256 * pow256(wm)) by (nonlinear_arith)
            requires
                m < pow256(wm),
                n == 256 * m + n % 256,
                n % 256 < 256,
        ;
    }
}

proof fn lemma_be_bytes_first_nonzero(n: nat, w: nat)
    requires
        w >= 1,
        pow256((w - 1) as nat) <= n < pow256(w),
    ensures
        be_bytes(n, w)[0] != 0,
    decreases w,
{
    lemma_be_bytes_len(n / 256, (w - 1) as nat);
    if w == 1 {
        assert(pow256(0) == 1) by {
            reveal_with_fuel(pow256, 1);
        }
        assert(n % 256 == n);
    } else {
        assert(pow256((w - 2) as nat) <= n / 256 < pow256((w - 1) as nat)) by (nonlinear_arith)
            requires
                256 * pow256((w - 2) as nat) <= n < 256 * pow256((w - 1) as nat),
                n == 256 * (n / 256) + n % 256,
                0 <= n % 256 < 256,
        ;
        lemma_be_bytes_first_nonzero(n / 256, (w - 1) as nat);
        assert(be_bytes(n, w)[0] == be_bytes(n / 256, (w - 1) as nat)[0]);
    }
}

/// The minimal DER encoding of a length: the value itself below 0x80,
/// else a count byte and the value's base-256 digits.
pub open spec fn spec_len_bytes(n: nat) -> Seq<u8> {
    if n < 0x80 {
        seq![n as u8]
    } else {
        seq![(0x80 + be_width(n)) as u8] + be_bytes(n, be_width(n))
    }
}

/// A TLV with the given tag and content, lengths minimally encoded.
pub open spec fn spec_tlv(tag: u8, content: Seq<u8>) -> Seq<u8> {
    seq![tag] + spec_len_bytes(content.len()) + content
}

/// A constructed length at `pos` parses back to its value.
proof fn lemma_len_bytes_at(s: Seq<u8>, pos: int, n: nat, end: int)
    requires
        n < pow256(8),
        0 <= pos,
        pos + spec_len_bytes(n).len() <= end <= s.len(),
        s.subrange(pos, pos + spec_len_bytes(n).len()) == spec_len_bytes(n),
    ensures
        spec_der_len(s, pos, end) == Ok::<(nat, int), Error>(
            (n, pos + spec_len_bytes(n).len()),
        ),
{
    let lb = spec_len_bytes(n);
    if n < 0x80 {
        assert(s[pos] == lb[0]);
    } else {
        lemma_be_width_bounds(n);
        lemma_be_width_le(n, 8);
        let w = be_width(n);
        lemma_be_bytes_len(n, w);
        assert(s[pos] == lb[0]);
        assert(s[pos] == (0x80 + w) as u8);
        lemma_be_bytes_first_nonzero(n, w);
        assert(s[pos + 1] == lb[1]);
        assert(lb[1] == be_bytes(n, w)[0]);
        assert forall|k: int| 0 <= k < w implies s.subrange(pos + 1, pos + 1 + w)[k]
            == be_bytes(n, w)[k] by {
            assert(s.subrange(pos, pos + lb.len() as int)[k + 1] == lb[k + 1]);
            assert(lb[k + 1] == be_bytes(n, w)[k]);
        }
        assert(s.subrange(pos + 1, pos + 1 + w) =~= be_bytes(n, w));
        lemma_be_val_of_be_bytes(n, w);
        if w == 1 {
            assert(be_val(be_bytes(n, w)) >= 0x80);
        }
    }
}

/// A constructed TLV at `pos` parses back to its tag and content extent.
proof fn lemma_tlv_at(s: Seq<u8>, pos: int, tag: u8, content: Seq<u8>, end: int)
    requires
        tag % 32 != 31,
        content.len() < pow256(8),
        0 <= pos,
        pos + spec_tlv(tag, content).len() <= end <= s.len(),
        s.subrange(pos, pos + spec_tlv(tag, content).len()) == spec_tlv(tag, content),
    ensures
        ({
            let hl = 1 + spec_len_bytes(content.len()).len();
            &&& spec_der_header(s, pos, end) == Ok::<(u8, int, nat), Error>(
                (tag, pos + hl, content.len()),
            )
            &&& s.subrange(pos + hl, pos + hl + content.len() as int) == content
        }),
{
    let t = spec_tlv(tag, content);
    let lb = spec_len_bytes(content.len());
    assert(s[pos] == t[0]);
    assert forall|k: int| 0 <= k < lb.len() implies s.subrange(pos + 1, pos + 1 + lb.len() as int)[k]
        == lb[k] by {
        assert(s.subrange(pos, pos + t.len() as int)[k + 1] == t[k + 1]);
        assert(t[k + 1] == lb[k]);
    }
    assert(s.subrange(pos + 1, pos + 1 + lb.len() as int) =~= lb);
    lemma_len_bytes_at(s, pos + 1, content.len(), end);
    let hl = 1 + lb.len() as int;
    assert forall|k: int| 0 <= k < content.len() implies s.subrange(
        pos + hl,
        pos + hl + content.len() as int,
    )[k] == content[k] by {
        assert(s.subrange(pos, pos + t.len() as int)[k + hl] == t[k + hl]);
        assert(t[k + hl] == content[k]);
    }
    assert(s.subrange(pos + hl, pos + hl + content.len() as int) =~= content);
}

/// Seven TLVs that fill a byte string still skip to its end when the
/// string stands embedded in a larger one.
#[verifier::rlimit(100)]
proof fn lemma_skip_tlvs_embed(x: Seq<u8>, s: Seq<u8>, d: int, q: int, n: nat, end: int)
    requires
        window_eq(x, s, d, 0, x.len() as int),
        0 <= q <= x.len(),
        x.len() + d <= end <= s.len(),
        spec_skip_tlvs(x, q, x.len() as int, n) is Ok,
    ensures
        spec_skip_tlvs(s, q + d, end, n) == Ok::<int, Error>(
            spec_skip_tlvs(x, q, x.len() as int, n)->Ok_0 + d,
        ),
    decreases n,
{
    if n > 0 {
        lemma_header_shift(x, s, d, 0, x.len() as int, q, x.len() as int);
        match spec_der_header(x, q, x.len() as int) {
            Err(_) => {},
            Ok((t, cs, l)) => {
                lemma_header_widen(s, q + d, x.len() as int + d, end);
                lemma_skip_tlvs_embed(x, s, d, cs + l, (n - 1) as nat, end);
            },
        }
    }
}

/// A bare TBS blob built from its seven leading fields and its
/// `SEQUENCE OF Extension` content bytes, all DER lengths re-sealed.
pub open spec fn spec_tbs_blob(fields7: Seq<u8>, ec: Seq<u8>) -> Seq<u8> {
    spec_tlv(0x30, fields7 + spec_tlv(0xA3, spec_tlv(0x30, ec)))
}

/// The tail of a TBS whose remaining bytes are exactly the `[3]`
/// wrapper around one SEQUENCE with content `ec`.
#[verifier::rlimit(100)]
#[verifier::spinoff_prover]
proof fn lemma_tbs_blob_tail(s: Seq<u8>, wp: int, ec: Seq<u8>)
    requires
        0 <= wp,
        ec.len() < pow256(8),
        spec_tlv(0x30, ec).len() < pow256(8),
        wp + spec_tlv(0xA3, spec_tlv(0x30, ec)).len() == s.len(),
        s.subrange(wp, s.len() as int) == spec_tlv(0xA3, spec_tlv(0x30, ec)),
    ensures
        spec_tbs_tail(s, wp, s.len() as int) == spec_extensions_from(ec, 0, ec.len() as int),
{
    let inner1 = spec_tlv(0x30, ec);
    let end = s.len() as int;
    lemma_len_bytes_short(ec.len());
    lemma_len_bytes_short(inner1.len());
    lemma_tlv_at(s, wp, 0xA3, inner1, end);
    let hl1 = 1 + spec_len_bytes(inner1.len()).len() as int;
    let ip = wp + hl1;
    assert(s.subrange(ip, ip + inner1.len() as int) == inner1);
    lemma_tlv_at(s, ip, 0x30, ec, end);
    let hl2 = 1 + spec_len_bytes(ec.len()).len() as int;
    let ep = ip + hl2;
    assert(window_eq(ec, s, ep, 0, ec.len() as int));
    lemma_extensions_from_shift(ec, s, ep, 0, ec.len() as int, 0, ec.len() as int);
}

/// Reading a re-sealed TBS blob lists exactly what its extension content
/// bytes list: the outer, wrapper and inner headers that the sealing
/// recomputes change nothing of the extension reading.
#[verifier::rlimit(100)]
#[verifier::spinoff_prover]
pub proof fn lemma_tbs_blob_extensions(fields7: Seq<u8>, ec: Seq<u8>)
    requires
        spec_skip_tlvs(fields7, 0, fields7.len() as int, 7) == Ok::<int, Error>(
            fields7.len() as int,
        ),
        fields7.len() + ec.len() + 30 < pow256(8),
    ensures
        spec_precert_tbs_extensions(spec_tbs_blob(fields7, ec)) == spec_extensions_from(
            ec,
            0,
            ec.len() as int,
        ),
{
    let inner1 = spec_tlv(0x30, ec);
    let wrapper = spec_tlv(0xA3, inner1);
    let body = fields7 + wrapper;
    let s = spec_tbs_blob(fields7, ec);
    lemma_len_bytes_short(ec.len());
    lemma_len_bytes_short(inner1.len());
    lemma_len_bytes_short(body.len());
    // the outer TBS SEQUENCE
    assert(s.subrange(0, s.len() as int) =~= spec_tlv(0x30, body));
    lemma_tlv_at(s, 0, 0x30, body, s.len() as int);
    let hl0 = 1 + spec_len_bytes(body.len()).len() as int;
    // the seven leading fields
    assert forall|k: int| 0 <= k < fields7.len() implies fields7[k] == s[k + hl0] by {
        assert(s.subrange(hl0, hl0 + body.len() as int)[k] == body[k]);
        assert(body[k] == fields7[k]);
    }
    assert(window_eq(fields7, s, hl0, 0, fields7.len() as int));
    lemma_skip_tlvs_embed(fields7, s, hl0, 0, 7, s.len() as int);
    // the [3] wrapper is all that follows them
    let wp = hl0 + fields7.len() as int;
    assert forall|k: int| 0 <= k < wrapper.len() implies s.subrange(wp, s.len() as int)[k]
        == wrapper[k] by {
        assert(s.subrange(hl0, hl0 + body.len() as int)[k + fields7.len()] == body[k
            + fields7.len()]);
        assert(body[k + fields7.len()] == wrapper[k]);
    }
    assert(s.subrange(wp, s.len() as int) =~= wrapper);
    lemma_tbs_blob_tail(s, wp, ec);
}

/// A length's encoding is at most nine bytes for anything below `256^8`.
proof fn lemma_len_bytes_short(n: nat)
    requires
        n < pow256(8),
    ensures
        1 <= spec_len_bytes(n).len() <= 9,
{
    if n >= 0x80 {
        lemma_be_width_bounds(n);
        lemma_be_width_le(n, 8);
        lemma_be_bytes_len(n, be_width(n));
    }
}

/// Pre-cert parity over whole TBS blobs: a TBS holding the extension
/// runs `a + poison + b` and the TBS re-sealed without the poison
/// extension (same seven leading fields, all outer lengths recomputed)
/// list the same OIDs but for exactly the poison extension's own.
pub proof fn lemma_precert_parity_tbs(
    fields7: Seq<u8>,
    a: Seq<u8>,
    poison: Seq<u8>,
    b: Seq<u8>,
    la: Seq<Seq<u64>>,
    lb: Seq<Seq<u64>>,
    o: Seq<u64>,
)
    requires
        spec_skip_tlvs(fields7, 0, fields7.len() as int, 7) == Ok::<int, Error>(
            fields7.len() as int,
        ),
        spec_extensions_from(a, 0, a.len() as int) == Ok::<Seq<Seq<u64>>, Error>(la),
        spec_extension(poison, 0, poison.len() as int) == Ok::<(Seq<u64>, int), Error>(
            (o, poison.len() as int),
        ),
        spec_extensions_from(b, 0, b.len() as int) == Ok::<Seq<Seq<u64>>, Error>(lb),
        fields7.len() + a.len() + poison.len() + b.len() + 30 < pow256(8),
    ensures
        spec_precert_tbs_extensions(spec_tbs_blob(fields7, a + poison + b)) == Ok::<
            Seq<Seq<u64>>,
            Error,
        >(la + seq![o] + lb),
        spec_precert_tbs_extensions(spec_tbs_blob(fields7, a + b)) == Ok::<
            Seq<Seq<u64>>,
            Error,
        >(la + lb),
{
    lemma_precert_parity(a, poison, b, la, lb, o);
    lemma_tbs_blob_extensions(fields7, a + poison + b);
    lemma_tbs_blob_extensions(fields7, a + b);
}

/// Inside a `TBSCertificate` whose seven leading fields were skipped:
/// the optional `[1]` (`issuerUniqueID`), then the rest.
pub open spec fn spec_tbs_tail(s: Seq<u8>, pos: int, end: int) -> Result<Seq<Seq<u64>>, Error> {
    if pos >= end {
        Ok(Seq::empty())
    } else {
        match spec_der_header(s, pos, end) {
            Err(e) => Err(e),
            Ok((t, cs, l)) => {
                if t == 0x81 || t == 0xA1 {
                    spec_tbs_tail2(s, cs + l, end)
                } else {
                    spec_tbs_tail2(s, pos, end)
                }
            },
        }
    }
}

/// The optional `[2]` (`subjectUniqueID`), then the extensions wrapper.
pub open spec fn spec_tbs_tail2(s: Seq<u8>, pos: int, end: int) -> Result<Seq<Seq<u64>>, Error> {
    if pos >= end {
        Ok(Seq::empty())
    } else {
        match spec_der_header(s, pos, end) {
            Err(e) => Err(e),
            Ok((t, cs, l)) => {
                if t == 0x82 || t == 0xA2 {
                    spec_tbs_ext_wrapper(s, cs + l, end)
                } else {
                    spec_tbs_ext_wrapper(s, pos, end)
                }
            },
        }
    }
}

/// The explicit `[3]` extensions wrapper, which must be the last field of
/// the TBS when present: inside it one SEQUENCE holding the extensions.
pub open spec fn spec_tbs_ext_wrapper(s: Seq<u8>, pos: int, end: int) -> Result<
    Seq<Seq<u64>>,
    Error,
> {
    if pos >= end {
        Ok(Seq::empty())
    } else {
        match spec_der_header(s, pos, end) {
            Err(e) => Err(e),
            Ok((t, cs, l)) => {
                if t != 0xA3 {
                    Err(Error::MalformedDer)
                } else if cs + l != end {
                    Err(Error::OverlongField)
                } else {
                    match spec_der_header(s, cs, end) {
                        Err(e) => Err(e),
                        Ok((t_seq, cs_seq, l_seq)) => {
                            if t_seq != 0x30 {
                                Err(Error::UnexpectedTag)
                            } else if cs_seq + l_seq != end {
                                Err(Error::OverlongField)
                            } else {
                                spec_extensions_from(s, cs_seq, end)
                            }
                        },
                    }
                }
            },
        }
    }
}

/// The body of a `TBSCertificate` whose content spans `[pos, end)`:
/// seven fields skipped, then the tail above.
pub open spec fn spec_tbs_body(s: Seq<u8>, pos: int, end: int) -> Result<Seq<Seq<u64>>, Error> {
    match spec_skip_tlvs(s, pos, end, 7) {
        Err(e) => Err(e),
        Ok(p) => spec_tbs_tail(s, p, end),
    }
}

/// The extension OIDs of a bare `TBSCertificate` occupying the whole input.
pub open spec fn spec_precert_tbs_extensions(s: Seq<u8>) -> Result<Seq<Seq<u64>>, Error> {
    match spec_der_header(s, 0, s.len() as int) {
        Err(e) => Err(e),
        Ok((t, cs, l)) => {
            if t != 0x30 {
                Err(Error::UnexpectedTag)
            } else if cs + l != s.len() {
                Err(Error::MalformedDer)
            } else {
                spec_tbs_body(s, cs, cs + l)
            }
        },
    }
}

/// The extension OIDs of a full `Certificate` occupying the whole input:
/// an outer SEQUENCE holding the TBS, the signature algorithm and the
/// signature value, nothing after them.
pub open spec fn spec_cert_extensions(s: Seq<u8>) -> Result<Seq<Seq<u64>>, Error> {
    match spec_der_header(s, 0, s.len() as int) {
        Err(e) => Err(e),
        Ok((t, cs, l)) => {
            if t != 0x30 {
                Err(Error::UnexpectedTag)
            } else if cs + l != s.len() {
                Err(Error::MalformedDer)
            } else {
                let outer_end = cs + l;
                match spec_der_header(s, cs, outer_end) {
                    Err(e) => Err(e),
                    Ok((t_tbs, cs_tbs, l_tbs)) => {
                        if t_tbs != 0x30 {
                            Err(Error::UnexpectedTag)
                        } else {
                            match spec_tbs_body(s, cs_tbs, cs_tbs + l_tbs) {
                                Err(e) => Err(e),
                                Ok(oids) => {
                                    match spec_skip_tlvs(s, cs_tbs + l_tbs, outer_end, 2) {
                                        Err(e) => Err(e),
                                        Ok(p) => {
                                            if p != outer_end {
                                                Err(Error::OverlongField)
                                            } else {
                                                Ok(oids)
                                            }
                                        },
                                    }
                                },
                            }
                        }
                    },
                }
            }
        },
    }
}

/// The views of a list of OIDs: each element as its arc sequence.
pub open spec fn oids_view(s: Seq<Oid>) -> Seq<Seq<u64>> {
    s.map_values(|o: Oid| o@)
}

/// Reads a TLV header at `pos`, bounded by `end`.
fn der_header(buf: &[u8], pos: usize, end: usize) -> (r: Result<(u8, usize, usize), Error>)
    requires
        end <= buf@.len(),
    ensures
        ({
            let sp = spec_der_header(buf@, pos as int, end as int);
            match r {
                Ok((t, cs, l)) => sp == Ok::<(u8, int, nat), Error>((t, cs as int, l as nat))
                    && pos < cs && cs + l <= end,
                Err(e) => sp == Err::<(u8, int, nat), Error>(e),
            }
        }),
{
    if pos >= end {
        return Err(Error::Truncated);
    }
    let tag = buf[pos];
    if tag % 32 == 31 {
        return Err(Error::MalformedDer);
    }
    let lp = pos + 1;
    if lp >= end {
        return Err(Error::Truncated);
    }
    let b = buf[lp];
    if b < 0x80 {
        let cs = lp + 1;
        let l = b as usize;
        if l > end - cs {
            return Err(Error::Truncated);
        }
        Ok((tag, cs, l))
    } else if b == 0x80 {
        Err(Error::MalformedDer)
    } else {
        let n = (b - 0x80) as usize;
        if n > 8 {
            return Err(Error::MalformedDer);
        }
        if n > end - (lp + 1) {
            return Err(Error::Truncated);
        }
        if buf[lp + 1] == 0 {
            return Err(Error::MalformedDer);
        }
        let v = crate::encoding::read_be(buf, lp + 1, n);
        if n == 1 && v < 0x80 {
            return Err(Error::MalformedDer);
        }
        let cs = lp + 1 + n;
        if v > (end - cs) as u64 {
            return Err(Error::Truncated);
        }
        let l = v as usize;
        Ok((tag, cs, l))
    }
}

/// Steps over the TLV at `pos`.
fn skip_tlv(buf: &[u8], pos: usize, end: usize) -> (r: Result<usize, Error>)
    requires
        end <= buf@.len(),
    ensures
        ({
            let sp = spec_skip_tlv(buf@, pos as int, end as int);
            match r {
                Ok(p) => sp == Ok::<int, Error>(p as int) && pos < p <= end,
                Err(e) => sp == Err::<int, Error>(e),
            }
        }),
{
    match der_header(buf, pos, end) {
        Err(e) => Err(e),
        Ok((tag, cs, l)) => Ok(cs + l),
    }
}

/// Steps over `n` consecutive TLVs at `pos`.
fn skip_tlvs(buf: &[u8], pos: usize, end: usize, n: usize) -> (r: Result<usize, Error>)
    requires
        end <= buf@.len(),
        pos <= end,
    ensures
        ({
            let sp = spec_skip_tlvs(buf@, pos as int, end as int, n as nat);
            match r {
                Ok(p) => sp == Ok::<int, Error>(p as int) && p <= end,
                Err(e) => sp == Err::<int, Error>(e),
            }
        }),
{
    let mut cur = pos;
    let mut i: usize = 0;
    while i < n
        invariant
            end <= buf@.len(),
            i <= n,
            cur <= end,
            spec_skip_tlvs(buf@, cur as int, end as int, (n - i) as nat) == spec_skip_tlvs(
                buf@,
                pos as int,
                end as int,
                n as nat,
            ),
        decreases n - i,
    {
        match skip_tlv(buf, cur, end) {
            Err(e) => {
                return Err(e);
            },
            Ok(p) => {
                cur = p;
            },
        }
        i = i + 1;
    }
    Ok(cur)
}

/// Decodes the `len` OID content bytes at `start` into arcs.
fn parse_oid_arcs(buf: &[u8], start: usize, len: usize) -> (r: Result<Vec<u64>, Error>)
    requires
        start + len <= buf@.len(),
    ensures
        ({
            let sp = spec_oid_arcs(buf@.subrange(start as int, start + len));
            match r {
                Ok(v) => sp == Ok::<Seq<u64>, Error>(v@) && v@.len() >= 2,
                Err(e) => sp == Err::<Seq<u64>, Error>(e),
            }
        }),
{
    let ghost c = buf@.subrange(start as int, start + len);
    let buf_len = buf.len();
    let mut arcs: Vec<u64> = Vec::new();
    let mut acc: u64 = 0;
    let mut started: bool = false;
    let mut first: bool = true;
    let mut i: usize = 0;
    proof {
        match spec_oid_arcs(c) {
            Ok(rest) => {
                assert(Seq::<u64>::empty() + rest =~= rest);
            },
            Err(_) => {},
        }
    }
    while i < len
        invariant
            start + len <= buf@.len(),
            buf_len == buf@.len(),
            c == buf@.subrange(start as int, start + len),
            i <= len,
            ({
                let sp = spec_oid_arcs_at(c, i as int, acc as nat, started, first);
                match sp {
                    Ok(rest) => spec_oid_arcs(c) == Ok::<Seq<u64>, Error>(arcs@ + rest),
                    Err(e) => spec_oid_arcs(c) == Err::<Seq<u64>, Error>(e),
                }
            }),
            !first ==> arcs@.len() >= 2,
            first ==> arcs@.len() == 0,
        decreases len - i,
    {
        let ghost arcs0 = arcs@;
        let b = buf[start + i];
        proof {
            assert(c[i as int] == buf@[start + i]);
        }
        if !started && b == 0x80 {
            return Err(Error::MalformedDer);
        }
        if acc > 0x1ffffffffffffff {
            proof {
                assert(acc as nat * 128 >= 0x200000000000000 * 128);
            }
            return Err(Error::MalformedDer);
        }
        proof {
            assert(acc as nat * 128 <= 0x1ffffffffffffff * 128);
        }
        let v = acc * 128 + (b % 128) as u64;
        if b >= 0x80 {
            acc = v;
            started = true;
        } else {
            if first {
                let (a1, a2): (u64, u64) = if v < 40 {
                    (0, v)
                } else if v < 80 {
                    (1, v - 40)
                } else {
                    (2, v - 80)
                };
                arcs.push(a1);
                arcs.push(a2);
                proof {
                    match spec_oid_arcs_at(c, i + 1, 0, false, false) {
                        Ok(rest) => {
                            assert(arcs0 + (seq![a1, a2] + rest) =~= arcs@ + rest);
                        },
                        Err(_) => {},
                    }
                }
            } else {
                arcs.push(v);
                proof {
                    match spec_oid_arcs_at(c, i + 1, 0, false, false) {
                        Ok(rest) => {
                            assert(arcs0 + (seq![v] + rest) =~= arcs@ + rest);
                        },
                        Err(_) => {},
                    }
                }
            }
            acc = 0;
            started = false;
            first = false;
        }
        i = i + 1;
    }
    if started || first {
        return Err(Error::MalformedDer);
    }
    proof {
        assert(arcs@ + Seq::<u64>::empty() =~= arcs@);
    }
    Ok(arcs)
}

/// Parses one `Extension` at `pos`; returns its OID and the position after.
fn parse_extension(buf: &[u8], pos: usize, end: usize) -> (r: Result<(Oid, usize), Error>)
    requires
        end <= buf@.len(),
    ensures
        ({
            let sp = spec_extension(buf@, pos as int, end as int);
            match r {
                Ok((oid, p)) => sp == Ok::<(Seq<u64>, int), Error>((oid@, p as int)) && pos < p
                    <= end && oid.wf(),
                Err(e) => sp == Err::<(Seq<u64>, int), Error>(e),
            }
        }),
{
    match der_header(buf, pos, end) {
        Err(e) => Err(e),
        Ok((t, cs, l)) => {
            if t != 0x30 {
                return Err(Error::UnexpectedTag);
            }
            let ext_end = cs + l;
            match der_header(buf, cs, ext_end) {
                Err(e) => Err(e),
                Ok((t_oid, cs_oid, l_oid)) => {
                    if t_oid != 0x06 {
                        return Err(Error::UnexpectedTag);
                    }
                    match parse_oid_arcs(buf, cs_oid, l_oid) {
                        Err(e) => Err(e),
                        Ok(arcs) => {
                            let oid = Oid::from_vec(arcs);
                            match der_header(buf, cs_oid + l_oid, ext_end) {
                                Err(e) => Err(e),
                                Ok((t2, cs2, l2)) => {
                                    if t2 == 0x01 {
                                        match der_header(buf, cs2 + l2, ext_end) {
                                            Err(e) => Err(e),
                                            Ok((t3, cs3, l3)) => {
                                                if t3 != 0x04 {
                                                    Err(Error::UnexpectedTag)
                                                } else if cs3 + l3 != ext_end {
                                                    Err(Error::OverlongField)
                                                } else {
                                                    Ok((oid, ext_end))
                                                }
                                            },
                                        }
                                    } else if t2 == 0x04 {
                                        if cs2 + l2 != ext_end {
                                            Err(Error::OverlongField)
                                        } else {
                                            Ok((oid, ext_end))
                                        }
                                    } else {
                                        Err(Error::UnexpectedTag)
                                    }
                                },
                            }
                        },
                    }
                },
            }
        },
    }
}

/// Parses the `SEQUENCE OF Extension` content spanning `[pos, end)`.
fn parse_extensions_list(buf: &[u8], pos: usize, end: usize) -> (r: Result<Vec<Oid>, Error>)
    requires
        end <= buf@.len(),
        pos <= end,
    ensures
        ({
            let sp = spec_extensions_from(buf@, pos as int, end as int);
            match r {
                Ok(v) => sp == Ok::<Seq<Seq<u64>>, Error>(oids_view(v@)) && (forall|k: int|
                    0 <= k < v@.len() ==> v@[k].wf()),
                Err(e) => sp == Err::<Seq<Seq<u64>>, Error>(e),
            }
        }),
{
    let mut out: Vec<Oid> = Vec::new();
    let mut cur = pos;
    proof {
        match spec_extensions_from(buf@, pos as int, end as int) {
            Ok(rest) => {
                assert(oids_view(out@) + rest =~= rest);
            },
            Err(_) => {},
        }
    }
    while cur < end
        invariant
            end <= buf@.len(),
            pos <= cur <= end,
            ({
                let sp = spec_extensions_from(buf@, cur as int, end as int);
                match sp {
                    Ok(rest) => spec_extensions_from(buf@, pos as int, end as int) == Ok::<
                        Seq<Seq<u64>>,
                        Error,
                    >(oids_view(out@) + rest),
                    Err(e) => spec_extensions_from(buf@, pos as int, end as int) == Err::<
                        Seq<Seq<u64>>,
                        Error,
                    >(e),
                }
            }),
            forall|k: int| 0 <= k < out@.len() ==> out@[k].wf(),
        decreases end - cur,
    {
        let ghost out0 = out@;
        match parse_extension(buf, cur, end) {
            Err(e) => {
                return Err(e);
            },
            Ok((oid, p)) => {
                out.push(oid);
                proof {
                    match spec_extensions_from(buf@, p as int, end as int) {
                        Ok(rest) => {
                            assert(oids_view(out0) + (seq![oid@] + rest) =~= oids_view(out@)
                                + rest);
                        },
                        Err(_) => {},
                    }
                }
                cur = p;
            },
        }
    }
    proof {
        assert(oids_view(out@) + Seq::<Seq<u64>>::empty() =~= oids_view(out@));
    }
    Ok(out)
}

/// The `[3]` extensions wrapper, when present the last field of the TBS.
fn parse_tbs_ext_wrapper(buf: &[u8], pos: usize, end: usize) -> (r: Result<Vec<Oid>, Error>)
    requires
        end <= buf@.len(),
    ensures
        ({
            let sp = spec_tbs_ext_wrapper(buf@, pos as int, end as int);
            match r {
                Ok(v) => sp == Ok::<Seq<Seq<u64>>, Error>(oids_view(v@)) && (forall|k: int|
                    0 <= k < v@.len() ==> v@[k].wf()),
                Err(e) => sp == Err::<Seq<Seq<u64>>, Error>(e),
            }
        }),
{
    if pos >= end {
        let out: Vec<Oid> = Vec::new();
        proof {
            assert(oids_view(out@) =~= Seq::<Seq<u64>>::empty());
        }
        return Ok(out);
    }
    match der_header(buf, pos, end) {
        Err(e) => Err(e),
        Ok((t, cs, l)) => {
            if t != 0xA3 {
                Err(Error::MalformedDer)
            } else if cs + l != end {
                Err(Error::OverlongField)
            } else {
                match der_header(buf, cs, end) {
                    Err(e) => Err(e),
                    Ok((t_seq, cs_seq, l_seq)) => {
                        if t_seq != 0x30 {
                            Err(Error::UnexpectedTag)
                        } else if cs_seq + l_seq != end {
                            Err(Error::OverlongField)
                        } else {
                            parse_extensions_list(buf, cs_seq, end)
                        }
                    },
                }
            }
        },
    }
}

/// The optional `[2]` field, then the extensions wrapper.
fn parse_tbs_tail2(buf: &[u8], pos: usize, end: usize) -> (r: Result<Vec<Oid>, Error>)
    requires
        end <= buf@.len(),
    ensures
        ({
            let sp = spec_tbs_tail2(buf@, pos as int, end as int);
            match r {
                Ok(v) => sp == Ok::<Seq<Seq<u64>>, Error>(oids_view(v@)) && (forall|k: int|
                    0 <= k < v@.len() ==> v@[k].wf()),
                Err(e) => sp == Err::<Seq<Seq<u64>>, Error>(e),
            }
        }),
{
    if pos >= end {
        let out: Vec<Oid> = Vec::new();
        proof {
            assert(oids_view(out@) =~= Seq::<Seq<u64>>::empty());
        }
        return Ok(out);
    }
    match der_header(buf, pos, end) {
        Err(e) => Err(e),
        Ok((t, cs, l)) => {
            if t == 0x82 || t == 0xA2 {
                parse_tbs_ext_wrapper(buf, cs + l, end)
            } else {
                parse_tbs_ext_wrapper(buf, pos, end)
            }
        },
    }
}

/// The optional `[1]` field, then the rest of the TBS tail.
fn parse_tbs_tail(buf: &[u8], pos: usize, end: usize) -> (r: Result<Vec<Oid>, Error>)
    requires
        end <= buf@.len(),
    ensures
        ({
            let sp = spec_tbs_tail(buf@, pos as int, end as int);
            match r {
                Ok(v) => sp == Ok::<Seq<Seq<u64>>, Error>(oids_view(v@)) && (forall|k: int|
                    0 <= k < v@.len() ==> v@[k].wf()),
                Err(e) => sp == Err::<Seq<Seq<u64>>, Error>(e),
            }
        }),
{
    if pos >= end {
        let out: Vec<Oid> = Vec::new();
        proof {
            assert(oids_view(out@) =~= Seq::<Seq<u64>>::empty());
        }
        return Ok(out);
    }
    match der_header(buf, pos, end) {
        Err(e) => Err(e),
        Ok((t, cs, l)) => {
            if t == 0x81 || t == 0xA1 {
                parse_tbs_tail2(buf, cs + l, end)
            } else {
                parse_tbs_tail2(buf, pos, end)
            }
        },
    }
}

/// The body of a TBS whose content spans `[pos, end)`.
fn parse_tbs_body(buf: &[u8], pos: usize, end: usize) -> (r: Result<Vec<Oid>, Error>)
    requires
        end <= buf@.len(),
        pos <= end,
    ensures
        ({
            let sp = spec_tbs_body(buf@, pos as int, end as int);
            match r {
                Ok(v) => sp == Ok::<Seq<Seq<u64>>, Error>(oids_view(v@)) && (forall|k: int|
                    0 <= k < v@.len() ==> v@[k].wf()),
                Err(e) => sp == Err::<Seq<Seq<u64>>, Error>(e),
            }
        }),
{
    match skip_tlvs(buf, pos, end, 7) {
        Err(e) => Err(e),
        Ok(p) => parse_tbs_tail(buf, p, end),
    }
}

/// Lists the extension OIDs of a DER `Certificate`, in encoding order.
///
/// Succeeds exactly when [`spec_cert_extensions`] reads the input, and then
/// returns exactly the OID list that it denotes; a certificate without the
/// `[3]` wrapper yields the empty list.
pub fn list_cert_extensions_der(cert_der: &[u8]) -> (r: Result<Vec<Oid>, Error>)
    ensures
        ({
            let sp = spec_cert_extensions(cert_der@);
            match r {
                Ok(v) => sp == Ok::<Seq<Seq<u64>>, Error>(oids_view(v@)) && (forall|k: int|
                    0 <= k < v@.len() ==> v@[k].wf()),
                Err(e) => sp == Err::<Seq<Seq<u64>>, Error>(e),
            }
        }),
{
    let len = cert_der.len();
    match der_header(cert_der, 0, len) {
        Err(e) => Err(e),
        Ok((t, cs, l)) => {
            if t != 0x30 {
                Err(Error::UnexpectedTag)
            } else if cs + l != len {
                Err(Error::MalformedDer)
            } else {
                match der_header(cert_der, cs, len) {
                    Err(e) => Err(e),
                    Ok((t_tbs, cs_tbs, l_tbs)) => {
                        if t_tbs != 0x30 {
                            Err(Error::UnexpectedTag)
                        } else {
                            match parse_tbs_body(cert_der, cs_tbs, cs_tbs + l_tbs) {
                                Err(e) => Err(e),
                                Ok(oids) => {
                                    match skip_tlvs(cert_der, cs_tbs + l_tbs, len, 2) {
                                        Err(e) => Err(e),
                                        Ok(p) => {
                                            if p != len {
                                                Err(Error::OverlongField)
                                            } else {
                                                Ok(oids)
                                            }
                                        },
                                    }
                                },
                            }
                        }
                    },
                }
            }
        },
    }
}

/// Lists the extension OIDs of the bare `TBSCertificate` a CT pre-cert
/// entry delivers, in encoding order.
pub fn list_pre_cert_extensions_der(cert_der: &[u8]) -> (r: Result<Vec<Oid>, Error>)
    ensures
        ({
            let sp = spec_precert_tbs_extensions(cert_der@);
            match r {
                Ok(v) => sp == Ok::<Seq<Seq<u64>>, Error>(oids_view(v@)) && (forall|k: int|
                    0 <= k < v@.len() ==> v@[k].wf()),
                Err(e) => sp == Err::<Seq<Seq<u64>>, Error>(e),
            }
        }),
{
    let len = cert_der.len();
    match der_header(cert_der, 0, len) {
        Err(e) => Err(e),
        Ok((t, cs, l)) => {
            if t != 0x30 {
                Err(Error::UnexpectedTag)
            } else if cs + l != len {
                Err(Error::MalformedDer)
            } else {
                parse_tbs_body(cert_der, cs, cs + l)
            }
        },
    }
}

/// What `pem::parse` makes of a document: `Some` of the DER contents of
/// its first armored block when the text is PEM-framed, `None` when it is
/// not. A function of the input text alone.
pub uninterp spec fn pem_parse_of(s: Seq<char>) -> Option<Seq<u8>>;

/// Relies on `pem::parse`: decodes the first PEM block of the document,
/// and fails exactly on text that is not PEM-framed.
#[verifier::external_body]
fn pem_decode(text: &str) -> (r: Result<Vec<u8>, Error>)
    ensures
        ({
            match r {
                Ok(v) => pem_parse_of(text@) == Some(v@),
                Err(e) => pem_parse_of(text@) is None && e == Error::MalformedDer,
            }
        }),
{
    match pem::parse(text) {
        Ok(p) => Ok(p.contents),
        Err(_) => Err(Error::MalformedDer),
    }
}

/// Lists the extension OIDs of a PEM-encoded certificate: text that is
/// not PEM-framed is `MalformedDer`, and the decoded DER bytes are read
/// exactly as [`list_cert_extensions_der`] reads them, both ways.
#[verifier::rlimit(50)]
pub fn list_cert_extensions(cert_pem: &str) -> (r: Result<Vec<Oid>, Error>)
    ensures
        ({
            match pem_parse_of(cert_pem@) {
                None => r matches Err(e) && e == Error::MalformedDer,
                Some(der) => {
                    let sp = spec_cert_extensions(der);
                    match r {
                        Ok(v) => sp == Ok::<Seq<Seq<u64>>, Error>(oids_view(v@)) && (forall|
                            k: int,
                        |
                            0 <= k < v@.len() ==> v@[k].wf()),
                        Err(e) => sp == Err::<Seq<Seq<u64>>, Error>(e),
                    }
                },
            }
        }),
{
    let der = match pem_decode(cert_pem) {
        Ok(v) => v,
        Err(e) => {
            return Err(e);
        },
    };
    let der_slice = der.as_slice();
    let r = list_cert_extensions_der(der_slice);
    proof {
        assert(pem_parse_of(cert_pem@) == Some(der_slice@));
    }
    r
}

} // verus!
