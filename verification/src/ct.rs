//! The RFC 6962 binary structures of a CT entry: `MerkleTreeLeaf` /
//! `TimestampedEntry` (the `leaf_input` field) and the per-entry chain blob
//! (the `extra_data` field).
//!
//! All multi-byte integers are big-endian. A read past the buffer is
//! `Truncated`; trailing bytes are tolerated at the outermost boundary only.
//! The spec functions are the reference reading of the wire grammar; each
//! executable function returns exactly what its spec function denotes, and
//! [`lemma_timestamped_entry_round_trip`] shows that re-encoding an accepted
//! leaf yields the consumed input byte for byte.

use vstd::prelude::*;

use crate::encoding::{be_val, be_bytes, pow256, lemma_be_val_bound, lemma_be_bytes_of_be_val};
use crate::errors::Error;

verus! {

/// The signed entry of a timestamped entry: a full certificate, or a
/// pre-certificate's issuer key hash (32 bytes) and bare TBS.
pub enum Entry {
    X509Entry(Vec<u8>),
    PrecertEntry(Vec<u8>, Vec<u8>),
}

/// Spec-level shape of [`Entry`].
pub enum EntryV {
    X509Entry(Seq<u8>),
    PrecertEntry(Seq<u8>, Seq<u8>),
}

impl View for Entry {
    type V = EntryV;

    open spec fn view(&self) -> EntryV {
        match self {
            Entry::X509Entry(der) => EntryV::X509Entry(der@),
            Entry::PrecertEntry(kh, der) => EntryV::PrecertEntry(kh@, der@),
        }
    }
}

/// A decoded `TimestampedEntry`: the timestamp in milliseconds, the signed
/// entry, and the raw CT extensions (kept, not interpreted).
pub struct TimestampedEntry {
    pub timestamp: u64,
    pub signed_entry: Entry,
    pub ct_extensions: Vec<u8>,
}

/// Spec-level shape of [`TimestampedEntry`].
pub struct TimestampedEntryV {
    pub timestamp: u64,
    pub signed_entry: EntryV,
    pub ct_extensions: Seq<u8>,
}

impl View for TimestampedEntry {
    type V = TimestampedEntryV;

    open spec fn view(&self) -> TimestampedEntryV {
        TimestampedEntryV {
            timestamp: self.timestamp,
            signed_entry: self.signed_entry@,
            ct_extensions: self.ct_extensions@,
        }
    }
}

/// The length-prefixed CT extensions at `pos`: `u16` length, then that many
/// bytes. What follows them is the outermost boundary, so it is tolerated.
pub open spec fn spec_parse_ct_extensions(s: Seq<u8>, pos: int) -> Result<Seq<u8>, Error> {
    if pos + 2 > s.len() {
        Err(Error::Truncated)
    } else {
        let m = be_val(s.subrange(pos, pos + 2));
        if pos + 2 + m > s.len() {
            Err(Error::Truncated)
        } else {
            Ok(s.subrange(pos + 2, (pos + 2 + m) as int))
        }
    }
}

/// The reference reading of a `leaf_input` blob:
/// `version u8 (= 0)`, `leaf_type u8 (= 0)`, `timestamp u64`,
/// `entry_type u16 (0 = X.509, 1 = pre-cert)`, the entry body, then the
/// CT extensions.
pub open spec fn spec_parse_timestamped_entry(s: Seq<u8>) -> Result<TimestampedEntryV, Error> {
    if s.len() < 1 {
        Err(Error::Truncated)
    } else if s[0] != 0 {
        Err(Error::UnsupportedLeaf)
    } else if s.len() < 2 {
        Err(Error::Truncated)
    } else if s[1] != 0 {
        Err(Error::UnsupportedLeaf)
    } else if s.len() < 12 {
        Err(Error::Truncated)
    } else {
        let ts = be_val(s.subrange(2, 10));
        let et = be_val(s.subrange(10, 12));
        if et == 0 {
            if s.len() < 15 {
                Err(Error::Truncated)
            } else {
                let n = be_val(s.subrange(12, 15));
                if 15 + n > s.len() {
                    Err(Error::Truncated)
                } else {
                    match spec_parse_ct_extensions(s, (15 + n) as int) {
                        Err(e) => Err(e),
                        Ok(exts) => Ok(
                            TimestampedEntryV {
                                timestamp: ts as u64,
                                signed_entry: EntryV::X509Entry(s.subrange(15, (15 + n) as int)),
                                ct_extensions: exts,
                            },
                        ),
                    }
                }
            }
        } else if et == 1 {
            if s.len() < 47 {
                Err(Error::Truncated)
            } else {
                let n = be_val(s.subrange(44, 47));
                if 47 + n > s.len() {
                    Err(Error::Truncated)
                } else {
                    match spec_parse_ct_extensions(s, (47 + n) as int) {
                        Err(e) => Err(e),
                        Ok(exts) => Ok(
                            TimestampedEntryV {
                                timestamp: ts as u64,
                                signed_entry: EntryV::PrecertEntry(
                                    s.subrange(12, 44),
                                    s.subrange(47, (47 + n) as int),
                                ),
                                ct_extensions: exts,
                            },
                        ),
                    }
                }
            }
        } else {
            Err(Error::UnknownEntryType(et as u16))
        }
    }
}

/// Reads the `n` bytes at `pos` into a fresh buffer.
fn read_bytes(buf: &[u8], pos: usize, n: usize) -> (r: Vec<u8>)
    requires
        pos + n <= buf@.len(),
    ensures
        r@ == buf@.subrange(pos as int, pos + n),
{
    let buf_len = buf.len();
    let mut out: Vec<u8> = Vec::new();
    let mut i: usize = 0;
    while i < n
        invariant
            pos + n <= buf@.len(),
            buf_len == buf@.len(),
            i <= n,
            out@ == buf@.subrange(pos as int, pos + i),
        decreases n - i,
    {
        out.push(buf[pos + i]);
        proof {
            assert(out@ =~= buf@.subrange(pos as int, pos + i + 1));
        }
        i = i + 1;
    }
    out
}

/// Reads the length-prefixed CT extensions at `pos`.
fn parse_ct_extensions(buf: &[u8], pos: usize) -> (r: Result<Vec<u8>, Error>)
    requires
        pos <= buf@.len(),
    ensures
        ({
            let sp = spec_parse_ct_extensions(buf@, pos as int);
            match r {
                Ok(v) => sp == Ok::<Seq<u8>, Error>(v@),
                Err(e) => sp == Err::<Seq<u8>, Error>(e),
            }
        }),
{
    let len = buf.len();
    if len - pos < 2 {
        return Err(Error::Truncated);
    }
    let m64 = crate::encoding::read_be(buf, pos, 2);
    proof {
        lemma_be_val_bound(buf@.subrange(pos as int, pos + 2));
        assert(pow256(2) == 0x10000) by {
            reveal_with_fuel(pow256, 3);
        }
    }
    let m = m64 as usize;
    if m > len - (pos + 2) {
        return Err(Error::Truncated);
    }
    Ok(read_bytes(buf, pos + 2, m))
}

/// Decodes a `leaf_input` blob. Returns exactly what
/// [`spec_parse_timestamped_entry`] denotes on the input: `Ok` if and only
/// if the blob is a well-formed v0 `timestamped_entry` leaf of a known
/// entry type whose declared lengths fit the buffer.
pub fn parse_timestamped_entry(buf: &[u8]) -> (r: Result<TimestampedEntry, Error>)
    ensures
        ({
            let sp = spec_parse_timestamped_entry(buf@);
            match r {
                Ok(te) => sp == Ok::<TimestampedEntryV, Error>(te@),
                Err(e) => sp == Err::<TimestampedEntryV, Error>(e),
            }
        }),
{
    let len = buf.len();
    if len < 1 {
        return Err(Error::Truncated);
    }
    if buf[0] != 0 {
        return Err(Error::UnsupportedLeaf);
    }
    if len < 2 {
        return Err(Error::Truncated);
    }
    if buf[1] != 0 {
        return Err(Error::UnsupportedLeaf);
    }
    if len < 12 {
        return Err(Error::Truncated);
    }
    let ts = crate::encoding::read_be(buf, 2, 8);
    let et = crate::encoding::read_be(buf, 10, 2);
    proof {
        lemma_be_val_bound(buf@.subrange(10, 12));
        assert(pow256(2) == 0x10000) by {
            reveal_with_fuel(pow256, 3);
        }
    }
    if et == 0 {
        if len < 15 {
            return Err(Error::Truncated);
        }
        let n64 = crate::encoding::read_be(buf, 12, 3);
        proof {
            lemma_be_val_bound(buf@.subrange(12, 15));
            assert(pow256(3) == 0x1000000) by {
                reveal_with_fuel(pow256, 4);
            }
        }
        let n = n64 as usize;
        if n > len - 15 {
            return Err(Error::Truncated);
        }
        let der = read_bytes(buf, 15, n);
        match parse_ct_extensions(buf, 15 + n) {
            Err(e) => Err(e),
            Ok(exts) => Ok(
                TimestampedEntry {
                    timestamp: ts,
                    signed_entry: Entry::X509Entry(der),
                    ct_extensions: exts,
                },
            ),
        }
    } else if et == 1 {
        if len < 47 {
            return Err(Error::Truncated);
        }
        let key_hash = read_bytes(buf, 12, 32);
        let n64 = crate::encoding::read_be(buf, 44, 3);
        proof {
            lemma_be_val_bound(buf@.subrange(44, 47));
            assert(pow256(3) == 0x1000000) by {
                reveal_with_fuel(pow256, 4);
            }
        }
        let n = n64 as usize;
        if n > len - 47 {
            return Err(Error::Truncated);
        }
        let der = read_bytes(buf, 47, n);
        match parse_ct_extensions(buf, 47 + n) {
            Err(e) => Err(e),
            Ok(exts) => Ok(
                TimestampedEntry {
                    timestamp: ts,
                    signed_entry: Entry::PrecertEntry(key_hash, der),
                    ct_extensions: exts,
                },
            ),
        }
    } else {
        Err(Error::UnknownEntryType(et as u16))
    }
}

/// The wire encoding of a decoded leaf, over the fields the decoder covers
/// (trailing bytes of the input are outside them).
pub open spec fn spec_encode_timestamped_entry(te: TimestampedEntryV) -> Seq<u8> {
    seq![0u8, 0u8] + be_bytes(te.timestamp as nat, 8) + (match te.signed_entry {
        EntryV::X509Entry(der) => be_bytes(0, 2) + be_bytes(der.len(), 3) + der,
        EntryV::PrecertEntry(kh, der) => be_bytes(1, 2) + kh + be_bytes(der.len(), 3) + der,
    }) + be_bytes(te.ct_extensions.len(), 2) + te.ct_extensions
}

/// Decoder round trip: a `leaf_input` the decoder accepts re-encodes to
/// exactly the bytes the decoder consumed, that is, the input up to the
/// tolerated trailing bytes. Together with the decoder's own contract this
/// pins the decoder on every byte string: it returns a typed error, or a
/// value that reproduces its input.
pub proof fn lemma_timestamped_entry_round_trip(s: Seq<u8>)
    ensures
        spec_parse_timestamped_entry(s) matches Ok(te) ==> {
            let e = spec_encode_timestamped_entry(te);
            &&& e.len() <= s.len()
            &&& e == s.subrange(0, e.len() as int)
        },
{
    match spec_parse_timestamped_entry(s) {
        Err(_) => {},
        Ok(te) => {
            lemma_be_bytes_of_be_val(s.subrange(2, 10));
            lemma_be_bytes_of_be_val(s.subrange(10, 12));
            lemma_be_val_bound(s.subrange(2, 10));
            assert(pow256(8) == 0x10000000000000000) by {
                reveal_with_fuel(pow256, 9);
            }
            let et = be_val(s.subrange(10, 12));
            let e = spec_encode_timestamped_entry(te);
            if et == 0 {
                let n = be_val(s.subrange(12, 15));
                lemma_be_bytes_of_be_val(s.subrange(12, 15));
                let p = (15 + n) as int;
                let m = be_val(s.subrange(p, p + 2));
                lemma_be_bytes_of_be_val(s.subrange(p, p + 2));
                assert(e =~= s.subrange(0, p + 2 + m));
            } else {
                let n = be_val(s.subrange(44, 47));
                lemma_be_bytes_of_be_val(s.subrange(44, 47));
                let p = (47 + n) as int;
                let m = be_val(s.subrange(p, p + 2));
                lemma_be_bytes_of_be_val(s.subrange(p, p + 2));
                assert(e =~= s.subrange(0, p + 2 + m));
            }
        },
    }
}

/// The views of a list of byte buffers.
pub open spec fn certs_view(s: Seq<Vec<u8>>) -> Seq<Seq<u8>> {
    s.map_values(|c: Vec<u8>| c@)
}

/// `n` length-prefixed certificates at `pos`: each a `u24` length and that
/// many bytes. Returns the certificates and the position after them.
pub open spec fn spec_read_certs(s: Seq<u8>, pos: int, n: nat) -> Result<
    (Seq<Seq<u8>>, int),
    Error,
>
    decreases n,
{
    if n == 0 {
        Ok((Seq::empty(), pos))
    } else if pos + 3 > s.len() {
        Err(Error::Truncated)
    } else {
        let l = be_val(s.subrange(pos, pos + 3));
        if pos + 3 + l > s.len() {
            Err(Error::Truncated)
        } else {
            match spec_read_certs(s, (pos + 3 + l) as int, (n - 1) as nat) {
                Err(e) => Err(e),
                Ok((rest, p)) => Ok(
                    (seq![s.subrange(pos + 3, (pos + 3 + l) as int)] + rest, p),
                ),
            }
        }
    }
}

/// A certificate chain at `pos`: a `u24` certificate count, then that many
/// length-prefixed certificates.
pub open spec fn spec_read_certificate_chain(s: Seq<u8>, pos: int) -> Result<
    (Seq<Seq<u8>>, int),
    Error,
> {
    if pos + 3 > s.len() {
        Err(Error::Truncated)
    } else {
        spec_read_certs(s, pos + 3, be_val(s.subrange(pos, pos + 3)))
    }
}

/// A pre-cert chain blob: the signed pre-certificate (`u24` length and
/// bytes), then the chain. Trailing bytes are tolerated (outermost
/// boundary).
pub open spec fn spec_read_precert_chain_entry(s: Seq<u8>) -> Result<
    (Seq<u8>, Seq<Seq<u8>>),
    Error,
> {
    if 3 > s.len() {
        Err(Error::Truncated)
    } else {
        let l = be_val(s.subrange(0, 3));
        if 3 + l > s.len() {
            Err(Error::Truncated)
        } else {
            match spec_read_certificate_chain(s, (3 + l) as int) {
                Err(e) => Err(e),
                Ok((chain, p)) => Ok((s.subrange(3, (3 + l) as int), chain)),
            }
        }
    }
}

/// Reads the big-endian 24-bit integer at `pos`. `Ok` exactly when three
/// bytes are available there.
pub fn read_u24(buf: &[u8], pos: usize) -> (r: Result<u32, Error>)
    ensures
        match r {
            Ok(v) => pos + 3 <= buf@.len() && v == be_val(buf@.subrange(pos as int, pos + 3)),
            Err(e) => e == Error::Truncated && pos + 3 > buf@.len(),
        },
{
    let len = buf.len();
    if pos >= len || len - pos < 3 {
        return Err(Error::Truncated);
    }
    let v = crate::encoding::read_be(buf, pos, 3);
    proof {
        lemma_be_val_bound(buf@.subrange(pos as int, pos + 3));
        assert(pow256(3) == 0x1000000) by {
            reveal_with_fuel(pow256, 4);
        }
    }
    Ok(v as u32)
}

/// Reads a certificate chain at `pos`. Returns exactly what
/// [`spec_read_certificate_chain`] denotes, with the position after the
/// chain.
pub fn read_certificate_chain(buf: &[u8], pos: usize) -> (r: Result<(Vec<Vec<u8>>, usize), Error>)
    ensures
        ({
            let sp = spec_read_certificate_chain(buf@, pos as int);
            match r {
                Ok((chain, p)) => sp == Ok::<(Seq<Seq<u8>>, int), Error>(
                    (certs_view(chain@), p as int),
                ) && p <= buf@.len(),
                Err(e) => sp == Err::<(Seq<Seq<u8>>, int), Error>(e),
            }
        }),
{
    let count = match read_u24(buf, pos) {
        Ok(v) => v,
        Err(e) => {
            return Err(e);
        },
    };
    let len = buf.len();
    let mut out: Vec<Vec<u8>> = Vec::new();
    let mut cur = pos + 3;
    let mut k: u32 = 0;
    proof {
        match spec_read_certs(buf@, cur as int, count as nat) {
            Ok((rest, p)) => {
                assert(certs_view(out@) + rest =~= rest);
            },
            Err(_) => {},
        }
    }
    while k < count
        invariant
            len == buf@.len(),
            pos + 3 <= buf@.len(),
            count as nat == be_val(buf@.subrange(pos as int, pos + 3)),
            cur <= buf@.len(),
            k <= count,
            ({
                let sp = spec_read_certs(buf@, cur as int, (count - k) as nat);
                match sp {
                    Ok((rest, p)) => spec_read_certs(buf@, pos + 3, count as nat) == Ok::<
                        (Seq<Seq<u8>>, int),
                        Error,
                    >((certs_view(out@) + rest, p)),
                    Err(e) => spec_read_certs(buf@, pos + 3, count as nat) == Err::<
                        (Seq<Seq<u8>>, int),
                        Error,
                    >(e),
                }
            }),
        decreases count - k,
    {
        let ghost out0 = out@;
        let l = match read_u24(buf, cur) {
            Ok(v) => v,
            Err(e) => {
                return Err(e);
            },
        };
        proof {
            lemma_be_val_bound(buf@.subrange(cur as int, cur + 3));
            assert(pow256(3) == 0x1000000) by {
                reveal_with_fuel(pow256, 4);
            }
        }
        let l_us = l as usize;
        if l_us > len - (cur + 3) {
            return Err(Error::Truncated);
        }
        let cert = read_bytes(buf, cur + 3, l_us);
        out.push(cert);
        proof {
            match spec_read_certs(buf@, cur + 3 + l_us, (count - k - 1) as nat) {
                Ok((rest, p)) => {
                    assert(certs_view(out0) + (seq![buf@.subrange(cur + 3, cur + 3 + l_us)]
                        + rest) =~= certs_view(out@) + rest);
                },
                Err(_) => {},
            }
        }
        cur = cur + 3 + l_us;
        k = k + 1;
    }
    proof {
        assert(certs_view(out@) + Seq::<Seq<u8>>::empty() =~= certs_view(out@));
    }
    Ok((out, cur))
}

/// Reads a pre-cert chain blob: the signed pre-certificate, then its chain.
pub fn read_precert_chain_entry(buf: &[u8]) -> (r: Result<(Vec<u8>, Vec<Vec<u8>>), Error>)
    ensures
        ({
            let sp = spec_read_precert_chain_entry(buf@);
            match r {
                Ok((pc, chain)) => sp == Ok::<(Seq<u8>, Seq<Seq<u8>>), Error>(
                    (pc@, certs_view(chain@)),
                ),
                Err(e) => sp == Err::<(Seq<u8>, Seq<Seq<u8>>), Error>(e),
            }
        }),
{
    let l = match read_u24(buf, 0) {
        Ok(v) => v,
        Err(e) => {
            return Err(e);
        },
    };
    proof {
        lemma_be_val_bound(buf@.subrange(0, 3));
        assert(pow256(3) == 0x1000000) by {
            reveal_with_fuel(pow256, 4);
        }
    }
    let len = buf.len();
    let l_us = l as usize;
    if l_us > len - 3 {
        return Err(Error::Truncated);
    }
    let pre = read_bytes(buf, 3, l_us);
    match read_certificate_chain(buf, 3 + l_us) {
        Err(e) => Err(e),
        Ok((chain, _p)) => Ok((pre, chain)),
    }
}

/// `LogEntryType` in CT 1.0, `VersionedTransType` in CT 2.0. `Other` keeps
/// the raw value of a leaf type this crate does not decode, so that such
/// entries can be recognised and skipped rather than crash a sweep.
#[derive(Clone, Copy, Debug, PartialEq, Eq, Structural)]
pub enum LogEntryType {
    X509Entry,
    PrecertEntry,
    Other(u16),
}

impl LogEntryType {
    pub open spec fn spec_from_u16(t: u16) -> LogEntryType {
        if t == 0 {
            LogEntryType::X509Entry
        } else if t == 1 {
            LogEntryType::PrecertEntry
        } else {
            LogEntryType::Other(t)
        }
    }

    pub fn from_u16(t: u16) -> (r: LogEntryType)
        ensures
            r == LogEntryType::spec_from_u16(t),
    {
        if t == 0 {
            LogEntryType::X509Entry
        } else if t == 1 {
            LogEntryType::PrecertEntry
        } else {
            LogEntryType::Other(t)
        }
    }
}

/// A decoded `extra_data` blob.
pub struct LogEntry {
    pub entry_type: LogEntryType,
    /// The signed pre-certificate of a pre-cert entry; empty for an X.509
    /// entry, whose leaf certificate stands in the `leaf_input` instead.
    pub leaf: Vec<u8>,
    pub chain: Vec<Vec<u8>>,
}

/// Spec-level shape of [`LogEntry`].
pub struct LogEntryV {
    pub entry_type: LogEntryType,
    pub leaf: Seq<u8>,
    pub chain: Seq<Seq<u8>>,
}

impl View for LogEntry {
    type V = LogEntryV;

    open spec fn view(&self) -> LogEntryV {
        LogEntryV { entry_type: self.entry_type, leaf: self.leaf@, chain: self.chain@.map_values(|c: Vec<u8>| c@) }
    }
}

/// The reference reading of an `extra_data` blob for a leaf of the given
/// entry type.
pub open spec fn spec_read_log_entry(entry_type: LogEntryType, s: Seq<u8>) -> Result<
    LogEntryV,
    Error,
> {
    match entry_type {
        LogEntryType::X509Entry => match spec_read_certificate_chain(s, 0) {
            Err(e) => Err(e),
            Ok((chain, p)) => Ok(
                LogEntryV { entry_type, leaf: Seq::empty(), chain },
            ),
        },
        LogEntryType::PrecertEntry => match spec_read_precert_chain_entry(s) {
            Err(e) => Err(e),
            Ok((pc, chain)) => Ok(LogEntryV { entry_type, leaf: pc, chain }),
        },
        LogEntryType::Other(t) => Err(Error::UnknownEntryType(t)),
    }
}

/// Decodes an `extra_data` blob in the shape the leaf's entry type calls
/// for: a certificate chain for an X.509 entry, a pre-certificate then its
/// chain for a pre-cert entry. A leaf type this crate does not know is
/// refused with `UnknownEntryType`.
pub fn read_log_entry(entry_type: LogEntryType, buf: &[u8]) -> (r: Result<LogEntry, Error>)
    ensures
        ({
            let sp = spec_read_log_entry(entry_type, buf@);
            match r {
                Ok(le) => sp == Ok::<LogEntryV, Error>(le@),
                Err(e) => sp == Err::<LogEntryV, Error>(e),
            }
        }),
{
    match entry_type {
        LogEntryType::X509Entry => {
            match read_certificate_chain(buf, 0) {
                Err(e) => Err(e),
                Ok((chain, _p)) => Ok(
                    LogEntry { entry_type, leaf: Vec::new(), chain },
                ),
            }
        },
        LogEntryType::PrecertEntry => {
            match read_precert_chain_entry(buf) {
                Err(e) => Err(e),
                Ok((pc, chain)) => Ok(LogEntry { entry_type, leaf: pc, chain }),
            }
        },
        LogEntryType::Other(t) => Err(Error::UnknownEntryType(t)),
    }
}

/// The wire encoding of a certificate list: each certificate behind its
/// `u24` length.
pub open spec fn spec_encode_certs(certs: Seq<Seq<u8>>) -> Seq<u8>
    decreases certs.len(),
{
    if certs.len() == 0 {
        Seq::empty()
    } else {
        be_bytes(certs[0].len(), 3) + certs[0] + spec_encode_certs(certs.drop_first())
    }
}

/// The wire encoding of a certificate chain: the `u24` count, then the
/// certificates.
pub open spec fn spec_encode_certificate_chain(certs: Seq<Seq<u8>>) -> Seq<u8> {
    be_bytes(certs.len(), 3) + spec_encode_certs(certs)
}

proof fn lemma_certs_round_trip(s: Seq<u8>, pos: int, n: nat)
    requires
        0 <= pos <= s.len(),
    ensures
        spec_read_certs(s, pos, n) matches Ok((certs, p)) ==> {
            &&& certs.len() == n
            &&& pos <= p <= s.len()
            &&& spec_encode_certs(certs) == s.subrange(pos, p)
        },
    decreases n,
{
    match spec_read_certs(s, pos, n) {
        Err(_) => {},
        Ok((certs, p)) => {
            if n == 0 {
                assert(spec_encode_certs(certs) =~= s.subrange(pos, pos));
            } else {
                let l = be_val(s.subrange(pos, pos + 3));
                lemma_be_bytes_of_be_val(s.subrange(pos, pos + 3));
                lemma_certs_round_trip(s, (pos + 3 + l) as int, (n - 1) as nat);
                match spec_read_certs(s, (pos + 3 + l) as int, (n - 1) as nat) {
                    Err(_) => {},
                    Ok((rest, p2)) => {
                        assert(certs.drop_first() =~= rest);
                        assert(certs[0] =~= s.subrange(pos + 3, (pos + 3 + l) as int));
                        assert(spec_encode_certs(certs) =~= s.subrange(pos, p));
                    },
                }
            }
        },
    }
}

/// Chain round trip: an `extra_data` chain the decoder accepts re-encodes
/// to exactly the bytes the decoder consumed.
pub proof fn lemma_certificate_chain_round_trip(s: Seq<u8>, pos: int)
    requires
        0 <= pos,
    ensures
        spec_read_certificate_chain(s, pos) matches Ok((chain, p)) ==> {
            &&& pos <= p <= s.len()
            &&& spec_encode_certificate_chain(chain) == s.subrange(pos, p)
        },
{
    match spec_read_certificate_chain(s, pos) {
        Err(_) => {},
        Ok((chain, p)) => {
            let count = be_val(s.subrange(pos, pos + 3));
            lemma_be_bytes_of_be_val(s.subrange(pos, pos + 3));
            lemma_certs_round_trip(s, pos + 3, count);
            assert(spec_encode_certificate_chain(chain) =~= s.subrange(pos, p));
        },
    }
}

} // verus!
