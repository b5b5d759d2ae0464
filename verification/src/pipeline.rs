//! Log resolution and the per-entry match pipeline.
//!
//! The directory document is fetched and JSON-decoded by the caller (that
//! is input/output, outside this library); it arrives here as plain
//! [`OperatorList`] records. This module resolves a log by URL, derives
//! its stable identity (SHA-256 of the base64-decoded SPKI) and cache
//! path, and decides single entries in the three modes: download (cache
//! record building), filter (cached entry against the OID list, chain
//! included) and scan (fetched entry against the OID list).

use vstd::prelude::*;

use sha2::Digest;

use crate::cache::{
    RawCtEntry, cache_key, encode_cache_value, spec_cache_key, spec_cache_value,
};
use crate::ct::{
    Entry, EntryV, LogEntryType, parse_timestamped_entry, read_log_entry,
    spec_parse_timestamped_entry, spec_read_log_entry,
};
use crate::der::{
    list_cert_extensions_der, list_pre_cert_extensions_der, oids_view, spec_cert_extensions,
    spec_precert_tbs_extensions,
};
use crate::download::CtEntry;
use crate::encoding::{hex_bytes, hex_lower};
use crate::errors::Error;
use crate::oid::Oid;

verus! {

/// One log of the directory: its human description, its SPKI public key
/// still base64-encoded, and its base URL.
pub struct Log {
    pub description: String,
    pub key: String,
    pub url: String,
}

/// One operator of the directory and its logs.
pub struct Operator {
    pub name: String,
    pub logs: Vec<Log>,
}

/// The flattened-to-be directory: every operator with its logs.
pub struct OperatorList {
    pub operators: Vec<Operator>,
}

/// The first log under `ops`, in directory order, whose URL equals `url`
/// (string equality, no normalisation).
pub open spec fn spec_find_in_logs(logs: Seq<Log>, url: Seq<char>) -> Option<Log>
    decreases logs.len(),
{
    if logs.len() == 0 {
        None
    } else if logs[0].url@ == url {
        Some(logs[0])
    } else {
        spec_find_in_logs(logs.drop_first(), url)
    }
}

/// The first matching log over the operators, in directory order.
pub open spec fn spec_find_in_ops(ops: Seq<Operator>, url: Seq<char>) -> Option<Log>
    decreases ops.len(),
{
    if ops.len() == 0 {
        None
    } else {
        match spec_find_in_logs(ops[0].logs@, url) {
            Some(log) => Some(log),
            None => spec_find_in_ops(ops.drop_first(), url),
        }
    }
}

/// Picks the log whose `url` field equals the input, flattening
/// `operators[*].logs[*]` in directory order; `UnknownLog` when none
/// matches.
pub fn get_matching_log<'a>(list: &'a OperatorList, url: &str) -> (r: Result<&'a Log, Error>)
    ensures
        match r {
            Ok(log) => spec_find_in_ops(list.operators@, url@) == Some(*log),
            Err(e) => e == Error::UnknownLog && spec_find_in_ops(list.operators@, url@)
                is None,
        },
{
    let url_owned: String = url.to_owned();
    let ops = &list.operators;
    let mut i: usize = 0;
    proof {
        assert(ops@.skip(0) =~= ops@);
    }
    while i < ops.len()
        invariant
            ops == &list.operators,
            url_owned@ == url@,
            i <= ops@.len(),
            spec_find_in_ops(ops@.skip(i as int), url@) == spec_find_in_ops(ops@, url@),
        decreases ops@.len() - i,
    {
        let logs = &ops[i].logs;
        let mut j: usize = 0;
        proof {
            assert(logs@.skip(0) =~= logs@);
        }
        while j < logs.len()
            invariant
                ops == &list.operators,
                url_owned@ == url@,
                i < ops@.len(),
                logs == &ops@[i as int].logs,
                j <= logs@.len(),
                spec_find_in_ops(ops@.skip(i as int), url@) == spec_find_in_ops(ops@, url@),
                spec_find_in_logs(logs@.skip(j as int), url@) == spec_find_in_logs(
                    logs@,
                    url@,
                ),
            decreases logs@.len() - j,
        {
            proof {
                assert(logs@.skip(j as int)[0] == logs@[j as int]);
                assert(logs@.skip(j as int).drop_first() =~= logs@.skip(j + 1));
            }
            if logs[j].url == url_owned {
                proof {
                    assert(ops@.skip(i as int)[0] == ops@[i as int]);
                }
                return Ok(&logs[j]);
            }
            j = j + 1;
        }
        proof {
            assert(logs@.skip(logs@.len() as int) =~= Seq::<Log>::empty());
            assert(ops@.skip(i as int)[0] == ops@[i as int]);
            assert(ops@.skip(i as int).drop_first() =~= ops@.skip(i + 1));
        }
        i = i + 1;
    }
    proof {
        assert(ops@.skip(ops@.len() as int) =~= Seq::<Operator>::empty());
    }
    Err(Error::UnknownLog)
}

/// What `base64::decode` makes of a text: `Some` of the decoded bytes
/// when the text is base64 (standard alphabet, padded), `None` when it
/// is not. A function of the text alone.
pub uninterp spec fn b64_decode_of(s: Seq<char>) -> Option<Seq<u8>>;

/// What `base64::encode` returns: the base64 text of the bytes. A
/// function of the bytes alone.
pub uninterp spec fn b64_encode_of(b: Seq<u8>) -> Seq<char>;

/// What SHA-256 digests the input to. A function of the bytes alone.
pub uninterp spec fn sha256_of(b: Seq<u8>) -> Seq<u8>;

/// Relies on `base64::decode`: the standard alphabet with padding;
/// decoding fails exactly on text that is not base64.
#[verifier::external_body]
fn b64_decode(text: &str) -> (r: Option<Vec<u8>>)
    ensures
        ({
            match r {
                Some(v) => b64_decode_of(text@) == Some(v@),
                None => b64_decode_of(text@) is None,
            }
        }),
{
    match base64::decode(text) {
        Ok(v) => Some(v),
        Err(_) => None,
    }
}

/// Relies on `base64::encode`: the standard alphabet with padding.
#[verifier::external_body]
fn b64_encode(bytes: &[u8]) -> (r: String)
    ensures
        r@ == b64_encode_of(bytes@),
{
    base64::encode(bytes)
}

/// Relies on `sha2::Sha256`: the 32-byte SHA-256 digest of the input.
#[verifier::external_body]
fn sha256(bytes: &[u8]) -> (r: Vec<u8>)
    ensures
        r@ == sha256_of(bytes@),
        r@.len() == 32,
{
    let mut hasher = sha2::Sha256::new();
    hasher.update(bytes);
    Vec::from(hasher.finalize().as_slice())
}

/// Relies on `String::from_utf8`: bytes below 128 re-read as text, one
/// character per byte (ASCII never fails UTF-8 validation).
#[verifier::external_body]
fn ascii_to_string(bytes: Vec<u8>) -> (r: String)
    requires
        forall|i: int| 0 <= i < bytes@.len() ==> bytes@[i] < 128,
    ensures
        r@.len() == bytes@.len(),
        forall|i: int| 0 <= i < bytes@.len() ==> r@[i] as u32 == bytes@[i] as u32,
{
    match String::from_utf8(bytes) {
        Ok(s) => s,
        Err(_) => String::new(),
    }
}

/// Derives a log's stable identity: SHA-256 of its base64-decoded SPKI.
/// Fails, with `DirectoryFetch`, exactly when the key is not base64: such
/// a directory record is unusable.
pub fn log_id_from_key(key_b64: &str) -> (r: Result<Vec<u8>, Error>)
    ensures
        ({
            match r {
                Ok(v) => b64_decode_of(key_b64@) matches Some(spki) && v@ == sha256_of(spki)
                    && v@.len() == 32,
                Err(e) => e == Error::DirectoryFetch && b64_decode_of(key_b64@) is None,
            }
        }),
{
    match b64_decode(key_b64) {
        None => Err(Error::DirectoryFetch),
        Some(spki) => Ok(sha256(spki.as_slice())),
    }
}

/// The on-disk database path of a log, as bytes: `db/`, the lowercase hex
/// of the log id, `.db`.
pub open spec fn spec_log_db_path(log_id: Seq<u8>) -> Seq<u8> {
    seq![100u8, 98u8, 47u8] + hex_bytes(log_id) + seq![46u8, 100u8, 98u8]
}

proof fn lemma_hex_bytes_ascii(s: Seq<u8>)
    ensures
        forall|i: int| 0 <= i < hex_bytes(s).len() ==> hex_bytes(s)[i] < 128,
        hex_bytes(s).len() == 2 * s.len(),
    decreases s.len(),
{
    if s.len() > 0 {
        lemma_hex_bytes_ascii(s.drop_last());
    }
}

/// Builds the on-disk database path of a log, `db/{hex(log_id)}.db`.
pub fn log_db_path(log_id: &[u8]) -> (r: String)
    requires
        2 * log_id@.len() + 6 <= usize::MAX,
    ensures
        r@.len() == spec_log_db_path(log_id@).len(),
        forall|i: int|
            0 <= i < r@.len() ==> r@[i] as u32 == spec_log_db_path(log_id@)[i] as u32,
{
    let mut out: Vec<u8> = Vec::new();
    out.push(100);
    out.push(98);
    out.push(47);
    let hex = hex_lower(log_id);
    proof {
        lemma_hex_bytes_ascii(log_id@);
    }
    crate::encoding::append_bytes(&mut out, hex.as_slice());
    out.push(46);
    out.push(100);
    out.push(98);
    proof {
        lemma_hex_bytes_ascii(log_id@);
        assert(out@ =~= spec_log_db_path(log_id@));
        assert forall|i: int| 0 <= i < out@.len() implies out@[i] < 128 by {
            assert(out@[i] == spec_log_db_path(log_id@)[i]);
            if 3 <= i < 3 + hex_bytes(log_id@).len() {
                assert(spec_log_db_path(log_id@)[i] == hex_bytes(log_id@)[i - 3]);
            }
        }
    }
    ascii_to_string(out)
}

/// Whether some extracted OID occurs in the interesting list. Comparison
/// is by arc sequence.
pub open spec fn spec_any_match(oids: Seq<Seq<u64>>, interesting: Seq<Seq<u64>>) -> bool {
    exists|i: int, j: int|
        #![trigger oids[i], interesting[j]]
        0 <= i < oids.len() && 0 <= j < interesting.len() && oids[i] == interesting[j]
}

/// Decides whether any extracted OID is in the interesting list.
pub fn entry_matches(oids: &Vec<Oid>, interesting: &Vec<Oid>) -> (r: bool)
    ensures
        r == spec_any_match(oids_view(oids@), oids_view(interesting@)),
{
    let mut i: usize = 0;
    while i < oids.len()
        invariant
            i <= oids@.len(),
            forall|a: int, b: int|
                #![trigger oids@[a], interesting@[b]]
                0 <= a < i && 0 <= b < interesting@.len() ==> oids@[a]@ != interesting@[b]@,
        decreases oids@.len() - i,
    {
        let mut j: usize = 0;
        while j < interesting.len()
            invariant
                i < oids@.len(),
                j <= interesting@.len(),
                forall|b: int|
                    0 <= b < j ==> oids@[i as int]@ != (#[trigger] interesting@[b])@,
            decreases interesting@.len() - j,
        {
            if oids[i] == interesting[j] {
                proof {
                    assert(oids_view(oids@)[i as int] == oids_view(interesting@)[j as int]);
                }
                return true;
            }
            j = j + 1;
        }
        i = i + 1;
    }
    proof {
        assert forall|a: int, b: int|
            #![trigger oids_view(oids@)[a], oids_view(interesting@)[b]]
            0 <= a < oids_view(oids@).len() && 0 <= b < oids_view(interesting@).len()
            implies oids_view(oids@)[a] != oids_view(interesting@)[b] by {
            assert(oids@[a]@ != interesting@[b]@);
        }
    }
    false
}

/// The match decision on one decoded `leaf_input`, and the certificate
/// bytes it was made on: the leaf is parsed, the extension OIDs of its
/// certificate (X.509 entry) or of its bare TBS (pre-cert entry) are
/// listed, and the entry matches when one of them is interesting.
pub open spec fn spec_leaf_match(leaf: Seq<u8>, interesting: Seq<Seq<u64>>) -> Result<
    (bool, Seq<u8>),
    Error,
> {
    match spec_parse_timestamped_entry(leaf) {
        Err(e) => Err(e),
        Ok(te) => match te.signed_entry {
            EntryV::X509Entry(der) => match spec_cert_extensions(der) {
                Err(e) => Err(e),
                Ok(oids) => Ok((spec_any_match(oids, interesting), der)),
            },
            EntryV::PrecertEntry(kh, der) => match spec_precert_tbs_extensions(der) {
                Err(e) => Err(e),
                Ok(oids) => Ok((spec_any_match(oids, interesting), der)),
            },
        },
    }
}

/// The leaf's entry type as the `extra_data` decoder needs it.
pub open spec fn spec_leaf_entry_type(leaf: Seq<u8>) -> LogEntryType
    recommends
        spec_parse_timestamped_entry(leaf) is Ok,
{
    match spec_parse_timestamped_entry(leaf) {
        Ok(te) => match te.signed_entry {
            EntryV::X509Entry(der) => LogEntryType::X509Entry,
            EntryV::PrecertEntry(kh, der) => LogEntryType::PrecertEntry,
        },
        Err(_) => LogEntryType::Other(0),
    }
}

/// Decides one decoded `leaf_input`. Returns the decision and the
/// certificate bytes it was made on, per [`spec_leaf_match`].
pub fn match_leaf(leaf: &[u8], interesting: &Vec<Oid>) -> (r: Result<(bool, Vec<u8>), Error>)
    ensures
        ({
            let sp = spec_leaf_match(leaf@, oids_view(interesting@));
            match r {
                Ok((m, der)) => sp == Ok::<(bool, Seq<u8>), Error>((m, der@)),
                Err(e) => sp == Err::<(bool, Seq<u8>), Error>(e),
            }
        }),
{
    let te = match parse_timestamped_entry(leaf) {
        Ok(te) => te,
        Err(e) => {
            return Err(e);
        },
    };
    match te.signed_entry {
        Entry::X509Entry(der) => {
            match list_cert_extensions_der(der.as_slice()) {
                Err(e) => Err(e),
                Ok(oids) => Ok((entry_matches(&oids, interesting), der)),
            }
        },
        Entry::PrecertEntry(kh, der) => {
            match list_pre_cert_extensions_der(der.as_slice()) {
                Err(e) => Err(e),
                Ok(oids) => Ok((entry_matches(&oids, interesting), der)),
            }
        },
    }
}

/// A match emission: the matched certificate (or pre-cert TBS) in base64
/// and, in filter mode, each chain certificate in base64.
pub struct MatchRecord {
    pub der_b64: String,
    pub chain_b64: Vec<String>,
}

/// The filter-mode reading of one cached entry: the leaf decides the
/// match exactly as [`spec_leaf_match`] does, the chain comes from the
/// `extra_data` in the shape the leaf's entry type calls for, and a
/// record is emitted only on a match.
pub open spec fn spec_filter_entry(
    leaf: Seq<u8>,
    extra: Seq<u8>,
    interesting: Seq<Seq<u64>>,
) -> Result<Option<(Seq<u8>, Seq<Seq<u8>>)>, Error> {
    match spec_leaf_match(leaf, interesting) {
        Err(e) => Err(e),
        Ok((matched, der)) => match spec_read_log_entry(spec_leaf_entry_type(leaf), extra) {
            Err(e) => Err(e),
            Ok(le) => if matched {
                Ok(Some((der, le.chain)))
            } else {
                Ok(None)
            },
        },
    }
}

/// Encodes every chain certificate in base64.
fn encode_chain(chain: &Vec<Vec<u8>>) -> (r: Vec<String>)
    ensures
        r@.len() == chain@.len(),
        forall|k: int| 0 <= k < r@.len() ==> (#[trigger] r@[k])@ == b64_encode_of(chain@[k]@),
{
    let mut out: Vec<String> = Vec::new();
    let mut k: usize = 0;
    while k < chain.len()
        invariant
            k <= chain@.len(),
            out@.len() == k,
            forall|a: int|
                0 <= a < out@.len() ==> (#[trigger] out@[a])@ == b64_encode_of(chain@[a]@),
        decreases chain@.len() - k,
    {
        out.push(b64_encode(chain[k].as_slice()));
        k = k + 1;
    }
    out
}

/// Filter-mode decision on one cached entry: parse the leaf, list its
/// extension OIDs, decode the chain, and emit a match record exactly when
/// an interesting OID occurs. The chain is decoded whether or not the
/// entry matches, so a malformed `extra_data` always surfaces.
pub fn filter_entry(raw: &RawCtEntry, interesting: &Vec<Oid>) -> (r: Result<
    Option<MatchRecord>,
    Error,
>)
    ensures
        ({
            let sp = spec_filter_entry(raw.leaf_input@, raw.extra_data@, oids_view(interesting@));
            match r {
                Ok(Some(rec)) => sp matches Ok(Some((der, chain))) && rec.der_b64@
                    == b64_encode_of(der) && rec.chain_b64@.len() == chain.len() && (forall|
                    k: int,
                |
                    0 <= k < chain.len() ==> (#[trigger] rec.chain_b64@[k])@ == b64_encode_of(
                        chain[k],
                    )),
                Ok(None) => sp == Ok::<Option<(Seq<u8>, Seq<Seq<u8>>)>, Error>(None),
                Err(e) => sp == Err::<Option<(Seq<u8>, Seq<Seq<u8>>)>, Error>(e),
            }
        }),
{
    let (matched, der) = match match_leaf(raw.leaf_input.as_slice(), interesting) {
        Ok(p) => p,
        Err(e) => {
            return Err(e);
        },
    };
    let te = match parse_timestamped_entry(raw.leaf_input.as_slice()) {
        Ok(te) => te,
        Err(e) => {
            return Err(e);
        },
    };
    let entry_type = match te.signed_entry {
        Entry::X509Entry(_) => LogEntryType::X509Entry,
        Entry::PrecertEntry(_, _) => LogEntryType::PrecertEntry,
    };
    let log_entry = match read_log_entry(entry_type, raw.extra_data.as_slice()) {
        Ok(le) => le,
        Err(e) => {
            return Err(e);
        },
    };
    if matched {
        Ok(
            Some(
                MatchRecord {
                    der_b64: b64_encode(der.as_slice()),
                    chain_b64: encode_chain(&log_entry.chain),
                },
            ),
        )
    } else {
        Ok(None)
    }
}

/// Scan-mode decision on one fetched entry: base64-decode the leaf and
/// decide it as [`spec_leaf_match`] does; nothing is persisted and the
/// chain is not read, so the emitted record carries no chain. An entry
/// whose `leaf_input` is not base64 is a malformed response, reported as
/// `Transport` -- and `Transport` comes only then.
pub fn scan_entry(entry: &CtEntry, interesting: &Vec<Oid>) -> (r: Result<
    Option<MatchRecord>,
    Error,
>)
    ensures
        ({
            match b64_decode_of(entry.leaf_input@) {
                None => r matches Err(e) && e == Error::Transport,
                Some(leaf) => {
                    let sp = spec_leaf_match(leaf, oids_view(interesting@));
                    match r {
                        Ok(Some(rec)) => sp matches Ok((m, der)) && m && rec.der_b64@
                            == b64_encode_of(der) && rec.chain_b64@.len() == 0,
                        Ok(None) => sp matches Ok((m, der)) && !m,
                        Err(e) => sp == Err::<(bool, Seq<u8>), Error>(e),
                    }
                },
            }
        }),
{
    let leaf = match b64_decode(entry.leaf_input.as_str()) {
        Some(v) => v,
        None => {
            return Err(Error::Transport);
        },
    };
    match match_leaf(leaf.as_slice(), interesting) {
        Err(e) => Err(e),
        Ok((matched, der)) => {
            if matched {
                Ok(
                    Some(
                        MatchRecord {
                            der_b64: b64_encode(der.as_slice()),
                            chain_b64: Vec::new(),
                        },
                    ),
                )
            } else {
                Ok(None)
            }
        },
    }
}

/// Download-mode transform of one fetched entry: base64-decode both
/// blobs and build the cache key and value for entry `index`. It fails,
/// with `Transport`, exactly when a blob is not base64 (a malformed
/// response) or the decoded pair is too large to hold in one in-memory
/// value; otherwise the key and value are owed.
pub fn encode_cache_record(index: u64, entry: &CtEntry) -> (r: Result<(Vec<u8>, Vec<u8>), Error>)
    ensures
        ({
            match (b64_decode_of(entry.leaf_input@), b64_decode_of(entry.extra_data@)) {
                (Some(leaf), Some(extra)) => {
                    if leaf.len() + extra.len() + 16 <= usize::MAX {
                        r matches Ok((k, v)) && k@ == spec_cache_key(index) && v@
                            == spec_cache_value(leaf, extra)
                    } else {
                        r matches Err(e) && e == Error::Transport
                    }
                },
                _ => r matches Err(e) && e == Error::Transport,
            }
        }),
{
    let leaf_input = match b64_decode(entry.leaf_input.as_str()) {
        Some(v) => v,
        None => {
            return Err(Error::Transport);
        },
    };
    let extra_data = match b64_decode(entry.extra_data.as_str()) {
        Some(v) => v,
        None => {
            return Err(Error::Transport);
        },
    };
    if extra_data.len() > usize::MAX - 16 || leaf_input.len() > usize::MAX - 16
        - extra_data.len() {
        return Err(Error::Transport);
    }
    let raw = RawCtEntry { leaf_input, extra_data };
    let key = cache_key(index);
    let value = encode_cache_value(&raw);
    Ok((key, value))
}

/// Match determinism: on the same leaf bytes, the filter decision and the
/// scan decision are the one predicate [`spec_leaf_match`]; the cached
/// `extra_data` never influences whether an entry matches, it only
/// supplies the chain of the emission.
pub proof fn lemma_match_determinism(leaf: Seq<u8>, extra: Seq<u8>, interesting: Seq<Seq<u64>>)
    ensures
        spec_filter_entry(leaf, extra, interesting) matches Ok(opt) ==> {
            &&& spec_leaf_match(leaf, interesting) matches Ok(p)
            &&& (opt is Some <==> spec_leaf_match(leaf, interesting)->Ok_0.0)
        },
{
}

} // verus!
