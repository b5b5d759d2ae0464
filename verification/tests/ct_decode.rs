//! The RFC 6962 binary decoder on hand-built wire blobs.

use ct_ext_search::ct::{
    Entry, LogEntryType, parse_timestamped_entry, read_certificate_chain, read_log_entry,
    read_precert_chain_entry, read_u24,
};
use ct_ext_search::errors::Error;

fn x509_leaf(timestamp: u64, cert: &[u8]) -> Vec<u8> {
    let mut leaf = vec![0u8, 0u8];
    leaf.extend_from_slice(&timestamp.to_be_bytes());
    leaf.extend_from_slice(&[0, 0]);
    let len = cert.len() as u32;
    leaf.extend_from_slice(&len.to_be_bytes()[1..]);
    leaf.extend_from_slice(cert);
    leaf.extend_from_slice(&[0, 0]);
    leaf
}

#[test]
fn x509_leaf_decodes() {
    let leaf = x509_leaf(0x0000_0178_9ABC_DEF0, &[0xAA; 5]);
    let te = parse_timestamped_entry(&leaf).unwrap();
    assert_eq!(te.timestamp, 1617503772400);
    match te.signed_entry {
        Entry::X509Entry(der) => assert_eq!(der, vec![0xAA; 5]),
        Entry::PrecertEntry(_, _) => panic!("wrong entry kind"),
    }
    assert!(te.ct_extensions.is_empty());
}

#[test]
fn version_one_is_unsupported() {
    let mut leaf = x509_leaf(0, &[0xAA; 5]);
    leaf[0] = 1;
    assert!(matches!(parse_timestamped_entry(&leaf), Err(Error::UnsupportedLeaf)));
}

#[test]
fn leaf_type_one_is_unsupported() {
    let mut leaf = x509_leaf(0, &[0xAA; 5]);
    leaf[1] = 1;
    assert!(matches!(parse_timestamped_entry(&leaf), Err(Error::UnsupportedLeaf)));
}

#[test]
fn unknown_entry_type_is_reported_with_its_value() {
    let mut leaf = x509_leaf(0, &[0xAA; 5]);
    leaf[11] = 2;
    assert!(matches!(
        parse_timestamped_entry(&leaf),
        Err(Error::UnknownEntryType(2))
    ));
}

#[test]
fn truncated_leaf() {
    let leaf = x509_leaf(7, &[0xAA; 5]);
    assert!(matches!(parse_timestamped_entry(&leaf[..13]), Err(Error::Truncated)));
    assert!(matches!(parse_timestamped_entry(&[]), Err(Error::Truncated)));
}

#[test]
fn trailing_bytes_after_leaf_are_tolerated() {
    let mut leaf = x509_leaf(7, &[0xBB; 3]);
    leaf.extend_from_slice(&[9, 9, 9]);
    let te = parse_timestamped_entry(&leaf).unwrap();
    assert_eq!(te.timestamp, 7);
}

#[test]
fn precert_leaf_decodes() {
    let mut leaf = vec![0u8, 0u8];
    leaf.extend_from_slice(&42u64.to_be_bytes());
    leaf.extend_from_slice(&[0, 1]);
    leaf.extend_from_slice(&[0x11; 32]);
    leaf.extend_from_slice(&[0, 0, 4]);
    leaf.extend_from_slice(&[0xCC; 4]);
    leaf.extend_from_slice(&[0, 2, 0xDE, 0xAD]);
    let te = parse_timestamped_entry(&leaf).unwrap();
    assert_eq!(te.timestamp, 42);
    match te.signed_entry {
        Entry::PrecertEntry(hash, tbs) => {
            assert_eq!(hash, vec![0x11; 32]);
            assert_eq!(tbs, vec![0xCC; 4]);
        },
        Entry::X509Entry(_) => panic!("wrong entry kind"),
    }
    assert_eq!(te.ct_extensions, vec![0xDE, 0xAD]);
}

#[test]
fn read_u24_reads_big_endian() {
    let buf = [0x01, 0x02, 0x03, 0x04];
    assert_eq!(read_u24(&buf, 0), Ok(0x010203));
    assert_eq!(read_u24(&buf, 1), Ok(0x020304));
    assert_eq!(read_u24(&buf, 2), Err(Error::Truncated));
}

fn chain_blob(certs: &[&[u8]]) -> Vec<u8> {
    let mut out = Vec::new();
    let count = certs.len() as u32;
    out.extend_from_slice(&count.to_be_bytes()[1..]);
    for c in certs {
        let len = c.len() as u32;
        out.extend_from_slice(&len.to_be_bytes()[1..]);
        out.extend_from_slice(c);
    }
    out
}

#[test]
fn certificate_chain_of_two() {
    let blob = chain_blob(&[&[1, 2, 3], &[4, 5]]);
    let (chain, after) = read_certificate_chain(&blob, 0).unwrap();
    assert_eq!(chain, vec![vec![1, 2, 3], vec![4, 5]]);
    assert_eq!(after, blob.len());
}

#[test]
fn chain_count_past_buffer_is_truncated() {
    let blob = chain_blob(&[&[1, 2, 3]]);
    let mut bad = blob.clone();
    bad[2] = 2;
    assert!(matches!(read_certificate_chain(&bad, 0), Err(Error::Truncated)));
}

#[test]
fn precert_chain_entry_decodes() {
    let mut blob = vec![0, 0, 4, 0xAB, 0xAB, 0xAB, 0xAB];
    blob.extend_from_slice(&chain_blob(&[&[7, 7]]));
    let (pre, chain) = read_precert_chain_entry(&blob).unwrap();
    assert_eq!(pre, vec![0xAB; 4]);
    assert_eq!(chain, vec![vec![7, 7]]);
}

#[test]
fn log_entry_by_entry_type() {
    let x509_blob = chain_blob(&[&[1], &[2]]);
    let le = read_log_entry(LogEntryType::X509Entry, &x509_blob).unwrap();
    assert_eq!(le.entry_type, LogEntryType::X509Entry);
    assert!(le.leaf.is_empty());
    assert_eq!(le.chain, vec![vec![1], vec![2]]);

    let mut pre_blob = vec![0, 0, 2, 9, 9];
    pre_blob.extend_from_slice(&chain_blob(&[&[3]]));
    let le2 = read_log_entry(LogEntryType::PrecertEntry, &pre_blob).unwrap();
    assert_eq!(le2.leaf, vec![9, 9]);
    assert_eq!(le2.chain, vec![vec![3]]);

    let other = read_log_entry(LogEntryType::Other(5), &x509_blob);
    assert!(matches!(other, Err(Error::UnknownEntryType(5))));
}

#[test]
fn log_entry_type_from_wire_value() {
    assert_eq!(LogEntryType::from_u16(0), LogEntryType::X509Entry);
    assert_eq!(LogEntryType::from_u16(1), LogEntryType::PrecertEntry);
    assert_eq!(LogEntryType::from_u16(77), LogEntryType::Other(77));
}

#[test]
fn reencoding_an_accepted_leaf_reproduces_it() {
    // the exec mirror of the round-trip law: parse, re-assemble, compare
    let leaf = x509_leaf(123456, &[0xAA, 0xBB, 0xCC]);
    let te = parse_timestamped_entry(&leaf).unwrap();
    let der = match &te.signed_entry {
        Entry::X509Entry(der) => der.clone(),
        Entry::PrecertEntry(_, _) => panic!("wrong entry kind"),
    };
    let rebuilt = x509_leaf(te.timestamp, &der);
    assert_eq!(rebuilt, leaf);
}
