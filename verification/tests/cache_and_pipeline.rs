//! The cache byte formats, log resolution, and the match pipeline.

use ct_ext_search::cache::{RawCtEntry, cache_key, decode_cache_value, encode_cache_value};
use ct_ext_search::download::CtEntry;
use ct_ext_search::errors::Error;
use ct_ext_search::oid::{Oid, interesting_oids, name_constraints_oid, poison_oid};
use ct_ext_search::pipeline::{
    Log, Operator, OperatorList, encode_cache_record, entry_matches, filter_entry,
    get_matching_log, log_db_path, log_id_from_key, scan_entry,
};

const SAN_CERT: &[u8] = &[48, 130, 1, 94, 48, 130, 1, 4, 160, 3, 2, 1, 2, 2, 20, 106, 162, 96, 90, 33, 9, 99, 121, 220, 251, 134, 233, 169, 60, 43, 142, 212, 79, 55, 253, 48, 10, 6, 8, 42, 134, 72, 206, 61, 4, 3, 2, 48, 33, 49, 31, 48, 29, 6, 3, 85, 4, 3, 12, 22, 114, 99, 103, 101, 110, 32, 115, 101, 108, 102, 32, 115, 105, 103, 110, 101, 100, 32, 99, 101, 114, 116, 48, 30, 23, 13, 50, 54, 49, 48, 48, 57, 49, 53, 50, 53, 50, 55, 90, 23, 13, 51, 54, 49, 48, 48, 54, 49, 53, 50, 53, 50, 55, 90, 48, 33, 49, 31, 48, 29, 6, 3, 85, 4, 3, 12, 22, 114, 99, 103, 101, 110, 32, 115, 101, 108, 102, 32, 115, 105, 103, 110, 101, 100, 32, 99, 101, 114, 116, 48, 89, 48, 19, 6, 7, 42, 134, 72, 206, 61, 2, 1, 6, 8, 42, 134, 72, 206, 61, 3, 1, 7, 3, 66, 0, 4, 130, 231, 221, 147, 238, 90, 144, 167, 49, 65, 31, 188, 194, 203, 245, 66, 190, 73, 210, 178, 83, 222, 22, 36, 132, 6, 84, 242, 72, 137, 212, 89, 172, 90, 217, 142, 6, 182, 13, 228, 163, 196, 45, 139, 222, 65, 108, 182, 250, 139, 144, 57, 85, 49, 180, 20, 137, 23, 87, 46, 197, 216, 197, 116, 163, 26, 48, 24, 48, 22, 6, 3, 85, 29, 17, 4, 15, 48, 13, 130, 11, 99, 114, 97, 98, 115, 46, 99, 114, 97, 98, 115, 48, 10, 6, 8, 42, 134, 72, 206, 61, 4, 3, 2, 3, 72, 0, 48, 69, 2, 32, 50, 200, 30, 196, 254, 158, 106, 90, 253, 53, 4, 139, 169, 136, 82, 129, 17, 132, 186, 194, 215, 164, 127, 46, 184, 134, 125, 39, 164, 131, 246, 195, 2, 33, 0, 215, 210, 8, 84, 41, 23, 17, 242, 155, 201, 92, 160, 161, 59, 213, 30, 81, 8, 60, 159, 247, 32, 161, 223, 178, 224, 24, 240, 50, 37, 220, 231];

const FOUR_EXT_CERT: &[u8] = &[48, 130, 1, 170, 48, 130, 1, 79, 160, 3, 2, 1, 2, 2, 20, 104, 28, 236, 100, 64, 190, 181, 6, 12, 3, 95, 224, 204, 92, 169, 121, 89, 106, 227, 87, 48, 10, 6, 8, 42, 134, 72, 206, 61, 4, 3, 2, 48, 40, 49, 38, 48, 36, 6, 3, 85, 4, 3, 12, 29, 110, 97, 109, 101, 32, 99, 111, 110, 115, 116, 114, 97, 105, 110, 101, 100, 32, 105, 110, 116, 101, 114, 109, 101, 100, 105, 97, 116, 101, 48, 30, 23, 13, 50, 54, 49, 48, 48, 57, 49, 53, 50, 53, 53, 57, 90, 23, 13, 51, 54, 49, 48, 48, 54, 49, 53, 50, 53, 53, 57, 90, 48, 40, 49, 38, 48, 36, 6, 3, 85, 4, 3, 12, 29, 110, 97, 109, 101, 32, 99, 111, 110, 115, 116, 114, 97, 105, 110, 101, 100, 32, 105, 110, 116, 101, 114, 109, 101, 100, 105, 97, 116, 101, 48, 89, 48, 19, 6, 7, 42, 134, 72, 206, 61, 2, 1, 6, 8, 42, 134, 72, 206, 61, 3, 1, 7, 3, 66, 0, 4, 130, 231, 221, 147, 238, 90, 144, 167, 49, 65, 31, 188, 194, 203, 245, 66, 190, 73, 210, 178, 83, 222, 22, 36, 132, 6, 84, 242, 72, 137, 212, 89, 172, 90, 217, 142, 6, 182, 13, 228, 163, 196, 45, 139, 222, 65, 108, 182, 250, 139, 144, 57, 85, 49, 180, 20, 137, 23, 87, 46, 197, 216, 197, 116, 163, 87, 48, 85, 48, 15, 6, 3, 85, 29, 19, 1, 1, 255, 4, 5, 48, 3, 1, 1, 255, 48, 14, 6, 3, 85, 29, 15, 1, 1, 255, 4, 4, 3, 2, 2, 4, 48, 22, 6, 3, 85, 29, 17, 4, 15, 48, 13, 130, 11, 115, 117, 98, 46, 101, 120, 97, 109, 112, 108, 101, 48, 26, 6, 3, 85, 29, 30, 1, 1, 255, 4, 16, 48, 14, 160, 12, 48, 10, 130, 8, 46, 101, 120, 97, 109, 112, 108, 101, 48, 10, 6, 8, 42, 134, 72, 206, 61, 4, 3, 2, 3, 73, 0, 48, 70, 2, 33, 0, 180, 52, 72, 235, 16, 15, 114, 187, 114, 252, 160, 160, 199, 51, 229, 19, 18, 109, 82, 63, 161, 84, 215, 89, 233, 204, 242, 128, 114, 189, 43, 0, 2, 33, 0, 128, 142, 210, 239, 196, 100, 210, 201, 191, 65, 217, 189, 59, 88, 82, 108, 104, 132, 119, 27, 34, 16, 189, 154, 136, 55, 29, 211, 158, 43, 136, 0];

const FOUR_EXT_PRETBS: &[u8] = &[48, 130, 1, 79, 160, 3, 2, 1, 2, 2, 20, 104, 28, 236, 100, 64, 190, 181, 6, 12, 3, 95, 224, 204, 92, 169, 121, 89, 106, 227, 87, 48, 10, 6, 8, 42, 134, 72, 206, 61, 4, 3, 2, 48, 40, 49, 38, 48, 36, 6, 3, 85, 4, 3, 12, 29, 110, 97, 109, 101, 32, 99, 111, 110, 115, 116, 114, 97, 105, 110, 101, 100, 32, 105, 110, 116, 101, 114, 109, 101, 100, 105, 97, 116, 101, 48, 30, 23, 13, 50, 54, 49, 48, 48, 57, 49, 53, 50, 53, 53, 57, 90, 23, 13, 51, 54, 49, 48, 48, 54, 49, 53, 50, 53, 53, 57, 90, 48, 40, 49, 38, 48, 36, 6, 3, 85, 4, 3, 12, 29, 110, 97, 109, 101, 32, 99, 111, 110, 115, 116, 114, 97, 105, 110, 101, 100, 32, 105, 110, 116, 101, 114, 109, 101, 100, 105, 97, 116, 101, 48, 89, 48, 19, 6, 7, 42, 134, 72, 206, 61, 2, 1, 6, 8, 42, 134, 72, 206, 61, 3, 1, 7, 3, 66, 0, 4, 130, 231, 221, 147, 238, 90, 144, 167, 49, 65, 31, 188, 194, 203, 245, 66, 190, 73, 210, 178, 83, 222, 22, 36, 132, 6, 84, 242, 72, 137, 212, 89, 172, 90, 217, 142, 6, 182, 13, 228, 163, 196, 45, 139, 222, 65, 108, 182, 250, 139, 144, 57, 85, 49, 180, 20, 137, 23, 87, 46, 197, 216, 197, 116, 163, 87, 48, 85, 48, 15, 6, 3, 85, 29, 19, 1, 1, 255, 4, 5, 48, 3, 1, 1, 255, 48, 14, 6, 3, 85, 29, 15, 1, 1, 255, 4, 4, 3, 2, 2, 4, 48, 22, 6, 3, 85, 29, 17, 4, 15, 48, 13, 130, 11, 115, 117, 98, 46, 101, 120, 97, 109, 112, 108, 101, 48, 26, 6, 3, 85, 29, 30, 1, 1, 255, 4, 16, 48, 14, 160, 12, 48, 10, 130, 8, 46, 101, 120, 97, 109, 112, 108, 101];

const FOUR_EXT_CERT_B64: &str = "MIIBqjCCAU+gAwIBAgIUaBzsZEC+tQYMA1/gzFypeVlq41cwCgYIKoZIzj0EAwIwKDEmMCQGA1UEAwwdbmFtZSBjb25zdHJhaW5lZCBpbnRlcm1lZGlhdGUwHhcNMjYxMDA5MTUyNTU5WhcNMzYxMDA2MTUyNTU5WjAoMSYwJAYDVQQDDB1uYW1lIGNvbnN0cmFpbmVkIGludGVybWVkaWF0ZTBZMBMGByqGSM49AgEGCCqGSM49AwEHA0IABILn3ZPuWpCnMUEfvMLL9UK+SdKyU94WJIQGVPJIidRZrFrZjga2DeSjxC2L3kFstvqLkDlVMbQUiRdXLsXYxXSjVzBVMA8GA1UdEwEB/wQFMAMBAf8wDgYDVR0PAQH/BAQDAgIEMBYGA1UdEQQPMA2CC3N1Yi5leGFtcGxlMBoGA1UdHgEB/wQQMA6gDDAKggguZXhhbXBsZTAKBggqhkjOPQQDAgNJADBGAiEAtDRI6xAPcrty/KCgxzPlExJtUj+hVNdZ6czygHK9KwACIQCAjtLvxGTSyb9B2b07WFJsaIR3GyIQvZqINx3TniuIAA==";

fn x509_leaf(timestamp: u64, cert: &[u8]) -> Vec<u8> {
    let mut leaf = vec![0u8, 0u8];
    leaf.extend_from_slice(&timestamp.to_be_bytes());
    leaf.extend_from_slice(&[0, 0]);
    let len = cert.len() as u32;
    leaf.extend_from_slice(&len.to_be_bytes()[1..]);
    leaf.extend_from_slice(cert);
    leaf.extend_from_slice(&[0, 0]);
    leaf
}

fn chain_blob(certs: &[&[u8]]) -> Vec<u8> {
    let mut out = Vec::new();
    let count = certs.len() as u32;
    out.extend_from_slice(&count.to_be_bytes()[1..]);
    for c in certs {
        let len = c.len() as u32;
        out.extend_from_slice(&len.to_be_bytes()[1..]);
        out.extend_from_slice(c);
    }
    out
}

#[test]
fn cache_key_is_kind_byte_then_big_endian_index() {
    let key = cache_key(0x0102030405060708);
    assert_eq!(key, vec![1, 1, 2, 3, 4, 5, 6, 7, 8]);
    assert_eq!(cache_key(7), vec![1, 0, 0, 0, 0, 0, 0, 0, 7]);
}

#[test]
fn keys_sort_like_indices() {
    assert!(cache_key(5) < cache_key(6));
    assert!(cache_key(255) < cache_key(256));
    assert!(cache_key(0x00FF_FFFF) < cache_key(0x0100_0000));
}

#[test]
fn cache_value_round_trip() {
    let entry = RawCtEntry { leaf_input: vec![1, 2, 3, 4, 5], extra_data: vec![9, 8] };
    let value = encode_cache_value(&entry);
    let back = decode_cache_value(&value).unwrap();
    assert_eq!(back.leaf_input, vec![1, 2, 3, 4, 5]);
    assert_eq!(back.extra_data, vec![9, 8]);
}

#[test]
fn empty_entry_round_trips_too() {
    let entry = RawCtEntry { leaf_input: Vec::new(), extra_data: Vec::new() };
    let value = encode_cache_value(&entry);
    assert_eq!(value.len(), 16);
    let back = decode_cache_value(&value).unwrap();
    assert!(back.leaf_input.is_empty() && back.extra_data.is_empty());
}

#[test]
fn truncated_cache_value_is_refused() {
    let entry = RawCtEntry { leaf_input: vec![1, 2, 3], extra_data: vec![4] };
    let value = encode_cache_value(&entry);
    assert!(matches!(decode_cache_value(&value[..value.len() - 1]), Err(Error::Truncated)));
    assert!(matches!(decode_cache_value(&[]), Err(Error::Truncated)));
}

fn directory() -> OperatorList {
    OperatorList {
        operators: vec![
            Operator {
                name: "north".to_string(),
                logs: vec![Log {
                    description: "north log".to_string(),
                    key: "AAAA".to_string(),
                    url: "https://north.example/log/".to_string(),
                }],
            },
            Operator {
                name: "south".to_string(),
                logs: vec![
                    Log {
                        description: "south log one".to_string(),
                        key: "BBBB".to_string(),
                        url: "https://south.example/one/".to_string(),
                    },
                    Log {
                        description: "south log two".to_string(),
                        key: "CCCC".to_string(),
                        url: "https://south.example/two/".to_string(),
                    },
                ],
            },
        ],
    }
}

#[test]
fn matching_log_is_found_by_url() {
    let list = directory();
    let log = get_matching_log(&list, "https://south.example/two/").unwrap();
    assert_eq!(log.description, "south log two");
    assert_eq!(log.key, "CCCC");
}

#[test]
fn unknown_url_is_refused() {
    let list = directory();
    assert!(matches!(
        get_matching_log(&list, "https://nowhere.example/"),
        Err(Error::UnknownLog)
    ));
}

#[test]
fn log_id_is_sha256_of_decoded_key() {
    // base64 "" decodes to the empty byte string, whose SHA-256 is known
    let id = log_id_from_key("").unwrap();
    assert_eq!(id.len(), 32);
    let path = log_db_path(&id);
    assert_eq!(
        path,
        "db/e3b0c44298fc1c149afbf4c8996fb92427ae41e4649b934ca495991b7852b855.db"
    );
}

#[test]
fn key_that_is_not_base64_is_refused() {
    assert!(matches!(log_id_from_key("!!!"), Err(Error::DirectoryFetch)));
}

#[test]
fn oid_lists_intersect_or_not() {
    let interesting = interesting_oids();
    assert_eq!(interesting, vec![name_constraints_oid()]);
    let with_nc = vec![Oid::from_slice(&[2, 5, 29, 19]), name_constraints_oid()];
    let without = vec![Oid::from_slice(&[2, 5, 29, 19]), poison_oid()];
    assert!(entry_matches(&with_nc, &interesting));
    assert!(!entry_matches(&without, &interesting));
    assert!(!entry_matches(&Vec::new(), &interesting));
}

#[test]
fn scan_entry_emits_a_match_for_name_constraints() {
    let leaf = x509_leaf(1, FOUR_EXT_CERT);
    let entry = CtEntry { leaf_input: base64::encode(&leaf), extra_data: String::new() };
    let rec = scan_entry(&entry, &interesting_oids()).unwrap().unwrap();
    assert_eq!(rec.der_b64, FOUR_EXT_CERT_B64);
    assert!(rec.chain_b64.is_empty());
}

#[test]
fn scan_entry_stays_quiet_without_a_match() {
    let leaf = x509_leaf(1, SAN_CERT);
    let entry = CtEntry { leaf_input: base64::encode(&leaf), extra_data: String::new() };
    assert!(scan_entry(&entry, &interesting_oids()).unwrap().is_none());
}

#[test]
fn scan_entry_refuses_text_that_is_not_base64() {
    let entry = CtEntry { leaf_input: "*not base64*".to_string(), extra_data: String::new() };
    assert!(matches!(scan_entry(&entry, &interesting_oids()), Err(Error::Transport)));
}

#[test]
fn download_then_filter_finds_the_same_matches() {
    // one matching and one quiet entry go through the download-mode
    // transform, the cache formats, and the filter-mode decision
    let issuer = SAN_CERT;
    let entries = [
        (0u64, x509_leaf(10, FOUR_EXT_CERT)),
        (1u64, x509_leaf(11, SAN_CERT)),
    ];
    let mut store: Vec<(Vec<u8>, Vec<u8>)> = Vec::new();
    for (index, leaf) in entries.iter() {
        let wire = CtEntry {
            leaf_input: base64::encode(leaf),
            extra_data: base64::encode(&chain_blob(&[issuer])),
        };
        let (key, value) = encode_cache_record(*index, &wire).unwrap();
        assert_eq!(key, cache_key(*index));
        store.push((key, value));
    }

    let interesting = interesting_oids();
    let mut matches: Vec<u64> = Vec::new();
    for (index, (_key, value)) in store.iter().enumerate() {
        let raw = decode_cache_value(value).unwrap();
        if let Some(rec) = filter_entry(&raw, &interesting).unwrap() {
            assert_eq!(rec.der_b64, FOUR_EXT_CERT_B64);
            assert_eq!(rec.chain_b64, vec![base64::encode(issuer)]);
            matches.push(index as u64);
        }
    }
    assert_eq!(matches, vec![0]);

    // scan mode agrees on the set of matched indices
    let mut scan_matches: Vec<u64> = Vec::new();
    for (index, leaf) in entries.iter() {
        let wire = CtEntry { leaf_input: base64::encode(leaf), extra_data: String::new() };
        if scan_entry(&wire, &interesting).unwrap().is_some() {
            scan_matches.push(*index);
        }
    }
    assert_eq!(scan_matches, matches);
}

#[test]
fn filter_surfaces_a_malformed_chain() {
    let wire = CtEntry {
        leaf_input: base64::encode(&x509_leaf(10, FOUR_EXT_CERT)),
        extra_data: base64::encode(&[0u8, 0u8]),
    };
    let (_key, value) = encode_cache_record(3, &wire).unwrap();
    let raw = decode_cache_value(&value).unwrap();
    assert!(matches!(
        filter_entry(&raw, &interesting_oids()),
        Err(Error::Truncated)
    ));
}

fn precert_leaf(timestamp: u64, tbs: &[u8]) -> Vec<u8> {
    let mut leaf = vec![0u8, 0u8];
    leaf.extend_from_slice(&timestamp.to_be_bytes());
    leaf.extend_from_slice(&[0, 1]);
    leaf.extend_from_slice(&[0x42; 32]);
    let len = tbs.len() as u32;
    leaf.extend_from_slice(&len.to_be_bytes()[1..]);
    leaf.extend_from_slice(tbs);
    leaf.extend_from_slice(&[0, 0]);
    leaf
}

#[test]
fn precert_entries_match_through_filter() {
    let leaf = precert_leaf(20, FOUR_EXT_PRETBS);
    let mut extra = Vec::new();
    let pre_len = FOUR_EXT_CERT.len() as u32;
    extra.extend_from_slice(&pre_len.to_be_bytes()[1..]);
    extra.extend_from_slice(FOUR_EXT_CERT);
    extra.extend_from_slice(&chain_blob(&[SAN_CERT]));

    let wire = CtEntry {
        leaf_input: base64::encode(&leaf),
        extra_data: base64::encode(&extra),
    };
    let (_key, value) = encode_cache_record(9, &wire).unwrap();
    let raw = decode_cache_value(&value).unwrap();
    let rec = filter_entry(&raw, &interesting_oids()).unwrap().unwrap();
    assert_eq!(rec.der_b64, base64::encode(FOUR_EXT_PRETBS));
    assert_eq!(rec.chain_b64, vec![base64::encode(SAN_CERT)]);
}

#[test]
fn precert_entries_match_through_scan() {
    let leaf = precert_leaf(20, FOUR_EXT_PRETBS);
    let wire = CtEntry { leaf_input: base64::encode(&leaf), extra_data: String::new() };
    let rec = scan_entry(&wire, &interesting_oids()).unwrap().unwrap();
    assert_eq!(rec.der_b64, base64::encode(FOUR_EXT_PRETBS));
}
