//! Tests of the KVLM and tree codecs and of the byte-level utilities.

use wit::kvlm::Kvlm;
use wit::tree::{Leaf, Tree};
use wit::util::{hex, decimal_bytes, decimal_string, parse_dec};

#[test]
fn hex_encodes_every_byte() {
    assert_eq!(hex(&vec![0x00, 0xff, 0x1a]), "00ff1a".to_string());
    assert_eq!(hex(&vec![]), "".to_string());
    let twenty = vec![0xabu8; 20];
    let h = hex(&twenty);
    assert_eq!(h.len(), 40);
    assert_eq!(h, "ab".repeat(20));
}

#[test]
fn tree_sha_keeps_all_twenty_bytes() {
    let mut digest: Vec<u8> = Vec::new();
    for i in 0..20u8 {
        digest.push(i);
    }
    let h = Tree::sha(&digest);
    assert_eq!(h, "000102030405060708090a0b0c0d0e0f10111213");
}

#[test]
fn decimal_renders_and_parses() {
    assert_eq!(decimal_bytes(0), b"0".to_vec());
    assert_eq!(decimal_bytes(1234), b"1234".to_vec());
    assert_eq!(decimal_string(98765), "98765".to_string());
    assert_eq!(parse_dec(b"0"), Some(0));
    assert_eq!(parse_dec(b"123"), Some(123));
    assert_eq!(parse_dec(b""), None);
    assert_eq!(parse_dec(b"12a"), None);
    assert_eq!(parse_dec(b"999999999999999999999999999"), None);
}

#[test]
fn kvlm_parses_fields_and_message() {
    let raw = b"tree T\nparent P\nauthor A <a@b> 0 +0000\n\nmsg\n".to_vec();
    let k = Kvlm::create(&raw, 0);
    assert_eq!(k.fields.len(), 3);
    assert_eq!(k.fields[0].key, b"tree".to_vec());
    assert_eq!(k.fields[0].values, vec![b"T".to_vec()]);
    assert_eq!(k.fields[1].key, b"parent".to_vec());
    assert_eq!(k.fields[1].values, vec![b"P".to_vec()]);
    assert_eq!(k.fields[2].key, b"author".to_vec());
    assert_eq!(k.fields[2].values, vec![b"A <a@b> 0 +0000".to_vec()]);
    assert_eq!(k.message, b"msg\n".to_vec());
    assert_eq!(k.serialize(), raw);
}

#[test]
fn kvlm_joins_continuation_lines() {
    let raw = b"key line one\n line two\n\nbody".to_vec();
    let k = Kvlm::create(&raw, 0);
    assert_eq!(k.fields.len(), 1);
    assert_eq!(k.fields[0].values, vec![b"line one\nline two".to_vec()]);
    assert_eq!(k.message, b"body".to_vec());
    assert_eq!(k.serialize(), raw);
}

#[test]
fn kvlm_groups_repeated_keys_in_order() {
    let raw = b"parent P1\nparent P2\n\nm".to_vec();
    let k = Kvlm::create(&raw, 0);
    assert_eq!(k.fields.len(), 1);
    assert_eq!(k.fields[0].values, vec![b"P1".to_vec(), b"P2".to_vec()]);
    assert_eq!(k.serialize(), raw);
}

#[test]
fn kvlm_field_less_payload_is_message_only() {
    let raw = b"justamessage\nwith lines\n".to_vec();
    let k = Kvlm::create(&raw, 0);
    assert_eq!(k.fields.len(), 0);
    assert_eq!(k.message, raw);
}

#[test]
fn kvlm_final_line_may_lack_a_newline() {
    let raw = b"key value".to_vec();
    let k = Kvlm::create(&raw, 0);
    assert_eq!(k.fields.len(), 1);
    assert_eq!(k.fields[0].key, b"key".to_vec());
    assert_eq!(k.fields[0].values, vec![b"value".to_vec()]);
    assert_eq!(k.message, b"".to_vec());
}

#[test]
fn kvlm_create_can_start_past_a_prefix() {
    let raw = b"XXtree T\n\nm".to_vec();
    let k = Kvlm::create(&raw, 2);
    assert_eq!(k.fields.len(), 1);
    assert_eq!(k.fields[0].key, b"tree".to_vec());
    assert_eq!(k.message, b"m".to_vec());
}

#[test]
fn kvlm_value_with_trailing_newline_round_trips() {
    let mut k = Kvlm::new();
    k.insert(b"note".to_vec(), b"line\n".to_vec());
    k.set_message(b"m".to_vec());
    let wire = k.serialize();
    assert_eq!(wire, b"note line\n \n\nm".to_vec());
    let back = Kvlm::create(&wire, 0);
    assert_eq!(back.fields.len(), 1);
    assert_eq!(back.fields[0].values, vec![b"line\n".to_vec()]);
    assert_eq!(back.message, b"m".to_vec());
}

#[test]
fn kvlm_empty_input_gives_empty_record() {
    let raw: Vec<u8> = Vec::new();
    let k = Kvlm::create(&raw, 0);
    assert_eq!(k.fields.len(), 0);
    assert_eq!(k.message, b"".to_vec());
}

#[test]
fn kvlm_insert_and_get() {
    let mut k = Kvlm::new();
    k.insert(b"tree".to_vec(), b"T".to_vec());
    k.insert(b"parent".to_vec(), b"P1".to_vec());
    k.insert(b"parent".to_vec(), b"P2".to_vec());
    k.set_message(b"hello\n".to_vec());
    assert_eq!(k.get(&b"tree".to_vec()), Some(&vec![b"T".to_vec()]));
    assert_eq!(
        k.get(&b"parent".to_vec()),
        Some(&vec![b"P1".to_vec(), b"P2".to_vec()])
    );
    assert_eq!(k.get(&b"missing".to_vec()), None);
    assert!(k.contains_key(&b"parent".to_vec()));
    assert!(!k.contains_key(&b"committer".to_vec()));
    assert_eq!(k.serialize(), b"tree T\nparent P1\nparent P2\n\nhello\n".to_vec());
}

#[test]
fn tree_round_trips_leaves() {
    let mut tree = Tree::new();
    tree.add_leaf(Leaf::new(b"00644".to_vec(), b"a.txt".to_vec(), vec![0x11u8; 20]));
    tree.add_leaf(Leaf::new(b"100755".to_vec(), b"with space.sh".to_vec(), vec![0x22u8; 20]));
    tree.add_leaf(Leaf::new(b"40000".to_vec(), b"sub".to_vec(), vec![0x33u8; 20]));
    let bytes = tree.serialize();
    let back = Tree::from(&bytes).unwrap();
    let leaves = back.leaves();
    assert_eq!(leaves.len(), 3);
    assert_eq!(leaves[0].mode(), &b"00644".to_vec());
    assert_eq!(leaves[0].path(), &b"a.txt".to_vec());
    assert_eq!(leaves[0].sha(), &vec![0x11u8; 20]);
    assert_eq!(leaves[1].mode(), &b"100755".to_vec());
    assert_eq!(leaves[1].path(), &b"with space.sh".to_vec());
    assert_eq!(leaves[2].path(), &b"sub".to_vec());
    assert_eq!(back.serialize(), bytes);
}

#[test]
fn tree_parse_one_reads_a_single_entry() {
    let mut raw = b"40000 dir\x00".to_vec();
    raw.extend_from_slice(&[7u8; 20]);
    raw.extend_from_slice(b"junk follows");
    let (end, leaf) = Tree::parse_one(&raw, 0).unwrap();
    assert_eq!(end, b"40000 dir\x00".len() + 20);
    assert_eq!(leaf.mode(), &b"40000".to_vec());
    assert_eq!(leaf.path(), &b"dir".to_vec());
    assert_eq!(leaf.sha(), &vec![7u8; 20]);
    assert_eq!(leaf.sha_hex(), "07".repeat(20));
}

#[test]
fn tree_rejects_bad_mode_length() {
    let mut raw = b"1234 p\x00".to_vec();
    raw.extend_from_slice(&[0u8; 20]);
    let e = Tree::parse_one(&raw, 0).unwrap_err();
    assert_eq!(e.kind(), wit::error::WitErrorType::InvalidModeLengthError);
    assert_eq!(e.message, "Invalid mode length: 4");
}

#[test]
fn tree_rejects_truncated_digest() {
    let mut raw = b"40000 p\x00".to_vec();
    raw.extend_from_slice(&[0u8; 10]);
    let e = Tree::parse_one(&raw, 0).unwrap_err();
    assert_eq!(e.kind(), wit::error::WitErrorType::MalformedObjectError);
}

#[test]
fn tree_rejects_entry_without_space() {
    let raw = b"nomodebyte".to_vec();
    let e = Tree::from(&raw).unwrap_err();
    assert_eq!(e.kind(), wit::error::WitErrorType::IOError);
}
