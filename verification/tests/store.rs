//! Tests of the object store: content addressing, the loose-object round
//! trip, malformed-length rejection, the ancestry walker and the
//! materializer.

use wit::error::WitErrorType;
use wit::object::{self, WitObject};
use wit::tree::{Leaf, Tree};

fn blob_object(data: &[u8]) -> WitObject {
    object::build(&b"blob".to_vec(), data.to_vec()).unwrap()
}

#[test]
fn hashing_hello_blob_is_deterministic() {
    let (sha_unpersisted, none) = object::hash(b"hello\n".to_vec(), &b"blob".to_vec(), false)
        .unwrap();
    assert!(none.is_none());
    assert_eq!(sha_unpersisted, "ce013625030ba8dba906f756967f9e9ca394464a");
    let (sha_persisted, some) = object::hash(b"hello\n".to_vec(), &b"blob".to_vec(), true)
        .unwrap();
    assert!(some.is_some());
    assert_eq!(sha_persisted, sha_unpersisted);
}

#[test]
fn loose_path_splits_the_identifier() {
    let (dir, file) = object::loose_path("ce013625030ba8dba906f756967f9e9ca394464a");
    assert_eq!(dir, "ce");
    assert_eq!(file, "013625030ba8dba906f756967f9e9ca394464a");
}

#[test]
fn store_round_trip_all_four_tags() {
    let cases: Vec<(&[u8], Vec<u8>)> = vec![
        (b"blob", b"any payload \x00 with raw bytes".to_vec()),
        (b"commit", b"tree T\nparent P\n\nmessage\n".to_vec()),
        (b"tag", b"object O\ntype commit\n\nnote\n".to_vec()),
        (b"tree", {
            let mut t = b"40000 d\x00".to_vec();
            t.extend_from_slice(&[9u8; 20]);
            t
        }),
    ];
    for (tag, payload) in cases {
        let obj = object::build(&tag.to_vec(), payload.clone()).unwrap();
        let (sha, compressed) = object::write(&obj, true);
        assert_eq!(sha.len(), 40);
        let stored = compressed.unwrap();
        let back = object::read(&stored).unwrap();
        assert_eq!(back.fmt(), obj.fmt());
        assert_eq!(back.serialize(), obj.serialize());
        let (sha_again, _) = object::write(&back, false);
        assert_eq!(sha_again, sha);
    }
}

#[test]
fn compression_actually_shrinks_repetitive_payloads() {
    let payload = vec![b'a'; 4096];
    let obj = blob_object(&payload);
    let (_, compressed) = object::write(&obj, true);
    let stored = compressed.unwrap();
    let mut frame = b"blob 4096\x00".to_vec();
    frame.extend_from_slice(&payload);
    assert_ne!(stored, frame);
    assert!(stored.len() < frame.len());
}

#[test]
fn reading_an_uncompressed_frame_fails() {
    let frame = b"blob 3\x00abc".to_vec();
    let e = object::read(&frame).unwrap_err();
    assert_eq!(e.kind(), WitErrorType::InheritedError);
}

#[test]
fn mismatched_declared_length_is_malformed() {
    let bad = b"blob 5\x00hello\n".to_vec();
    let e = object::read_loose(&bad).unwrap_err();
    assert_eq!(e.kind(), WitErrorType::MalformedObjectError);
    let short = b"blob 7\x00hello\n".to_vec();
    let e2 = object::read_loose(&short).unwrap_err();
    assert_eq!(e2.kind(), WitErrorType::MalformedObjectError);
    let good = b"blob 6\x00hello\n".to_vec();
    let obj = object::read_loose(&good).unwrap();
    assert_eq!(obj.serialize(), b"hello\n".to_vec());
    assert_eq!(obj.fmt(), b"blob".to_vec());
}

#[test]
fn unknown_type_tag_is_rejected() {
    let bad = b"widget 2\x00ab".to_vec();
    let e = object::read_loose(&bad).unwrap_err();
    assert_eq!(e.kind(), WitErrorType::UnknownObjectTypeError);
}

#[test]
fn build_dispatches_on_the_tag() {
    let c = object::build(&b"commit".to_vec(), b"tree T\n\nmsg".to_vec()).unwrap();
    assert_eq!(c.fmt(), b"commit".to_vec());
    let t = object::build(&b"tag".to_vec(), b"object O\n\nmsg".to_vec()).unwrap();
    assert_eq!(t.fmt(), b"tag".to_vec());
    assert!(object::build(&b"banana".to_vec(), Vec::new()).is_err());
}

fn commit_object(text: &[u8]) -> WitObject {
    object::build(&b"commit".to_vec(), text.to_vec()).unwrap()
}

#[test]
fn diamond_history_visits_the_shared_ancestor_once() {
    // A -> B, A -> C, B -> D, C -> D
    let store: Vec<(Vec<u8>, WitObject)> = vec![
        (b"aa".to_vec(), commit_object(b"parent bb\nparent cc\n\ntop\n")),
        (b"bb".to_vec(), commit_object(b"parent dd\n\nleft\n")),
        (b"cc".to_vec(), commit_object(b"parent dd\n\nright\n")),
        (b"dd".to_vec(), commit_object(b"author a\n\nroot\n")),
    ];
    let mut seen: Vec<Vec<u8>> = Vec::new();
    let mut edges: Vec<(Vec<u8>, Vec<u8>)> = Vec::new();
    object::graphviz(&store, b"aa".to_vec(), &mut seen, &mut edges).unwrap();
    assert_eq!(seen, vec![b"aa".to_vec(), b"bb".to_vec(), b"dd".to_vec(), b"cc".to_vec()]);
    assert_eq!(
        edges,
        vec![
            (b"aa".to_vec(), b"bb".to_vec()),
            (b"bb".to_vec(), b"dd".to_vec()),
            (b"aa".to_vec(), b"cc".to_vec()),
            (b"cc".to_vec(), b"dd".to_vec()),
        ]
    );
    // walking again from the top adds nothing: every commit was visited
    let before = seen.clone();
    object::graphviz(&store, b"aa".to_vec(), &mut seen, &mut edges).unwrap();
    assert_eq!(seen, before);
    assert_eq!(edges.len(), 4);
}

#[test]
fn walking_a_non_commit_fails() {
    let store: Vec<(Vec<u8>, WitObject)> = vec![(b"aa".to_vec(), blob_object(b"x"))];
    let mut seen: Vec<Vec<u8>> = Vec::new();
    let mut edges: Vec<(Vec<u8>, Vec<u8>)> = Vec::new();
    let e = object::graphviz(&store, b"aa".to_vec(), &mut seen, &mut edges).unwrap_err();
    assert_eq!(e.kind(), WitErrorType::MalformedObjectError);
    let mut seen2: Vec<Vec<u8>> = Vec::new();
    let mut edges2: Vec<(Vec<u8>, Vec<u8>)> = Vec::new();
    let e2 = object::graphviz(&store, b"zz".to_vec(), &mut seen2, &mut edges2).unwrap_err();
    assert_eq!(e2.kind(), WitErrorType::IOError);
}

#[test]
fn checkout_materializes_nested_tree() {
    let blob_a = blob_object(b"data");
    let blob_b = blob_object(b"x");
    let digest_a = vec![0xaau8; 20];
    let digest_b = vec![0xbbu8; 20];
    let digest_sub = vec![0xccu8; 20];
    let mut subtree = Tree::new();
    subtree.add_leaf(Leaf::new(b"00644".to_vec(), b"b.txt".to_vec(), digest_b.clone()));
    let mut top = Tree::new();
    top.add_leaf(Leaf::new(b"00644".to_vec(), b"a.txt".to_vec(), digest_a.clone()));
    top.add_leaf(Leaf::new(b"40000".to_vec(), b"sub".to_vec(), digest_sub.clone()));
    let store: Vec<(Vec<u8>, WitObject)> = vec![
        (b"aa".repeat(20), blob_a),
        (b"bb".repeat(20), blob_b),
        (b"cc".repeat(20), WitObject::TreeObject(subtree)),
    ];
    let (files, dirs) = object::checkout(&store, &top, &b"/dest".to_vec()).unwrap();
    assert_eq!(
        files,
        vec![
            (b"/dest/a.txt".to_vec(), b"data".to_vec()),
            (b"/dest/sub/b.txt".to_vec(), b"x".to_vec()),
        ]
    );
    assert_eq!(dirs, vec![b"/dest/sub".to_vec()]);
}

#[test]
fn checkout_rejects_a_commit_under_a_tree_leaf() {
    let commit = commit_object(b"tree T\n\nmsg\n");
    let mut top = Tree::new();
    top.add_leaf(Leaf::new(b"00644".to_vec(), b"weird".to_vec(), vec![0xddu8; 20]));
    let store: Vec<(Vec<u8>, WitObject)> = vec![(b"dd".repeat(20), commit)];
    let e = object::checkout(&store, &top, &b"/dest".to_vec()).unwrap_err();
    assert_eq!(e.kind(), WitErrorType::MalformedObjectError);
}

#[test]
fn checkout_fails_on_a_missing_object() {
    let mut top = Tree::new();
    top.add_leaf(Leaf::new(b"00644".to_vec(), b"a".to_vec(), vec![0x01u8; 20]));
    let store: Vec<(Vec<u8>, WitObject)> = Vec::new();
    let e = object::checkout(&store, &top, &b"/dest".to_vec()).unwrap_err();
    assert_eq!(e.kind(), WitErrorType::IOError);
}

#[test]
fn object_deserialize_replaces_content() {
    let mut obj = blob_object(b"old");
    obj.deserialize(&b"new".to_vec()).unwrap();
    assert_eq!(obj.serialize(), b"new".to_vec());
    let mut c = commit_object(b"tree T\n\nm1");
    c.deserialize(&b"tree U\n\nm2".to_vec()).unwrap();
    assert_eq!(c.serialize(), b"tree U\n\nm2".to_vec());
}

#[test]
fn tag_creation_builds_the_record() {
    let (ref_name, target, obj) = wit::tag::create(&b"v1".to_vec(), &b"ee".repeat(20), false);
    assert_eq!(ref_name, b"tags/v1".to_vec());
    assert_eq!(target, b"ee".repeat(20));
    assert!(obj.is_none());

    let sha = b"ee".repeat(20);
    let (ref_name2, target2, obj2) = wit::tag::create(&b"v2".to_vec(), &sha, true);
    assert_eq!(ref_name2, b"tags/v2".to_vec());
    assert_eq!(target2.len(), 40);
    let stored = obj2.unwrap();
    let back = object::read(&stored).unwrap();
    assert_eq!(back.fmt(), b"tag".to_vec());
    let mut expected = b"object ".to_vec();
    expected.extend_from_slice(&sha);
    expected.extend_from_slice(b"\ntype commit\ntag v2\ntagger wit <wit@localhost>\n\nCreated by wit\n");
    assert_eq!(back.serialize(), expected);
}
