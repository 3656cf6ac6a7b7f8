//! Tests of reference resolution, the repository handle and configuration,
//! the staging-index reader, and the error builders.

use wit::error::{self, WitErrorType};
use wit::index::{Index, IndexEntry};
use wit::object::Find;
use wit::refs::{self, ResolveStep};
use wit::repository::{Config, Repository, default_config, validate_destination};

#[test]
fn head_chain_resolves_to_the_identifier() {
    let sha = "1234567890abcdef1234567890abcdef12345678";
    let mut main_content = sha.as_bytes().to_vec();
    main_content.push(b'\n');
    let files: Vec<(Vec<u8>, Vec<u8>)> = vec![
        (b"HEAD".to_vec(), b"ref: refs/heads/main\n".to_vec()),
        (b"refs/heads/main".to_vec(), main_content),
    ];
    let resolved = refs::resolve(&files, &b"HEAD".to_vec()).unwrap();
    assert_eq!(resolved, sha.as_bytes().to_vec());
}

#[test]
fn resolve_step_follows_and_terminates() {
    match refs::resolve_step(&b"ref: refs/heads/main\n".to_vec()) {
        ResolveStep::Follow(p) => assert_eq!(p, b"refs/heads/main".to_vec()),
        ResolveStep::Done(_) => panic!("a pointer must be followed"),
    }
    match refs::resolve_step(&b"0000aaaa0000aaaa0000aaaa0000aaaa0000aaaa\n".to_vec()) {
        ResolveStep::Done(s) => {
            assert_eq!(s, b"0000aaaa0000aaaa0000aaaa0000aaaa0000aaaa".to_vec())
        },
        ResolveStep::Follow(_) => panic!("an identifier is terminal"),
    }
}

#[test]
fn missing_ref_and_ref_cycle_are_errors() {
    let files: Vec<(Vec<u8>, Vec<u8>)> = vec![
        (b"a".to_vec(), b"ref: b\n".to_vec()),
        (b"b".to_vec(), b"ref: a\n".to_vec()),
    ];
    let missing = refs::resolve(&files, &b"nowhere".to_vec()).unwrap_err();
    assert_eq!(missing.kind(), WitErrorType::UnknownReferenceError);
    let cycle = refs::resolve(&files, &b"a".to_vec()).unwrap_err();
    assert_eq!(cycle.kind(), WitErrorType::AmbiguousReferenceError);
}

#[test]
fn ref_creation_targets_the_refs_namespace() {
    let (path, content) = refs::create(
        &b"tags/v1".to_vec(),
        &b"1234567890abcdef1234567890abcdef12345678".to_vec(),
    );
    assert_eq!(path, b"refs/tags/v1".to_vec());
    assert_eq!(content, b"1234567890abcdef1234567890abcdef12345678\n".to_vec());
}

#[test]
fn repository_accepts_only_the_supported_version() {
    let repo = Repository::new(&b"/work".to_vec(), false, Some(default_config())).unwrap();
    assert_eq!(repo.worktree, b"/work".to_vec());
    assert_eq!(repo.git_dir, b"/work/.git".to_vec());

    let mut bad = Config::new();
    bad.set(b"core".to_vec(), b"repositoryformatversion".to_vec(), b"1".to_vec());
    let e = Repository::new(&b"/work".to_vec(), false, Some(bad)).unwrap_err();
    assert_eq!(e.kind(), WitErrorType::VersionMismatchError);

    let mut none = Config::new();
    none.set(b"user".to_vec(), b"name".to_vec(), b"x".to_vec());
    let e2 = Repository::new(&b"/work".to_vec(), false, Some(none)).unwrap_err();
    assert_eq!(e2.kind(), WitErrorType::VersionMismatchError);

    let e3 = Repository::new(&b"/work".to_vec(), false, None).unwrap_err();
    assert_eq!(e3.kind(), WitErrorType::RepoCreationError);

    let forced = Repository::new(&b"/work".to_vec(), true, None).unwrap();
    assert_eq!(forced.conf.entries.len(), 0);
}

#[test]
fn repository_path_joins_fragments() {
    let repo = Repository::new(&b"/work".to_vec(), true, None).unwrap();
    let p = Repository::path(
        &repo,
        &vec![b"objects".to_vec(), b"ce".to_vec(), b"0136".to_vec()],
    );
    assert_eq!(p, b"/work/.git/objects/ce/0136".to_vec());
    let root = Repository::path(&repo, &Vec::new());
    assert_eq!(root, b"/work/.git".to_vec());
}

#[test]
fn destination_validation_covers_all_cases() {
    assert_eq!(validate_destination("/d", false, false, true).unwrap(), true);
    assert_eq!(validate_destination("/d", true, true, true).unwrap(), false);
    let not_dir = validate_destination("/d", true, false, true).unwrap_err();
    assert_eq!(not_dir.kind(), WitErrorType::NotADirectoryError);
    assert_eq!(not_dir.message, "/d");
    let full = validate_destination("/d", true, true, false).unwrap_err();
    assert_eq!(full.kind(), WitErrorType::DirectoryNotEmptyError);
    assert_eq!(full.message, "/d");
}

#[test]
fn config_get_returns_the_first_binding() {
    let c = default_config();
    assert_eq!(
        c.get(&b"core".to_vec(), &b"repositoryformatversion".to_vec()),
        Some(&b"0".to_vec())
    );
    assert_eq!(c.get(&b"core".to_vec(), &b"bare".to_vec()), Some(&b"false".to_vec()));
    assert_eq!(c.get(&b"core".to_vec(), &b"missing".to_vec()), None);
}

fn sample_entry_block(path: &[u8]) -> Vec<u8> {
    let mut block: Vec<u8> = Vec::new();
    let fields: [u32; 10] = [
        1000, 500, 2000, 600, 7, 42, 0o100644, 1001, 1002, 11,
    ];
    for f in fields {
        block.extend_from_slice(&f.to_be_bytes());
    }
    block.extend_from_slice(&[0x5au8; 20]);
    block.extend_from_slice(&3u16.to_be_bytes());
    block.extend_from_slice(path);
    block
}

#[test]
fn index_entry_decodes_big_endian_fields() {
    let block = sample_entry_block(b"src/lib.rs");
    let e = IndexEntry::from(&block).unwrap();
    assert_eq!(e.ctime, (1000, 500));
    assert_eq!(e.mtime, (2000, 600));
    assert_eq!(e.dev, 7);
    assert_eq!(e.ino, 42);
    assert_eq!(e.mode, 0o100644);
    assert_eq!(e.uid, 1001);
    assert_eq!(e.gid, 1002);
    assert_eq!(e.size, 11);
    assert_eq!(e.hash, "5a".repeat(20));
    assert_eq!(e.flags, 3);
    assert_eq!(e.file_path, b"src/lib.rs".to_vec());

    let short = vec![0u8; 10];
    let err = IndexEntry::from(&short).unwrap_err();
    assert_eq!(err.kind(), WitErrorType::MalformedObjectError);
}

#[test]
fn index_reads_header_and_entries() {
    let mut raw: Vec<u8> = Vec::new();
    raw.extend_from_slice(b"DIRC");
    raw.extend_from_slice(&2u32.to_be_bytes());
    raw.extend_from_slice(&2u32.to_be_bytes());
    raw.extend_from_slice(&sample_entry_block(b"a.txt"));
    raw.push(0);
    raw.extend_from_slice(&sample_entry_block(b"b/c.txt"));
    raw.push(0);
    let idx = Index::from(&raw).unwrap();
    assert_eq!(idx.signature, b"DIRC".to_vec());
    assert_eq!(idx.version, 2);
    assert_eq!(idx.nindex, 2);
    assert_eq!(idx.entries.len(), 2);
    assert_eq!(idx.entries[0].file_path, b"a.txt".to_vec());
    assert_eq!(idx.entries[1].file_path, b"b/c.txt".to_vec());

    let truncated = raw[..20].to_vec();
    assert!(Index::from(&truncated).is_err());
}

#[test]
fn error_builders_carry_their_kinds() {
    assert_eq!(error::debug_err().kind(), WitErrorType::DebugError);
    assert_eq!(error::io_err("m".to_string()).kind(), WitErrorType::IOError);
    assert_eq!(
        error::repo_creation_err("m".to_string()).kind(),
        WitErrorType::RepoCreationError
    );
    assert_eq!(
        error::version_mismatch_err("m".to_string()).kind(),
        WitErrorType::VersionMismatchError
    );
    assert_eq!(
        error::malformed_object_err("m".to_string()).kind(),
        WitErrorType::MalformedObjectError
    );
    assert_eq!(error::path_conversion_err().kind(), WitErrorType::PathConversionError);
    assert_eq!(error::cli_no_command_err().kind(), WitErrorType::CLINoCommandError);
    assert_eq!(
        error::unknown_object_err("m".to_string()).kind(),
        WitErrorType::UnknownObjectTypeError
    );
    assert_eq!(error::utf8_err("m".to_string()).kind(), WitErrorType::UTF8ConversionError);
    assert_eq!(
        error::repo_not_found_err("m".to_string()).kind(),
        WitErrorType::RepoNotFoundError
    );
    assert_eq!(
        error::ambiguous_reference_err("m".to_string()).kind(),
        WitErrorType::AmbiguousReferenceError
    );
    assert_eq!(
        error::unknown_reference_err("m".to_string()).kind(),
        WitErrorType::UnknownReferenceError
    );
    assert_eq!(
        error::missing_data_err("m".to_string()).kind(),
        WitErrorType::MissingDataError
    );
    assert_eq!(error::not_a_directory_err("/p").kind(), WitErrorType::NotADirectoryError);
    assert_eq!(error::dir_not_empty_err("/p").kind(), WitErrorType::DirectoryNotEmptyError);
    assert_eq!(error::WitError::new(WitErrorType::IOError, "x".to_string()).message, "x");
}

#[test]
fn error_messages_name_their_subject() {
    assert_eq!(
        error::cli_argument_err("file").message,
        "Required argument 'file' was not provided."
    );
    assert_eq!(error::cli_unknown_command_err("frob").message, "Unknown command 'frob'");
    assert_eq!(error::mode_err(4).message, "Invalid mode length: 4");
    assert_eq!(error::not_a_directory_err("/some/path").message, "/some/path");
}

#[test]
fn find_locates_bytes() {
    let v = b"abcabc".to_vec();
    assert_eq!(v.find(b'b').unwrap(), 1);
    assert_eq!(v.find_from(b'b', 2).unwrap(), 4);
    assert_eq!(v.find_some(b'z', 0), None);
    assert_eq!(v.find_signed(b'c', 3), 5);
    assert_eq!(v.find_signed(b'z', 0), -1);
    assert_eq!(v.find_exact(b'a', 1), 3);
    assert!(v.find(b'z').is_err());
}
