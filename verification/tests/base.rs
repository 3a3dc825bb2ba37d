//! Texts, identifiers, paths, bytes, pages, digests and error codes.
use std::path::{Component as StdComponent, Path};

use substrate::bytes::{read_le, write_le_u64};
use substrate::digests::{hex_of, Blake3Stream, Sha256Digest};
use substrate::errors::{LaunchError, SubstrateError};
use substrate::ids::{parse_id, to_crockford, JobId, StackId};
use substrate::page::{grant, PageSize};
use substrate::paths;
use substrate::text;

#[test]
fn numbers_are_printed_and_read_in_decimal() {
    for n in [0u64, 7, 10, 99, 100, 1234567890, u64::MAX] {
        assert_eq!(text::decimal_text(n), n.to_string());
        assert_eq!(text::parse_u64(&text::decimal_text(n)), Some(n));
    }
    assert_eq!(text::parse_u64("+5"), Some(5));
    assert_eq!(text::parse_u64("007"), Some(7));
    for bad in ["", "+", "-1", "1a", " 1", "18446744073709551616"] {
        assert_eq!(text::parse_u64(bad), None, "{bad}");
        assert!(bad.parse::<u64>().is_err());
    }
}

#[test]
fn texts_are_joined_and_compared() {
    assert_eq!(text::cat3("a", "→", ""), "a→");
    assert_eq!(text::cat2("x", "y"), "xy");
    assert!(text::same_text("añ", "añ"));
    assert!(!text::same_text("a", "ab"));
    assert_eq!(text::string_of(&text::chars_of("håndtag"), 1, 4), "ånd");
}

#[test]
fn crockford_identifiers_round_trip() {
    assert_eq!(to_crockford(0), "00000000000000000000000000");
    assert_eq!(to_crockford(u128::MAX), "7ZZZZZZZZZZZZZZZZZZZZZZZZZ");
    for n in [0u128, 1, 31, 32, 0x0123_4567_89ab_cdef_0123_4567_89ab_cdef, u128::MAX] {
        assert_eq!(parse_id(&to_crockford(n)), Some(n));
        assert_eq!(StackId::parse(&StackId { raw: n }.to_crockford()), Some(StackId { raw: n }));
        let job = JobId::parse_crockford(&JobId { raw: n }.to_crockford()).expect("job id");
        assert_eq!(job, JobId { raw: n });
    }
    assert_eq!(parse_id("01ARZ3NDEKTSV4RRFFQ69G5FAV").map(to_crockford).as_deref(), Some("01ARZ3NDEKTSV4RRFFQ69G5FAV"));
    // One past the largest identifier, a letter that is no digit, and wrong lengths.
    for bad in ["80000000000000000000000000", "0000000000000000000000000U", "", "0", "000000000000000000000000000"] {
        assert_eq!(parse_id(bad), None, "{bad}");
    }
    assert_eq!(JobId::parse_crockford("nope").expect_err("malformed").code(), "SUBSTRATE_INVALID_ARGUMENT");
}

fn parts_of(path: &[u8]) -> Vec<String> {
    paths::components(path)
        .iter()
        .map(|c| match c {
            paths::Component::RootDir => "/".to_owned(),
            paths::Component::CurDir => ".".to_owned(),
            paths::Component::ParentDir => "..".to_owned(),
            paths::Component::Normal(name) => String::from_utf8_lossy(name).into_owned(),
        })
        .collect()
}

fn std_parts(path: &str) -> Vec<String> {
    Path::new(path)
        .components()
        .map(|c| match c {
            StdComponent::RootDir => "/".to_owned(),
            StdComponent::CurDir => ".".to_owned(),
            StdComponent::ParentDir => "..".to_owned(),
            StdComponent::Normal(name) => name.to_string_lossy().into_owned(),
            StdComponent::Prefix(_) => panic!("no prefixes here"),
        })
        .collect()
}

const PATHS: [&str; 22] = [
    "", "/", "//", ".", "..", "./", "a", "a/", "a//b", "/a", "/a/", "/a/b", "/a/./b", "./a", "a/.", "a/./.", "../a",
    "a/../b", "/..", "/a//b///c/", "./.", "/tmp/some/deep/path/file.txt",
];

#[test]
fn paths_fall_into_the_components_of_std() {
    for p in PATHS {
        assert_eq!(parts_of(p.as_bytes()), std_parts(p), "{p:?}");
        assert_eq!(paths::is_absolute(p.as_bytes()), Path::new(p).is_absolute(), "{p:?}");
        let climbs = Path::new(p).components().any(|c| matches!(c, StdComponent::ParentDir));
        assert_eq!(paths::has_parent_dir(p.as_bytes()), climbs, "{p:?}");
    }
}

#[test]
fn parents_and_names_are_those_of_std() {
    for p in PATHS {
        let parent = paths::parent(p.as_bytes());
        let expected = Path::new(p).parent().map(|d| d.to_string_lossy().into_owned());
        assert_eq!(parent.map(|d| String::from_utf8_lossy(&d).into_owned()), expected, "{p:?}");
        let name = paths::file_name(p.as_bytes());
        let expected = Path::new(p).file_name().map(|d| d.to_string_lossy().into_owned());
        assert_eq!(name.map(|d| String::from_utf8_lossy(&d).into_owned()), expected, "{p:?}");
    }
}

#[test]
fn paths_are_ordered_joined_and_nested_like_std() {
    for p in PATHS {
        for q in PATHS {
            assert_eq!(paths::precedes(p.as_bytes(), q.as_bytes()), Path::new(p) < Path::new(q), "{p:?} {q:?}");
            assert_eq!(paths::starts_with(p.as_bytes(), q.as_bytes()), Path::new(p).starts_with(q), "{p:?} {q:?}");
            let joined = paths::join(p.as_bytes(), q.as_bytes());
            assert_eq!(String::from_utf8_lossy(&joined), Path::new(p).join(q).to_string_lossy(), "{p:?} {q:?}");
        }
    }
    assert!(paths::same_bytes(b"ab", b"ab"));
    assert!(!paths::same_bytes(b"ab", b"a"));
    assert!(paths::bytes_precede(b"a", b"ab"));
    assert_eq!(paths::copy_range(b"abcd", 1, 3), b"bc".to_vec());
}

#[test]
fn numbers_are_written_and_read_lowest_byte_first() {
    assert_eq!(write_le_u64(0x0102), vec![2, 1, 0, 0, 0, 0, 0, 0]);
    for n in [0u64, 1, 255, 256, u64::MAX] {
        assert_eq!(write_le_u64(n), n.to_le_bytes().to_vec());
        assert_eq!(read_le(&write_le_u64(n), 0, 8), n);
    }
    assert_eq!(read_le(&[9, 1, 2], 1, 2), 0x0201);
}

#[test]
fn page_sizes_are_bounded() {
    assert_eq!(PageSize::try_from(1).expect("one").get(), 1);
    assert_eq!(PageSize::try_from(10_000).expect("most").get(), 10_000);
    assert_eq!(PageSize::default().get(), 50);
    for bad in [0u32, 10_001, u32::MAX] {
        let e = PageSize::try_from(bad).expect_err("out of bounds");
        assert_eq!(e.code(), "SUBSTRATE_INVALID_ARGUMENT");
    }
    assert_eq!(grant(None, 50, 500).expect("absent"), 50);
    assert_eq!(grant(Some(7), 50, 500).expect("asked"), 7);
    assert_eq!(grant(Some(900), 50, 500).expect("capped"), 500);
    assert!(grant(Some(0), 50, 500).is_err());
}

#[test]
fn digests_are_those_of_the_algorithms() {
    let mut sha = Sha256Digest::new();
    sha.absorb(b"a");
    sha.absorb(b"bc");
    assert_eq!(
        hex_of(&sha.digest()),
        "ba7816bf8f01cfea414140de5dae2223b00361a396177a9cb410ff61f20015ad"
    );
    let mut b3 = Blake3Stream::new();
    b3.absorb(b"");
    assert_eq!(
        hex_of(&b3.digest()),
        "af1349b9f5f9a1a6a0404dea36dcc9499bcb25c9adc112b7cc9a93cae41f3262"
    );
    let mut pieces = Blake3Stream::new();
    pieces.absorb(b"substrate");
    pieces.absorb(b"-hash-test");
    assert_eq!(pieces.digest(), *blake3::hash(b"substrate-hash-test").as_bytes());
    assert_eq!(hex_of(&[0x00, 0x0f, 0xa5, 0xff]), "000fa5ff");
}

#[test]
fn every_error_has_its_code() {
    let all = [
        (SubstrateError::InvalidArgument { offending_field: String::new(), reason: String::new(), correlation_id: None }, "SUBSTRATE_INVALID_ARGUMENT"),
        (SubstrateError::PathOutsideAllowlist { path: String::new(), correlation_id: None }, "SUBSTRATE_PATH_OUTSIDE_ALLOWLIST"),
        (SubstrateError::SymlinkEscape { path: String::new(), correlation_id: None }, "SUBSTRATE_SYMLINK_ESCAPE"),
        (SubstrateError::SymlinkLoop { path: String::new(), correlation_id: None }, "SUBSTRATE_SYMLINK_LOOP"),
        (SubstrateError::NotFound { resource: String::new(), correlation_id: None }, "SUBSTRATE_NOT_FOUND"),
        (SubstrateError::PermissionDenied { path: String::new(), correlation_id: None }, "SUBSTRATE_PERMISSION_DENIED"),
        (SubstrateError::ResourceLimit { detail: String::new(), correlation_id: None }, "SUBSTRATE_PAYLOAD_TOO_LARGE"),
        (SubstrateError::QuotaExceeded { detail: String::new(), correlation_id: None }, "SUBSTRATE_QUOTA_EXCEEDED"),
        (SubstrateError::JobNotFound { job_id: String::new(), correlation_id: Some(7) }, "SUBSTRATE_JOB_NOT_FOUND"),
    ];
    for (error, code) in all {
        assert_eq!(error.code(), code);
        assert_eq!(error.copied().code(), code);
        assert_eq!(error.copied().correlation_id(), error.correlation_id());
    }
    assert_eq!(
        LaunchError::StackTtlExpired { stack_id: String::new() }.code(),
        "SUBSTRATE_LAUNCH_STACK_TTL_EXPIRED"
    );
    assert_eq!(LaunchError::CycleDetected.code(), "SUBSTRATE_LAUNCH_CYCLE_DETECTED");
}
