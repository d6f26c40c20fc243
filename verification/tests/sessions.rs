//! Finding a session.

use plannotator::host::{is_uuid, validate_session_id, HostError};
use plannotator::pi::encoded_dir;
use plannotator::sessions::{
    dirs_in_order, find_transcript, find_transcript_by_id, modified, session_file_in,
    session_files, session_id, Bucket, DirEntry, Lookup, Place, Reading, Search, SessionFile,
    SESSION_FILES,
};
use ruzstd::encoding::{compress_to_vec, CompressionLevel};

const PROJECT: &str = "11111111-1111-4111-8111-111111111111";
const EMPTY: &str = "22222222-2222-4222-8222-222222222222";
const SUBAGENT: &str = "33333333-3333-4333-8333-333333333333";
const LEGACY: &str = "session-44444444-4444-4444-8444-444444444444";

const REPLY: &str = r#"{"type":"assistant/message","seq":3,"data":{"message":{"id":"a1","content":[{"type":"text","text":"first reply"}]}}}"#;

fn frame(text: &str) -> Vec<u8> {
    compress_to_vec(text.as_bytes(), CompressionLevel::Fastest)
}

fn with_reply(depth: u32) -> Vec<u8> {
    frame(&format!("{{\"type\":\"session\",\"delegationDepth\":{depth}}}\n{REPLY}\n"))
}

fn dir(name: &str) -> DirEntry {
    DirEntry { name: name.as_bytes().to_vec(), is_dir: true }
}

fn file(name: &str) -> DirEntry {
    DirEntry { name: name.as_bytes().to_vec(), is_dir: false }
}

/// A session directory with a file of the newest scheme, written at `modified`.
fn reading(modified: u64, transcript: Vec<u8>) -> Reading {
    Reading { is_file: [true, false], modified, transcript: Some(transcript) }
}

#[test]
fn the_newest_session_holding_a_reply_wins_over_later_empty_and_subagent_sessions() {
    // The one opened last is empty, the subagent's is newest of all: neither is the reply.
    let entries = vec![dir(EMPTY), dir(SUBAGENT), dir(PROJECT)];
    let readings = vec![
        reading(80, frame("{\"type\":\"session\"}\n")),
        reading(90, with_reply(1)),
        reading(70, with_reply(0)),
    ];
    let found = find_transcript(&entries, &readings).expect("a session");
    assert_eq!(found, SessionFile { entry: 2, file: 0 });
    assert_eq!(SESSION_FILES[found.file], "session.v3.jsonl.zstd");
    assert_eq!(encoded_dir("/work/project"), "--work-project--", "dsh's own bucket");
}

#[test]
fn a_bucket_without_a_session_yields_nothing() {
    assert_eq!(find_transcript(&vec![], &vec![]), None);
    assert_eq!(find_transcript(&vec![dir(EMPTY)], &vec![]), None);
    let no_file = Reading { is_file: [false, false], modified: 1, transcript: None };
    assert_eq!(find_transcript(&vec![dir(PROJECT)], &vec![no_file]), None);
}

#[test]
fn a_session_is_found_by_the_id_its_directory_carries() {
    let buckets = || vec![dir("--work-project--"), dir("--work-legacy--")];
    let none = [false, false];
    let nowhere = vec![none, none];
    let found = find_transcript_by_id("/work/project", PROJECT, &[true, false], &buckets(), &nowhere)
        .expect("looks");
    assert!(found.is_some_and(|place| SESSION_FILES[place.file] == "session.v3.jsonl.zstd"));
    // A 0.x session keeps the `session-` prefix in its id and its file name.
    assert!(
        find_transcript_by_id("/work/legacy", LEGACY, &[false, true], &buckets(), &nowhere)
            .expect("looks")
            .is_some_and(|place| SESSION_FILES[place.file] == "session.jsonl.zstd")
    );
    assert!(
        find_transcript_by_id(
            "/work/project",
            "99999999-9999-4999-8999-999999999999",
            &none,
            &buckets(),
            &nowhere
        )
        .expect("looks")
        .is_none()
    );
    assert!(
        find_transcript_by_id("/work", "../etc", &none, &buckets(), &nowhere).is_err(),
        "not an id"
    );
}

#[test]
fn a_transcript_names_its_session_by_its_directory() {
    let store = "tests/fixtures/dsh/sessions";
    let project = format!("{store}/--work-project--/{PROJECT}/session.v3.jsonl.zstd");
    assert_eq!(session_id(&project).as_deref(), Some(PROJECT));
    let legacy = format!("{store}/--work-legacy--/{LEGACY}/session.jsonl.zstd");
    assert_eq!(session_id(&legacy).as_deref(), Some(LEGACY));
    let unnamed = format!("{store}/--work-project--/{EMPTY}/session.v3.jsonl.zstd");
    assert_eq!(session_id(&format!("{unnamed}/..")), None, "a name that is not an id");
}

#[test]
fn a_path_is_read_step_by_step() {
    assert_eq!(session_id(&format!("{PROJECT}/file")).as_deref(), Some(PROJECT));
    assert_eq!(session_id(&format!("/{PROJECT}//./file/")).as_deref(), Some(PROJECT));
    assert_eq!(session_id(&format!("session-session-{PROJECT}/file")), None);
    assert_eq!(session_id(&format!("Session-{PROJECT}/file")), None);
    assert_eq!(session_id(PROJECT), None);
    assert_eq!(session_id(""), None);
    assert_eq!(session_id("/"), None);
}

#[test]
fn a_session_in_another_bucket_is_found_by_name_order() {
    let buckets =
        vec![dir("--b--"), file("--a--"), dir("--a--b--"), dir("--c--")];
    let probes = vec![[false, true], [true, true], [true, true], [true, false]];
    let found =
        find_transcript_by_id("/elsewhere", PROJECT, &[false, false], &buckets, &probes).expect("looks");
    assert_eq!(
        found,
        Some(Place { bucket: Bucket::Listed(2), id: PROJECT.to_owned(), file: 0 })
    );
    // The bucket of the working directory comes first.
    let own =
        find_transcript_by_id("/z", PROJECT, &[false, true], &buckets, &probes).expect("looks");
    assert_eq!(
        own,
        Some(Place { bucket: Bucket::Named("--z--".to_owned()), id: PROJECT.to_owned(), file: 1 })
    );
}

#[test]
fn a_lookup_goes_through_the_buckets_one_at_a_time() {
    let mut lookup = Lookup::new("/work/project", PROJECT).expect("an id");
    assert_eq!((lookup.bucket(), lookup.id()), ("--work-project--", PROJECT));
    assert_eq!(lookup.in_own_bucket(&[false, false]), None);
    assert_eq!(lookup.candidate(), None);
    lookup.list(&vec![dir("y"), dir("x"), file("w")]);
    assert_eq!(lookup.candidate(), Some(1));
    assert_eq!(lookup.offer(&[false, false]), None);
    assert_eq!(lookup.candidate(), Some(0));
    let place = lookup.offer(&[true, true]).expect("a file");
    assert_eq!(place, Place { bucket: Bucket::Listed(0), id: PROJECT.to_owned(), file: 0 });
}

#[test]
fn a_search_reads_the_newest_file_first() {
    let mut search = Search::over(&vec![5, 9, 5, 7]);
    let mut order = Vec::new();
    while let Some(file) = search.candidate() {
        order.push(file);
        assert!(!search.offer(None));
    }
    assert_eq!(order, [1, 3, 0, 2]);
    let mut search = Search::over(&vec![1, 2]);
    let bytes = with_reply(0);
    assert!(!search.offer(Some(&b"not zstd at all".to_vec())));
    assert!(search.offer(Some(&bytes)));
    assert_eq!(search.candidate(), Some(0));
}

#[test]
fn sessions_written_at_the_same_time_are_taken_by_name() {
    let bucket = |first: &str, second: &str| {
        let readings = vec![reading(4, with_reply(0)), reading(4, with_reply(0))];
        find_transcript(&vec![dir(first), dir(second)], &readings).expect("a session").entry
    };
    assert_eq!(bucket("a", "b"), 0);
    assert_eq!(bucket("b", "a"), 1);
    assert_eq!(bucket("a", "ab"), 0);
}

#[test]
fn what_is_no_directory_or_does_not_decode_is_passed_over() {
    let entries = vec![file("a"), dir("b"), dir("c"), dir("d")];
    let readings = vec![
        reading(9, with_reply(0)),
        reading(8, b"not zstd at all".to_vec()),
        Reading { is_file: [true, true], modified: 7, transcript: None },
        Reading { is_file: [false, true], modified: 1, transcript: Some(with_reply(0)) },
    ];
    assert_eq!(find_transcript(&entries, &readings), Some(SessionFile { entry: 3, file: 1 }));
}

#[test]
fn a_later_session_with_only_a_prompt_is_passed_over() {
    let prompt = r#"{"type":"user/message","seq":1,"data":{"content":[{"type":"text","text":"q"}]}}"#;
    let prompted = frame(&format!("{{\"type\":\"session\",\"delegationDepth\":0}}\n{prompt}"));
    let readings = vec![reading(9, prompted), reading(1, with_reply(0))];
    let found = find_transcript(&vec![dir("a"), dir("b")], &readings);
    assert_eq!(found, Some(SessionFile { entry: 1, file: 0 }));
}

#[test]
fn the_newest_scheme_names_the_session_file() {
    assert_eq!(session_file_in(&[true, true]), Some(0));
    assert_eq!(session_file_in(&[false, true]), Some(1));
    assert_eq!(session_file_in(&[false, false]), None);
}

#[test]
fn directories_are_listed_by_name() {
    let entries = vec![dir("b"), file("0"), dir("B"), dir("a"), dir("")];
    assert_eq!(dirs_in_order(&entries), [4, 2, 3, 0]);
    let probes = vec![[true, false], [true, false], [false, false], [false, true]];
    assert_eq!(
        session_files(&entries, &probes),
        [SessionFile { entry: 3, file: 1 }, SessionFile { entry: 0, file: 0 }]
    );
}

#[test]
fn an_age_is_kept_in_sixty_four_bits() {
    assert_eq!(modified(None), 0);
    assert_eq!(modified(Some(1_787_938_060_000_000_000)), 1_787_938_060_000_000_000);
    assert_eq!(modified(Some((1 << 64) + 5)), 5);
}

#[test]
fn an_id_that_a_directory_carries_can_be_looked_up() {
    for name in [PROJECT, LEGACY] {
        let id = session_id(&format!("/store/--x--/{name}/session.v3.jsonl.zstd")).expect("an id");
        assert_eq!(validate_session_id(&id), Ok(name));
    }
}

#[test]
fn a_session_id_is_one_plain_path_step() {
    assert_eq!(validate_session_id("a_B-9"), Ok("a_B-9"));
    for id in ["", ".", "..", "../etc", "a/b", "a\\b", "a b", "é"] {
        assert_eq!(validate_session_id(id), Err(HostError::InvalidSessionId(id.to_owned())), "{id}");
    }
    let err = validate_session_id("../etc").expect_err("not an id");
    assert_eq!(err.message(), "not a session id: ../etc");
}

#[test]
fn a_uuid_has_its_hyphens_in_place() {
    assert!(is_uuid("359c0903-747a-4dc8-b70a-6ce63db9d51a"));
    assert!(is_uuid("359C0903-747A-4DC8-B70A-6CE63DB9D51A"));
    assert!(!is_uuid("359c0903-747a-4dc8-b70a-6ce63db9d51"));
    assert!(!is_uuid("359c0903-747a-4dc8-b70a-6ce63db9d51g"));
    assert!(!is_uuid("359c09037-47a-4dc8-b70a-6ce63db9d51a"));
    assert!(!is_uuid("359c0903747a4dc8b70a6ce63db9d51a"));
}
