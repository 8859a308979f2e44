//! Matching prompts to transcript events, and keeping responses as segments.

use recall::ingest::{
    has_room, ingest_pending, ingest_session, sweep_session, IngestStats, RecentSession, Write,
};
use recall::owner::{resolve_owners, text_agrees, Row};
use recall::segment::Segment;
use recall::transcript::{parse_events, Ev};
use recall::turn::build_turns;

fn events(lines: &[&str]) -> Vec<Ev> {
    let lines: Vec<String> = lines.iter().map(|l| l.to_string()).collect();
    let evs = parse_events(&lines);
    assert_eq!(evs.len(), lines.len());
    evs
}

fn row(id: i64, prompt: &str, created_at: &str, turn_id: Option<&str>, uuid: Option<&str>) -> Row {
    Row {
        id,
        prompt: prompt.to_string(),
        created_at: created_at.to_string(),
        cc_turn_id: turn_id.map(String::from),
        msg_uuid: uuid.map(String::from),
    }
}

fn kinds(segs: &[Segment]) -> Vec<&str> {
    segs.iter().map(|s| s.kind.as_str()).collect()
}

#[test]
fn task_notification_folds_into_the_owning_turn() {
    let evs = events(&[
        r#"{"type":"user","uuid":"u1","promptId":"T1","timestamp":"2026-07-12T00:00:00Z",
            "promptSource":"typed","origin":{"kind":"human"},
            "message":{"content":"작업을 해줘"}}"#,
        r#"{"type":"assistant","uuid":"a1","timestamp":"2026-07-12T00:00:05Z",
            "message":{"content":[{"type":"text","text":"에이전트를 띄웁니다."}]}}"#,
        r#"{"type":"user","uuid":"u2","promptId":"T2","timestamp":"2026-07-12T00:01:00Z",
            "promptSource":"system","origin":{"kind":"task-notification"},
            "message":{"content":"<task-notification>에이전트 완료</task-notification>"}}"#,
        r#"{"type":"assistant","uuid":"a2","timestamp":"2026-07-12T00:01:05Z",
            "message":{"content":[{"type":"text","text":"결과를 반영했습니다."}]}}"#,
    ]);
    let rows = vec![row(100, "작업을 해줘", "2026-07-12T00:00:00", Some("T1"), None)];

    let owners = resolve_owners(&evs, &rows, 0, |_: &str| None);
    assert_eq!(owners.len(), 1);
    assert_eq!(owners[0].match_kind, "exact");

    let turns = build_turns(&evs, &owners);
    assert_eq!(turns.len(), 1, "턴이 갈라졌다");
    let (id, segs) = &turns[0];
    assert_eq!(*id, 100);

    assert_eq!(kinds(segs), vec!["text", "injected", "text"], "접기가 안 됐다");
    assert_eq!(segs[1].name.as_deref(), Some("task-notification"));

    assert!(segs[2].body.contains("결과를 반영했습니다"));
}

#[test]
fn task_notification_row_is_marked_system_and_owns_no_turn() {
    let evs = events(&[
        r#"{"type":"user","uuid":"u1","promptId":"T1","message":{"content":"진짜 프롬프트"}}"#,
        r#"{"type":"user","uuid":"u2","promptId":"T2","origin":{"kind":"task-notification"},
            "message":{"content":"<task-notification>완료</task-notification>"}}"#,
        r#"{"type":"assistant","uuid":"a1",
            "message":{"content":[{"type":"text","text":"이어서 작업"}]}}"#,
    ]);
    let rows = vec![
        row(1, "진짜 프롬프트", "x", Some("T1"), None),
        row(2, "<task-notification>완료", "x", Some("T2"), None),
    ];

    let owners = resolve_owners(&evs, &rows, 0, |_: &str| None);
    assert_eq!(owners.len(), 2);
    assert!(!owners[0].is_system);
    assert!(owners[1].is_system, "task-notification 행이 system 으로 분류되지 않았다");

    let turns = build_turns(&evs, &owners);
    assert_eq!(turns.len(), 1, "system 행이 턴을 소유했다");
    assert_eq!(turns[0].0, 1);
    let bodies: String = turns[0].1.iter().map(|s| s.body.as_str()).collect();
    assert!(bodies.contains("완료"));
    assert!(bodies.contains("이어서 작업"));
}

#[test]
fn slash_command_matches_by_id_not_text() {
    let evs = events(&[r#"{"type":"user","uuid":"u1","promptId":"T9",
        "message":{"content":"<command-name>/memory-cleanup</command-name>"}}"#]);
    let rows = vec![row(7, "/memory-cleanup", "x", Some("T9"), None)];
    let owners = resolve_owners(&evs, &rows, 0, |_: &str| None);
    assert_eq!(owners.len(), 1, "텍스트가 다르다고 놓쳤다");
    assert_eq!(owners[0].match_kind, "exact");
}

#[test]
fn ingest_is_idempotent() {
    let evs = events(&[
        r#"{"type":"user","uuid":"u1","promptId":"T1","message":{"content":"p"}}"#,
        r#"{"type":"assistant","uuid":"a1",
            "message":{"content":[{"type":"text","text":"응답"},{"type":"tool_use","id":"t1","name":"Bash","input":{"command":"ls"}}]}}"#,
    ]);
    let rows = vec![row(1, "p", "x", Some("T1"), None)];
    let a = build_turns(&evs, &resolve_owners(&evs, &rows, 0, |_: &str| None));
    let b = build_turns(&evs, &resolve_owners(&evs, &rows, 0, |_: &str| None));
    assert_eq!(a[0].1.len(), b[0].1.len());
    let keys: Vec<(String, i64)> =
        a[0].1.iter().map(|s| (s.src_uuid.clone(), s.block_idx)).collect();
    let mut uniq = keys.clone();
    uniq.sort();
    uniq.dedup();
    assert_eq!(keys.len(), uniq.len(), "병합 키가 중복된다 — UPSERT 가 세그먼트를 잃는다");
}

#[test]
fn key_that_disagrees_with_text_is_not_trusted() {
    let evs = events(&[r#"{"type":"user","uuid":"u1","promptId":"T1",
        "message":{"content":"전혀 다른 프롬프트입니다 정말로"}}"#]);
    let rows = vec![row(1, "테스트를 고쳐줘 제발", "x", Some("T1"), None)];
    let owners = resolve_owners(&evs, &rows, 0, |_: &str| None);
    assert!(
        owners.is_empty() || owners[0].match_kind == "conflict",
        "키와 텍스트가 어긋나는데 exact 로 붙였다"
    );
}

#[test]
fn queued_prompts_sharing_a_turn_id_get_distinct_events() {
    let evs = events(&[
        r#"{"type":"user","uuid":"u1","promptId":"T1","message":{"content":"첫번째 요청입니다"}}"#,
        r#"{"type":"user","uuid":"u2","promptId":"T1","message":{"content":"두번째 요청입니다"}}"#,
        r#"{"type":"assistant","uuid":"a1",
            "message":{"content":[{"type":"text","text":"둘 다 처리"}]}}"#,
    ]);
    let rows = vec![
        row(1, "첫번째 요청입니다", "x", Some("T1"), None),
        row(2, "두번째 요청입니다", "x", Some("T1"), None),
    ];
    let owners = resolve_owners(&evs, &rows, 0, |_: &str| None);
    assert_eq!(owners.len(), 2, "queued 프롬프트 하나가 사라졌다");
    assert_ne!(owners[0].ev_idx, owners[1].ev_idx, "두 행이 같은 이벤트를 가리킨다");
}

#[test]
fn interrupted_turn_keeps_its_partial_response() {
    let evs = events(&[
        r#"{"type":"user","uuid":"u1","promptId":"T1","message":{"content":"해줘"}}"#,
        r#"{"type":"assistant","uuid":"a1",
            "message":{"content":[{"type":"text","text":"작업 중…"}]}}"#,
        r#"{"type":"user","uuid":"u2","promptId":"T1",
            "message":{"content":[{"type":"text","text":"[Request interrupted by user]"}]}}"#,
    ]);
    let rows = vec![row(1, "해줘", "x", Some("T1"), None)];
    let turns = build_turns(&evs, &resolve_owners(&evs, &rows, 0, |_: &str| None));
    assert_eq!(kinds(&turns[0].1), vec!["text", "interrupt"]);
    assert!(turns[0].1[0].body.contains("작업 중"));
}

#[test]
fn a_conflicting_key_falls_back_and_says_so() {
    let evs = events(&[
        r#"{"type":"user","uuid":"u1","promptId":"T1","message":{"content":"something else entirely, quite long"}}"#,
        r#"{"type":"user","uuid":"u2","promptId":"T2","message":{"content":"fix the tests please, all of them"}}"#,
    ]);
    let rows = vec![row(1, "fix the tests please, all of them", "x", Some("T1"), Some("u2"))];
    let owners = resolve_owners(&evs, &rows, 0, |_: &str| None);
    assert_eq!(owners.len(), 1);
    assert_eq!(owners[0].ev_idx, 1);
    assert_eq!(owners[0].match_kind, "conflict");
}

#[test]
fn uuid_matches_where_there_is_no_key() {
    let evs = events(&[
        r#"{"type":"user","uuid":"u1","message":{"content":"a"}}"#,
        r#"{"type":"user","uuid":"u2","message":{"content":"b"}}"#,
    ]);
    let owners = resolve_owners(&evs, &[row(5, "b", "x", None, Some("u2"))], 0, |_: &str| None);
    assert_eq!(owners.len(), 1);
    assert_eq!((owners[0].row_id, owners[0].ev_idx, owners[0].match_kind), (5, 1, "uuid"));
}

#[test]
fn the_nearest_event_in_the_window_with_the_text_matches() {
    let evs = events(&[
        r#"{"type":"user","uuid":"u1","promptId":"T1","timestamp":"2026-07-12T00:00:02Z","message":{"content":"other words"}}"#,
        r#"{"type":"user","uuid":"u2","promptId":"T2","timestamp":"2026-07-12T00:00:30Z","message":{"content":"build it"}}"#,
        r#"{"type":"user","uuid":"u3","promptId":"T3","timestamp":"2026-07-12T00:00:31Z","message":{"content":"build it"}}"#,
    ]);
    // Local time is nine hours ahead.
    let rows = vec![row(1, "build it", "2026-07-12T09:00:00", None, None)];
    let owners = resolve_owners(&evs, &rows, 32_400, recall::clock::parse_iso_to_epoch);
    assert_eq!(owners.len(), 1);
    assert_eq!((owners[0].ev_idx, owners[0].match_kind), (1, "fuzzy"));

    // Thirty seconds are within the window, thirty-one are not.
    let late = vec![row(1, "build it", "2026-07-11T23:59:32", None, None)];
    let owners = resolve_owners(&evs, &late, 0, recall::clock::parse_iso_to_epoch);
    assert_eq!(owners.len(), 1);
    assert_eq!(owners[0].ev_idx, 0);
    let later = vec![row(1, "build it", "2026-07-11T23:59:31", None, None)];
    assert_eq!(resolve_owners(&evs, &later, 0, recall::clock::parse_iso_to_epoch).len(), 0);
}

#[test]
fn owners_come_in_the_order_of_their_events() {
    let evs = events(&[
        r#"{"type":"user","uuid":"u1","promptId":"T1","message":{"content":"one"}}"#,
        r#"{"type":"user","uuid":"u2","promptId":"T2","message":{"content":"two"}}"#,
    ]);
    let rows = vec![row(1, "two", "x", Some("T2"), None), row(2, "one", "x", Some("T1"), None)];
    let owners = resolve_owners(&evs, &rows, 0, |_: &str| None);
    let found: Vec<(i64, usize)> = owners.iter().map(|o| (o.row_id, o.ev_idx)).collect();
    assert_eq!(found, vec![(2, 0), (1, 1)]);
}

#[test]
fn text_agreement_looks_at_the_beginning() {
    let evs = events(&[r#"{"type":"user","uuid":"u1","message":{"content":"  fix   the tests, then go on with the rest"}}"#]);
    assert!(text_agrees("fix the\ntests, then", &evs[0]));
    assert!(!text_agrees("write the docs", &evs[0]));
}

#[test]
fn a_growing_transcript_extends_the_last_turn() {
    let lines = [
        r#"{"type":"user","uuid":"u1","promptId":"T1","message":{"content":"p"}}"#,
        r#"{"type":"assistant","uuid":"a1","message":{"content":[{"type":"text","text":"one"}]}}"#,
        r#"{"type":"assistant","uuid":"a2","message":{"content":[{"type":"text","text":"two"}]}}"#,
    ];
    let rows = vec![row(1, "p", "x", Some("T1"), None)];
    let before = events(&lines[..2]);
    let after = events(&lines);
    let a = build_turns(&before, &resolve_owners(&before, &rows, 0, |_: &str| None));
    let b = build_turns(&after, &resolve_owners(&after, &rows, 0, |_: &str| None));
    assert_eq!(a[0].1.len(), 1);
    assert_eq!(b[0].1.len(), 2);
    assert_eq!(a[0].1[0].body, b[0].1[0].body);
    assert_eq!(b[0].1[1].body, "two");
}

#[test]
fn collecting_a_session_says_what_to_write() {
    let evs = events(&[
        r#"{"type":"user","uuid":"u1","promptId":"T1","message":{"content":"do it"}}"#,
        r#"{"type":"assistant","uuid":"a1","timestamp":"t","message":{"content":[{"type":"text","text":"Done."},{"type":"tool_use","id":"x","name":"Bash","input":{"command":"ls"}}]}}"#,
        r#"{"type":"user","uuid":"u2","promptId":"T2","origin":{"kind":"task-notification"},"message":{"content":"<task-notification>ok</task-notification>"}}"#,
    ]);
    let rows = vec![
        row(1, "do it", "x", Some("T1"), None),
        row(2, "<task-notification>ok", "x", Some("T2"), None),
        row(3, "never sent", "x", None, None),
    ];
    let mut stats = IngestStats::default();
    let writes = ingest_session(&evs, &rows, 0, |_: &str| None, &mut stats);
    assert_eq!(
        (
            stats.sessions,
            stats.sessions_missing,
            stats.prompts_matched,
            stats.prompts_unresolved,
            stats.segments,
            stats.folded
        ),
        (1, 0, 2, 1, 3, 1)
    );
    assert_eq!(writes.len(), 6);
    match &writes[0] {
        Write::Classify { row_id, kind, match_kind } => {
            assert_eq!((*row_id, *kind, *match_kind), (1, "human", "exact"));
        }
        _ => panic!("a classification comes first"),
    }
    match &writes[1] {
        Write::Classify { row_id, kind, .. } => {
            assert_eq!((*row_id, *kind), (2, "system"));
        }
        _ => panic!("the notification is classified too"),
    }
    match &writes[3] {
        Write::PutSegment { row_id, seq, segment } => {
            assert_eq!((*row_id, *seq), (1, 1));
            assert_eq!(segment.kind, "tool_use");
            assert_eq!(segment.preview, "Bash ls");
            assert_eq!(segment.tool_id.as_deref(), Some("x"));
        }
        _ => panic!("segments come in order"),
    }
    match &writes[5] {
        Write::PutNarrative { row_id, narrative, version } => {
            assert_eq!((*row_id, *version), (1, 1));
            assert_eq!(
                narrative,
                "Done.\n\n[tool: Bash ls]\n\n[백그라운드 작업: <task-notification>ok</task-notification>]"
            );
        },
        _ => panic!("the narrative comes last"),
    }
}

#[test]
fn a_missing_transcript_is_skipped_not_blanked() {
    let rows = vec![row(1, "p", "x", None, None)];
    let mut stats = IngestStats::default();
    assert_eq!(ingest_session(&[], &rows, 0, |_: &str| None, &mut stats).len(), 0);
    assert_eq!((stats.sessions, stats.sessions_missing), (0, 1));
    // With no prompts there is nothing to collect either, and nothing is counted.
    let evs = events(&[r#"{"type":"user","uuid":"u1","message":{"content":"p"}}"#]);
    assert_eq!(ingest_session(&evs, &[], 0, |_: &str| None, &mut stats).len(), 0);
    assert_eq!((stats.sessions, stats.sessions_missing), (0, 1));
}

#[test]
fn sweeping_notes_when_the_transcript_changed() {
    let mut stats = IngestStats::default();
    let writes = sweep_session("s", 17, &[], &[], 0, &mut stats);
    assert_eq!(writes.len(), 1);
    match &writes[0] {
        Write::PutState { session_id, mtime } => assert_eq!((session_id.as_str(), *mtime), ("s", 17)),
        _ => panic!("the time is noted"),
    }
    assert_eq!(sweep_session("s", 0, &[], &[], 0, &mut stats).len(), 0);
}

#[test]
fn only_grown_sessions_are_pending() {
    let session = |id: &str, mtime: Option<i64>, seen: Option<i64>| RecentSession {
        session_id: id.to_string(),
        cwd: "/c".to_string(),
        mtime,
        seen,
    };
    let todo = ingest_pending(&vec![
        session("grown", Some(20), Some(10)),
        session("settled", Some(20), Some(20)),
        session("new", Some(20), None),
        session("gone", Some(0), None),
        session("nowhere", None, None),
    ]);
    let ids: Vec<&str> = todo.iter().map(|t| t.0.as_str()).collect();
    assert_eq!(ids, vec!["grown", "new"]);
    assert_eq!(todo[0].1, "/c");
}

#[test]
fn counts_need_room() {
    let evs = events(&[
        r#"{"type":"assistant","uuid":"a1","message":{"content":[{"type":"text","text":"a"},{"type":"text","text":"b"}]}}"#,
    ]);
    let mut stats = IngestStats::default();
    assert!(has_room(&stats, 3, &evs));
    stats.segments = i64::MAX - 2;
    assert!(has_room(&stats, 3, &evs));
    stats.segments = i64::MAX - 1;
    assert!(!has_room(&stats, 3, &evs));
    stats.segments = 0;
    stats.folded = i64::MAX - 2;
    assert!(!has_room(&stats, 3, &evs));
}
