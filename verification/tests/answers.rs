//! Responses as plain text, fetched by hand.

use recall::answer::{
    build_session_index, build_user_turns, extract_response_by_uuid, extract_response_from_jsonl,
    fetch_response, get_response, has_turn, learned_uuid, recover_response, resolve_uuid,
    stored_response, user_typed_text, Fetched, LoggedPrompt, Recovered, ResponseStep, UserTurn,
};
use recall::batch::{
    group_by_session, judge, refetch_all_responses, refetch_session, tally, BatchFetchResult, Lookup,
    Refetch, RefetchStep, StoredPrompt,
};
use recall::json::{parse_json, parse_lines, Json};

fn lines() -> Vec<String> {
    [
        r#"{"type":"user","uuid":"u1","timestamp":"2026-07-12T00:00:00Z","message":{"content":"first  prompt"}}"#,
        r#"{"type":"assistant","message":{"content":[{"type":"text","text":"one"},{"type":"tool_use","name":"Bash"},{"type":"text","text":"two"},{"type":"tool_use"}]}}"#,
        r#"{"type":"user","uuid":"r1","message":{"content":[{"type":"tool_result","content":"out"}]}}"#,
        r#"{"type":"user","uuid":"m1","isMeta":true,"message":{"content":"injected"}}"#,
        r#"{"type":"assistant","message":{"content":[{"type":"text","text":"three"}]}}"#,
        r#"{"type":"user","uuid":"u2","timestamp":"2026-07-12T00:00:20Z","message":{"content":[{"type":"text","text":"second"},{"type":"image"}]}}"#,
        r#"{"type":"assistant","message":{"content":[{"type":"text","text":"  "}]}}"#,
        r#"{"type":"user","uuid":"u3","timestamp":"2026-07-12T00:10:00Z","message":{"content":"third"}}"#,
        r#"{"type":"assistant","message":{"content":[{"type":"text","text":"last"}]}}"#,
    ]
    .iter()
    .map(|s| s.to_string())
    .collect()
}

fn values() -> Vec<Json> {
    parse_lines(&lines())
}

const FIRST: &str = "one\n[tool: Bash]\n\ntwo\n[tool: ?]\n\nthree";

#[test]
fn typed_text_is_what_was_typed() {
    let typed = |text: &str| user_typed_text(&parse_json(text).unwrap());
    assert_eq!(typed(r#"{"type":"user","message":{"content":"x"}}"#), Some("x".to_string()));
    assert_eq!(
        typed(r#"{"type":"user","message":{"content":[{"type":"text","text":"a"},{"type":"image"},{"type":"tool_result"}]}}"#),
        Some("a\n[Image]".to_string())
    );
    assert_eq!(typed(r#"{"type":"user","message":{"content":[]}}"#), Some(String::new()));
    assert_eq!(typed(r#"{"type":"user","message":{"content":[{"type":"tool_result"}]}}"#), None);
    assert_eq!(typed(r#"{"type":"user","isMeta":true,"message":{"content":"x"}}"#), None);
    assert_eq!(typed(r#"{"type":"user","isSidechain":true,"message":{"content":"x"}}"#), None);
    assert_eq!(typed(r#"{"type":"assistant","message":{"content":"x"}}"#), None);
    assert_eq!(typed(r#"{"type":"user","message":{}}"#), None);
    assert_eq!(typed(r#"{"type":"user","message":{"content":3}}"#), None);
}

#[test]
fn turns_have_uuid_time_and_text() {
    let turns = build_user_turns(&values());
    let seen: Vec<(&str, i64, &str)> =
        turns.iter().map(|t| (t.uuid.as_str(), t.epoch, t.text.as_str())).collect();
    assert_eq!(
        seen,
        vec![
            ("u1", 1_783_814_400, "first  prompt"),
            ("u2", 1_783_814_420, "second\n[Image]"),
            ("u3", 1_783_815_000, "third"),
        ]
    );
    let bare = parse_lines(&vec![
        r#"{"type":"user","message":{"content":"no uuid"}}"#.to_string(),
        r#"{"type":"user","uuid":"x","message":{"content":"no time"}}"#.to_string(),
    ]);
    let turns = build_user_turns(&bare);
    assert_eq!(turns.len(), 1);
    assert_eq!((turns[0].uuid.as_str(), turns[0].epoch), ("x", 0));
}

#[test]
fn the_index_agrees_with_extraction() {
    let all = values();
    let index = build_session_index(&all);
    assert_eq!(index.turns.len(), 3);
    for uuid in ["u1", "u2", "u3"] {
        assert_eq!(
            index.response(uuid).map(String::from),
            extract_response_by_uuid(&all, uuid),
            "{uuid}"
        );
    }
    assert_eq!(index.response("u1"), Some(FIRST));
    assert_eq!(index.response("r1"), None);
}

#[test]
fn extraction_by_uuid_reaches_to_the_next_prompt() {
    let all = values();
    assert_eq!(extract_response_by_uuid(&all, "u1").as_deref(), Some(FIRST));
    assert_eq!(extract_response_by_uuid(&all, "r1").as_deref(), Some("three"));
    assert_eq!(extract_response_by_uuid(&all, "u3").as_deref(), Some("last"));
    assert_eq!(extract_response_by_uuid(&all, "zz"), None);
}

#[test]
fn extraction_by_text_takes_the_first_that_is_alike() {
    let all = values();
    assert_eq!(extract_response_from_jsonl(&all, "first prompt").as_deref(), Some(FIRST));
    assert_eq!(extract_response_from_jsonl(&all, " first").as_deref(), Some(FIRST));
    assert_eq!(extract_response_from_jsonl(&all, "third, and more").as_deref(), Some("last"));
    assert_eq!(extract_response_from_jsonl(&all, "fourth"), None);
    assert_eq!(extract_response_from_jsonl(&all, "  "), None);
}

fn turn(uuid: &str, epoch: i64, text: &str) -> UserTurn {
    UserTurn { uuid: uuid.to_string(), epoch, text: text.to_string() }
}

#[test]
fn the_nearest_turn_that_starts_alike_is_resolved() {
    let base = 1_783_814_400;
    let turns = vec![
        turn("near", base + 1, "other"),
        turn("alike", base - 20, "the prompt that was typed long ago"),
        turn("far", base + 31, "the prompt that was typed"),
    ];
    let at = "2026-07-12T00:00:00";
    let prompt = "the prompt that  was typed then";
    assert_eq!(resolve_uuid(&turns, at, prompt, 0).as_deref(), Some("alike"));
    assert_eq!(resolve_uuid(&turns, at, "something else", 0).as_deref(), Some("near"));
    assert_eq!(resolve_uuid(&turns, at, "", 0).as_deref(), Some("near"));
    assert_eq!(resolve_uuid(&turns, at, prompt, 3600), None);
    assert_eq!(resolve_uuid(&turns, "no time", prompt, 0), None);
    let tie = vec![turn("a", base + 5, "x"), turn("b", base - 5, "x")];
    assert_eq!(resolve_uuid(&tie, at, "y", 0).as_deref(), Some("a"));
}

fn uuid_of(r: &Option<Recovered>) -> Option<&str> {
    r.as_ref().and_then(|x| x.uuid.as_deref())
}

#[test]
fn recovery_tries_uuid_then_time_then_text() {
    let all = values();
    let at = "2026-07-12T00:00:00";
    let kept = recover_response(&all, "zzz", "x", &Some("u1".to_string()), 0);
    assert_eq!(kept.as_ref().map(|r| r.response.as_str()), Some(FIRST));
    assert_eq!(uuid_of(&kept), Some("u1"));
    let timed = recover_response(&all, "first prompt", at, &Some("gone".to_string()), 0);
    assert_eq!(timed.as_ref().map(|r| r.response.as_str()), Some(FIRST));
    assert_eq!(uuid_of(&timed), Some("u1"));
    let texted = recover_response(&all, "third", "x", &None, 0);
    assert_eq!(texted.as_ref().map(|r| r.response.as_str()), Some("last"));
    assert_eq!(uuid_of(&texted), None);
    // A reply of nothing but white space is none.
    assert!(recover_response(&all, "second", "2026-07-12T00:00:20", &None, 0).is_none());
}

fn logged(session_id: Option<&str>, cwd: Option<&str>, uuid: Option<&str>) -> LoggedPrompt {
    LoggedPrompt {
        session_id: session_id.map(String::from),
        cwd: cwd.map(String::from),
        prompt: "first prompt".to_string(),
        created_at: "2026-07-12T00:00:00".to_string(),
        msg_uuid: uuid.map(String::from),
    }
}

#[test]
fn fetching_says_why_it_cannot_tell() {
    let all = lines();
    let why = |row: &LoggedPrompt, t: Option<&Vec<String>>| match fetch_response(row, t, 0) {
        Err(why) => why,
        Ok(_) => panic!("an error was expected"),
    };
    assert_eq!(why(&logged(None, None, None), Some(&all)), "session_id가 없어 JSONL을 찾을 수 없음");
    assert_eq!(why(&logged(Some("s"), None, None), Some(&all)), "cwd가 없어 JSONL을 찾을 수 없음");
    assert_eq!(
        why(&logged(Some("s"), Some("/c"), None), None),
        "JSONL 파일이 없음 (session_id=s, cwd=/c)"
    );
    let found = fetch_response(&logged(Some("s"), Some("/c"), None), Some(&all), 0);
    assert_eq!(judge(&found), Lookup::Recovered);
    assert_eq!(found.unwrap().response().unwrap().response, FIRST);
    assert_eq!(judge(&Err("x".to_string())), Lookup::Unknown);
}

#[test]
fn an_empty_turn_is_told_from_a_missing_one() {
    let told = |row: &LoggedPrompt, lines: &Vec<String>| {
        let values = parse_lines(lines);
        let fetched = fetch_response(row, Some(lines), 0).unwrap();
        let found = has_turn(&values, row, 0);
        match fetched {
            Fetched::Response(_) => panic!("there is no response"),
            Fetched::Empty => assert!(found),
            Fetched::NoTurn => assert!(!found),
        }
        found
    };
    let row = |uuid: Option<&str>| logged(Some("s"), Some("/c"), uuid);
    let line = |text: &str| vec![text.to_string()];
    // Nothing in the transcript is the prompt.
    assert!(!told(&row(None), &vec![]));
    let other = line(r#"{"type":"user","uuid":"u","timestamp":"2026-07-12T00:05:00Z","message":{"content":"other"}}"#);
    assert!(!told(&row(None), &other));
    assert!(!told(&row(Some("gone")), &other));
    // The turn is there by uuid, by time, or by text.
    assert!(told(&row(Some("u")), &other));
    assert!(told(&row(None), &line(r#"{"type":"user","uuid":"u","timestamp":"2026-07-12T00:00:30Z","message":{"content":"other"}}"#)));
    assert!(told(&row(None), &line(r#"{"type":"user","message":{"content":"first prompt, and more"}}"#)));
    assert_eq!(judge(&fetch_response(&row(None), Some(&other), 0)), Lookup::Unmatched);
    assert_eq!(judge(&fetch_response(&row(Some("u")), Some(&other), 0)), Lookup::Absent);
}

#[test]
fn a_uuid_is_learned_once() {
    let found = Recovered { response: "r".to_string(), uuid: Some("u1".to_string()) };
    assert_eq!(learned_uuid(&logged(None, None, None), &found).as_deref(), Some("u1"));
    assert_eq!(learned_uuid(&logged(None, None, Some("")), &found).as_deref(), Some("u1"));
    assert_eq!(learned_uuid(&logged(None, None, Some("u9")), &found), None);
}

#[test]
fn responses_come_from_where_they_are() {
    let some = |s: &str| Some(s.to_string());
    match get_response(None, Some((some("r"), "t".to_string())), some("c")) {
        ResponseStep::Show(p) => {
            assert_eq!((p.response.as_str(), p.fetched_at.as_str(), p.source.as_str()), ("r", "t", "saved"));
        }
        _ => panic!("a stored response is shown"),
    }
    assert!(matches!(
        get_response(Some(false), Some((None, "t".to_string())), some("c")),
        ResponseStep::Adopt(c) if c == "c"
    ));
    assert!(matches!(get_response(None, None, None), ResponseStep::Recover));
    assert!(matches!(
        get_response(Some(true), Some((some("r"), "t".to_string())), some("c")),
        ResponseStep::Recover
    ));
    assert_eq!(stored_response("r".to_string(), "now".to_string()).source, "saved");
}

fn stored(id: i64, cwd: &str, session_id: &str, prompt: &str, at: &str, uuid: Option<&str>) -> StoredPrompt {
    StoredPrompt {
        id,
        session_id: session_id.to_string(),
        cwd: cwd.to_string(),
        prompt: prompt.to_string(),
        created_at: at.to_string(),
        msg_uuid: uuid.map(String::from),
    }
}

#[test]
fn prompts_are_grouped_by_session_in_order() {
    let groups = group_by_session(vec![
        stored(1, "/b", "s2", "", "", None),
        stored(2, "/a", "s9", "", "", None),
        stored(3, "/b", "s1", "", "", None),
        stored(4, "/b", "s2", "", "", None),
        stored(5, "/a", "s9", "", "", None),
    ]);
    let seen: Vec<(&str, &str, Vec<i64>)> = groups
        .iter()
        .map(|g| (g.cwd.as_str(), g.session_id.as_str(), g.rows.iter().map(|r| r.id).collect()))
        .collect();
    assert_eq!(
        seen,
        vec![("/a", "s9", vec![2, 5]), ("/b", "s1", vec![3]), ("/b", "s2", vec![1, 4])]
    );
}

#[test]
fn refetching_takes_a_snapshot_first() {
    let steps = refetch_all_responses(vec![stored(1, "/a", "s", "", "", None)]);
    assert_eq!(steps.len(), 2);
    assert!(matches!(steps[0], RefetchStep::Backup));
    assert!(matches!(&steps[1], RefetchStep::Session(g) if g.session_id == "s"));
    assert_eq!(refetch_all_responses(vec![]).len(), 1);
}

#[test]
fn refetching_keeps_what_it_cannot_better() {
    let rows = vec![
        stored(1, "/c", "s", "first prompt", "2026-07-12T00:00:00", None),
        stored(2, "/c", "s", "second", "2026-07-12T00:00:20", Some("u2")),
        stored(3, "/c", "s", "third", "nonsense", Some("")),
        stored(4, "/c", "s", "x", "x", Some("u3")),
    ];
    let all = lines();
    let out = refetch_session(&rows, Some(&all), 0);
    assert!(matches!(&out[0], Refetch::Update { response, uuid } if response == FIRST && uuid == "u1"));
    assert!(matches!(&out[1], Refetch::Nothing));
    assert!(matches!(&out[2], Refetch::NoTurn));
    assert!(matches!(&out[3], Refetch::Update { response, uuid } if response == "last" && uuid == "u3"));
    let lookups: Vec<Lookup> = out.iter().map(|r| r.lookup()).collect();
    assert_eq!(
        tally(&lookups),
        BatchFetchResult { total: 4, fetched: 2, not_found: 2, failed: 0 }
    );
    let gone = refetch_session(&rows, None, 0);
    let lookups: Vec<Lookup> = gone.iter().map(|r| r.lookup()).collect();
    assert_eq!(
        tally(&lookups),
        BatchFetchResult { total: 4, fetched: 0, not_found: 0, failed: 4 }
    );
}
