//! Which prompts are offered for deletion, on a real database.

use recall::answer::{fetch_response, LoggedPrompt};
use recall::batch::{judge, Lookup};
use recall::purge::{conclude_scan, count_protected, purge_targets, scan_unanswered, PromptFacts, PurgeScan, SETTLE};
use rusqlite::Connection;

fn test_db() -> Connection {
    let conn = Connection::open_in_memory().unwrap();
    conn.execute_batch(
        "CREATE TABLE prompts (
             id         INTEGER PRIMARY KEY AUTOINCREMENT,
             session_id TEXT,
             cwd        TEXT,
             prompt     TEXT NOT NULL,
             created_at TEXT NOT NULL,
             response   TEXT,
             msg_uuid   TEXT
         );
         CREATE TABLE prompt_bookmarks (prompt_id INTEGER PRIMARY KEY);
         CREATE TABLE prompt_tags (prompt_id INTEGER NOT NULL, tag_id INTEGER NOT NULL);
         CREATE TABLE turn_segments (
             id        INTEGER PRIMARY KEY,
             prompt_id INTEGER NOT NULL,
             src_uuid  TEXT    NOT NULL,
             block_idx INTEGER NOT NULL,
             seq       INTEGER NOT NULL,
             kind      TEXT    NOT NULL
         );",
    )
    .unwrap();
    conn
}

fn insert_prompt(conn: &Connection, session: Option<&str>, cwd: Option<&str>, age_hours: i64) -> i64 {
    conn.execute(
        "INSERT INTO prompts (session_id, cwd, prompt, created_at, response)
         VALUES (?1, ?2, 'p', datetime('now', 'localtime', ?3), NULL)",
        (session, cwd, format!("-{} hours", age_hours)),
    )
    .unwrap();
    conn.last_insert_rowid()
}

fn facts(conn: &Connection) -> Vec<PromptFacts> {
    let mut stmt = conn
        .prepare(
            "SELECT p.id, p.prompt, p.created_at, p.cwd, p.response,
                    EXISTS (SELECT 1 FROM turn_segments s WHERE s.prompt_id = p.id),
                    EXISTS (SELECT 1 FROM prompt_bookmarks b WHERE b.prompt_id = p.id),
                    EXISTS (SELECT 1 FROM prompt_tags t WHERE t.prompt_id = p.id),
                    datetime(p.created_at)
             FROM prompts p ORDER BY p.id DESC",
        )
        .unwrap();
    let rows = stmt
        .query_map([], |r| {
            Ok(PromptFacts {
                id: r.get(0)?,
                prompt: r.get(1)?,
                created_at: r.get(2)?,
                cwd: r.get(3)?,
                response: r.get(4)?,
                has_segments: r.get(5)?,
                bookmarked: r.get(6)?,
                tagged: r.get(7)?,
                created: r.get(8)?,
            })
        })
        .unwrap();
    rows.map(|r| r.unwrap()).collect()
}

fn cutoff(conn: &Connection) -> String {
    conn.query_row("SELECT datetime('now', ?1, 'localtime')", [SETTLE], |r| r.get(0)).unwrap()
}

fn scan(conn: &Connection, transcript: Option<&Vec<String>>) -> PurgeScan {
    let look = |id: i64| -> Lookup {
        let row = conn
            .query_row(
                "SELECT session_id, cwd, prompt, created_at, msg_uuid FROM prompts WHERE id = ?1",
                [id],
                |r| {
                    Ok(LoggedPrompt {
                        session_id: r.get(0)?,
                        cwd: r.get(1)?,
                        prompt: r.get(2)?,
                        created_at: r.get(3)?,
                        msg_uuid: r.get(4)?,
                    })
                },
            )
            .unwrap();
        judge(&fetch_response(&row, transcript, 0))
    };
    scan_unanswered(facts(conn), &cutoff(conn), look)
}

#[test]
fn missing_transcript_is_unknown_never_a_candidate() {
    let conn = test_db();
    insert_prompt(&conn, Some("no-such-session"), Some("/no/such/cwd"), 72);

    let scan = scan(&conn, None);

    assert_eq!(scan.unknown, 1, "세션 기록이 없으면 unknown 이어야 한다");
    assert!(
        scan.candidates.is_empty(),
        "세션 기록을 못 찾은 프롬프트가 삭제 후보가 됐다 — 438 사고의 재발"
    );
}

#[test]
fn prompt_without_session_is_unknown_never_a_candidate() {
    let conn = test_db();
    insert_prompt(&conn, None, None, 72);

    let scan = scan(&conn, None);

    assert_eq!(scan.unknown, 1);
    assert!(scan.candidates.is_empty());
}

#[test]
fn recent_prompt_is_not_scanned() {
    let conn = test_db();
    insert_prompt(&conn, Some("s"), Some("/c"), 1);

    let scan = scan(&conn, None);

    assert_eq!(scan.scanned, 0, "48시간 안쪽 프롬프트를 검사했다");
    assert!(scan.candidates.is_empty());
}

#[test]
fn prompt_with_segments_is_never_a_candidate() {
    let conn = test_db();
    let id = insert_prompt(&conn, Some("no-such-session"), Some("/no/such/cwd"), 72);
    conn.execute(
        "INSERT INTO turn_segments (prompt_id, src_uuid, block_idx, seq, kind)
         VALUES (?1, 'u1', 0, 0, 'text')",
        [id],
    )
    .unwrap();

    let scan = scan(&conn, None);

    assert_eq!(scan.scanned, 0, "세그먼트로 수집이 끝난 프롬프트를 '응답 없음' 으로 봤다");
    assert!(scan.candidates.is_empty());
    assert_eq!(scan.unknown, 0);
}

#[test]
fn bookmarked_prompt_is_protected() {
    let conn = test_db();
    let id = insert_prompt(&conn, Some("no-such-session"), Some("/no/such/cwd"), 72);
    conn.execute("INSERT INTO prompt_bookmarks (prompt_id) VALUES (?1)", [id]).unwrap();

    let scan = scan(&conn, None);

    assert_eq!(scan.protected, 1);
    assert_eq!(scan.scanned, 0);
    assert!(scan.candidates.is_empty());
}

#[test]
fn a_transcript_without_a_response_makes_a_candidate() {
    let conn = test_db();
    let id = insert_prompt(&conn, Some("s"), Some("/c"), 72);
    let empty: Vec<String> = vec![r#"{"type":"user","uuid":"u","message":{"content":"p"}}"#.to_string()];

    let found = scan(&conn, Some(&empty));

    assert_eq!((found.scanned, found.recovered, found.unknown, found.protected), (1, 0, 0, 0));
    assert_eq!(found.candidates.len(), 1);
    assert_eq!(found.candidates[0].id, id);
    assert_eq!(found.candidates[0].prompt, "p");
    assert_eq!(found.candidates[0].cwd.as_deref(), Some("/c"));

    let mut answered = empty;
    answered.push(
        r#"{"type":"assistant","message":{"content":[{"type":"text","text":"yes"}]}}"#.to_string(),
    );
    let found = scan(&conn, Some(&answered));
    assert_eq!((found.scanned, found.recovered, found.unknown), (1, 1, 0));
    assert!(found.candidates.is_empty());
}

#[test]
fn a_turn_that_was_not_found_is_unknown_never_a_candidate() {
    let conn = test_db();
    insert_prompt(&conn, Some("s"), Some("/c"), 72);
    let other: Vec<String> = vec![
        r#"{"type":"user","uuid":"u","timestamp":"2001-01-01T00:00:00Z","message":{"content":"something else"}}"#.to_string(),
        r#"{"type":"assistant","message":{"content":[{"type":"text","text":"yes"}]}}"#.to_string(),
    ];

    let found = scan(&conn, Some(&other));

    assert_eq!((found.scanned, found.recovered, found.unknown), (1, 0, 1));
    assert!(found.candidates.is_empty());
}

fn fact(id: i64) -> PromptFacts {
    PromptFacts {
        id,
        prompt: format!("p{id}"),
        created_at: "2026-07-01T00:00:00".to_string(),
        cwd: None,
        response: None,
        has_segments: false,
        bookmarked: false,
        tagged: false,
        created: Some("2026-07-01 00:00:00".to_string()),
    }
}

#[test]
fn each_guard_keeps_a_prompt_out() {
    let cutoff = "2026-07-10 00:00:00";
    let mut answered = fact(2);
    answered.response = Some("text".to_string());
    let mut tagged = fact(3);
    tagged.tagged = true;
    let mut fresh = fact(4);
    fresh.created = Some("2026-07-10 00:00:00".to_string());
    let mut undated = fact(5);
    undated.created = None;
    let mut blank = fact(6);
    blank.response = Some(String::new());
    let list = vec![fact(1), answered, tagged, fresh, undated, blank];
    assert_eq!(count_protected(&list), 1);
    let ids: Vec<i64> = purge_targets(list, cutoff).iter().map(|f| f.id).collect();
    assert_eq!(ids, vec![1, 6]);
}

#[test]
fn a_scan_adds_up() {
    let lookups = vec![
        Lookup::Absent,
        Lookup::Unknown,
        Lookup::Recovered,
        Lookup::Absent,
        Lookup::Unmatched,
    ];
    let scan = conclude_scan(7, vec![fact(1), fact(2), fact(3), fact(4), fact(5)], &lookups);
    assert_eq!((scan.scanned, scan.recovered, scan.protected, scan.unknown), (5, 1, 7, 2));
    let ids: Vec<i64> = scan.candidates.iter().map(|c| c.id).collect();
    assert_eq!(ids, vec![1, 4]);
}
