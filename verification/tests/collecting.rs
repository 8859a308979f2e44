//! What collecting leaves in a database.

use recall::ingest::{sweep_session, IngestStats, Write};
use recall::owner::Row;
use recall::transcript::parse_events;
use rusqlite::Connection;

fn db() -> Connection {
    let conn = Connection::open_in_memory().unwrap();
    conn.execute_batch(
        "CREATE TABLE prompts (id INTEGER PRIMARY KEY, prompt TEXT, response TEXT, kind TEXT,
             match_kind TEXT, narrative TEXT, ingest_ver INTEGER);
         CREATE TABLE turn_segments (prompt_id INTEGER, src_uuid TEXT, block_idx INTEGER,
             seq INTEGER, kind TEXT, body TEXT, UNIQUE (prompt_id, src_uuid, block_idx));
         CREATE TABLE segment_edits (prompt_id INTEGER, src_uuid TEXT, block_idx INTEGER, body TEXT);
         CREATE TABLE ingest_state (session_id TEXT PRIMARY KEY, src_mtime INTEGER);
         INSERT INTO prompts (id, prompt, response) VALUES
             (1, 'do it', 'kept by hand'), (2, 'never sent', 'also kept');
         INSERT INTO segment_edits VALUES (1, 'a1', 0, 'my words');",
    )
    .unwrap();
    conn
}

fn apply(conn: &Connection, writes: &[Write]) {
    for write in writes {
        match write {
            Write::Classify { row_id, kind, match_kind } => conn.execute(
                "UPDATE prompts SET kind = ?1, match_kind = ?2 WHERE id = ?3",
                (kind, match_kind, row_id),
            ),
            Write::PutSegment { row_id, seq, segment: s } => conn.execute(
                "INSERT INTO turn_segments VALUES (?1, ?2, ?3, ?4, ?5, ?6)
                 ON CONFLICT(prompt_id, src_uuid, block_idx) DO UPDATE SET
                    seq=excluded.seq, kind=excluded.kind, body=excluded.body",
                (row_id, &s.src_uuid, s.block_idx, seq, &s.kind, &s.body),
            ),
            Write::PutNarrative { row_id, narrative, version } => conn.execute(
                "UPDATE prompts SET narrative = ?1, ingest_ver = ?2 WHERE id = ?3",
                (narrative, version, row_id),
            ),
            Write::PutState { session_id, mtime } => conn.execute(
                "INSERT INTO ingest_state VALUES (?1, ?2)
                 ON CONFLICT(session_id) DO UPDATE SET src_mtime = excluded.src_mtime",
                (session_id, mtime),
            ),
        }
        .unwrap();
    }
}

fn dump(conn: &Connection) -> Vec<String> {
    let mut out = Vec::new();
    for sql in [
        "SELECT quote(id)||quote(prompt)||quote(response)||quote(kind)||quote(match_kind)||quote(narrative)||quote(ingest_ver) FROM prompts ORDER BY id",
        "SELECT quote(prompt_id)||quote(src_uuid)||quote(block_idx)||quote(seq)||quote(kind)||quote(body) FROM turn_segments ORDER BY 1",
        "SELECT quote(prompt_id)||quote(src_uuid)||quote(block_idx)||quote(body) FROM segment_edits ORDER BY 1",
        "SELECT quote(session_id)||quote(src_mtime) FROM ingest_state ORDER BY 1",
    ] {
        let mut stmt = conn.prepare(sql).unwrap();
        let rows = stmt.query_map([], |r| r.get::<_, String>(0)).unwrap();
        out.extend(rows.map(|r| r.unwrap()));
    }
    out
}

fn collect(conn: &Connection, lines: &[&str], mtime: i64) {
    let lines: Vec<String> = lines.iter().map(|l| l.to_string()).collect();
    let evs = parse_events(&lines);
    let row = |id: i64, prompt: &str, turn: Option<&str>| Row {
        id,
        prompt: prompt.to_string(),
        created_at: "x".to_string(),
        cc_turn_id: turn.map(String::from),
        msg_uuid: None,
    };
    let rows = vec![row(1, "do it", Some("T1")), row(2, "never sent", None)];
    let mut stats = IngestStats::default();
    apply(conn, &sweep_session("s", mtime, &evs, &rows, 0, &mut stats));
}

const LINES: [&str; 3] = [
    r#"{"type":"user","uuid":"u1","promptId":"T1","message":{"content":"do it"}}"#,
    r#"{"type":"assistant","uuid":"a1","message":{"content":[{"type":"text","text":"Done."}]}}"#,
    r#"{"type":"assistant","uuid":"a2","message":{"content":[{"type":"text","text":"And more."}]}}"#,
];

#[test]
fn collecting_twice_is_collecting_once() {
    let conn = db();
    collect(&conn, &LINES, 5);
    let once = dump(&conn);
    collect(&conn, &LINES, 5);
    assert_eq!(dump(&conn), once);
    assert_eq!(
        once,
        vec![
            "1'do it''kept by hand''human''exact''Done.\n\nAnd more.'1",
            "2'never sent''also kept'NULLNULLNULLNULL",
            "1'a1'00'text''Done.'",
            "1'a2'01'text''And more.'",
            "1'a1'0'my words'",
            "'s'5",
        ]
    );
}

#[test]
fn a_grown_transcript_adds_and_takes_nothing_away() {
    let conn = db();
    collect(&conn, &LINES[..2], 5);
    let before = dump(&conn);
    collect(&conn, &LINES, 6);
    let after = dump(&conn);
    assert_eq!(after.len(), before.len() + 1);
    assert!(after.contains(&"1'a1'00'text''Done.'".to_string()));
    // A transcript that is gone leaves everything as it was, but for the time.
    collect(&conn, &[], 0);
    assert_eq!(dump(&conn), after);
}

#[test]
fn sweeping_all_sessions_again_changes_nothing() {
    let conn = db();
    let sweep = |conn: &Connection| {
        let mut stats = IngestStats::default();
        for (session_id, lines, mtime) in [("s", &LINES[..], 5), ("gone", &LINES[..0], 0)] {
            let lines: Vec<String> = lines.iter().map(|l| l.to_string()).collect();
            let rows = vec![Row {
                id: 1,
                prompt: "do it".to_string(),
                created_at: "x".to_string(),
                cc_turn_id: Some("T1".to_string()),
                msg_uuid: None,
            }];
            apply(
                conn,
                &sweep_session(session_id, mtime, &parse_events(&lines), &rows, 0, &mut stats),
            );
        }
        (stats.sessions, stats.sessions_missing, stats.prompts_matched, stats.segments)
    };
    let first = sweep(&conn);
    let once = dump(&conn);
    assert_eq!(first, (1, 1, 1, 2));
    assert_eq!(sweep(&conn), first);
    assert_eq!(dump(&conn), once);
}
