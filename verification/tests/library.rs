//! Listing, deleting, snapshots and edits.

use recall::backup::{
    confirm_journal_mode, is_auto_snapshot, migrate_journal_mode, name_snapshot, prune_backups,
    JournalStep, KEEP,
};
use recall::edit::{add_prompt_tag, is_inline, set_cwd_alias, AliasEdit};
use recall::place::{archived_path, encode_cwd_to_folder, jsonl_path};
use recall::query::{list_prompts, row_to_prompt, Bind, Prompt, PromptFilter, PromptRow};
use recall::removal::{delete_prompt, delete_prompts, deleted, Step, Table};
use rusqlite::Connection;

fn filter() -> PromptFilter {
    PromptFilter {
        limit: 50,
        offset: 0,
        search: None,
        cwd: None,
        only_bookmarked: None,
        tag: None,
        date_from: None,
        date_to: None,
        include_system: None,
    }
}

fn db() -> Connection {
    let conn = Connection::open_in_memory().unwrap();
    conn.execute_batch(
        "CREATE TABLE prompts (id INTEGER PRIMARY KEY, session_id TEXT, cwd TEXT, prompt TEXT,
             created_at TEXT, response TEXT, kind TEXT, narrative TEXT);
         CREATE TABLE prompt_bookmarks (prompt_id INTEGER PRIMARY KEY);
         CREATE TABLE tags (id INTEGER PRIMARY KEY, name TEXT);
         CREATE TABLE prompt_tags (prompt_id INTEGER, tag_id INTEGER);
         CREATE TABLE turn_segments (prompt_id INTEGER);
         CREATE TABLE prompt_responses (prompt_id INTEGER PRIMARY KEY, response TEXT);
         INSERT INTO prompts VALUES
             (1, 's', '/a', 'fix the build', '2026-07-01T10:00:00', NULL, 'human', 'prose about cats'),
             (2, 's', '/b', 'go on', '2026-07-02T10:00:00', 'old words on dogs', NULL, NULL),
             (3, NULL, NULL, 'nowhere', '2026-07-03T10:00:00', '', 'human', NULL),
             (4, 't', '/c', 'done', '2026-07-04T10:00:00', NULL, 'system', NULL),
             (5, 't', '/c', 'done too', '2026-07-05T10:00:00', NULL, 'system', NULL),
             (6, 't', '/c', 'and this', '2026-07-06T10:00:00', NULL, 'system', NULL);
         INSERT INTO prompt_bookmarks VALUES (1), (5);
         INSERT INTO tags VALUES (1, 'x'), (2, 'y');
         INSERT INTO prompt_tags VALUES (2, 1), (2, 2), (6, 1);
         INSERT INTO turn_segments VALUES (1);",
    )
    .unwrap();
    conn
}

fn list(conn: &Connection, f: &PromptFilter) -> Vec<Prompt> {
    let query = list_prompts(f);
    assert_eq!(query.sql.matches('?').count(), query.binds.len());
    let binds: Vec<rusqlite::types::Value> = query
        .binds
        .iter()
        .map(|b| match b {
            Bind::Text(s) => rusqlite::types::Value::Text(s.clone()),
            Bind::Integer(n) => rusqlite::types::Value::Integer(*n),
        })
        .collect();
    let mut stmt = conn.prepare(&query.sql).unwrap();
    let rows = stmt
        .query_map(rusqlite::params_from_iter(binds.iter()), |r| {
            Ok(PromptRow {
                id: r.get(0)?,
                session_id: r.get(1)?,
                cwd: r.get(2)?,
                prompt: r.get(3)?,
                created_at: r.get(4)?,
                bookmark: r.get(5)?,
                tags: r.get(6)?,
                has_response: r.get(7)?,
                kind: r.get(8)?,
            })
        })
        .unwrap();
    rows.map(|r| row_to_prompt(r.unwrap())).collect()
}

fn ids(conn: &Connection, f: &PromptFilter) -> Vec<i64> {
    list(conn, f).iter().map(|p| p.id).collect()
}

#[test]
fn injected_prompts_are_hidden_unless_they_are_marked() {
    let conn = db();
    assert_eq!(ids(&conn, &filter()), vec![6, 5, 3, 2, 1]);
    let mut all = filter();
    all.include_system = Some(true);
    assert_eq!(ids(&conn, &all), vec![6, 5, 4, 3, 2, 1]);
    all.limit = 2;
    all.offset = 1;
    assert_eq!(ids(&conn, &all), vec![5, 4]);
}

#[test]
fn search_looks_in_prompt_prose_and_older_response() {
    let conn = db();
    let search = |text: &str| {
        let mut f = filter();
        f.search = Some(text.to_string());
        ids(&conn, &f)
    };
    assert_eq!(search("build"), vec![1]);
    assert_eq!(search("cats"), vec![1]);
    assert_eq!(search("dogs"), vec![2]);
    assert_eq!(search("birds"), Vec::<i64>::new());
    assert_eq!(search("").len(), 5);
    assert_eq!(search("' OR 1=1 --"), Vec::<i64>::new());
}

#[test]
fn filters_narrow_the_list() {
    let conn = db();
    let mut f = filter();
    f.cwd = Some("/a".to_string());
    // A session is filed under its first working directory.
    assert_eq!(ids(&conn, &f), vec![2, 1]);
    f.cwd = Some("__NULL__".to_string());
    assert_eq!(ids(&conn, &f), vec![3]);
    f.cwd = Some(String::new());
    assert_eq!(ids(&conn, &f).len(), 5);
    f.only_bookmarked = Some(true);
    assert_eq!(ids(&conn, &f), vec![5, 1]);
    f.only_bookmarked = Some(false);
    f.tag = Some("x".to_string());
    assert_eq!(ids(&conn, &f), vec![6, 2]);
    f.tag = None;
    f.date_from = Some("2026-07-02".to_string());
    f.date_to = Some("2026-07-03".to_string());
    assert_eq!(ids(&conn, &f), vec![3, 2]);
}

#[test]
fn rows_become_prompts() {
    let conn = db();
    let all = list(&conn, &filter());
    let second = &all[3];
    assert_eq!((second.id, second.bookmarked, second.has_response), (2, false, true));
    let mut tags = second.tags.clone();
    tags.sort();
    assert_eq!(tags, vec!["x", "y"]);
    let third = &all[2];
    assert!(!third.has_response && third.tags.is_empty() && third.session_id.is_none());
    let first = &all[4];
    assert!(first.bookmarked && first.has_response);
    assert_eq!(first.kind.as_deref(), Some("human"));
    assert_eq!((first.prompt.as_str(), first.created_at.as_str()), ("fix the build", "2026-07-01T10:00:00"));
}

#[test]
fn query_text_depends_on_what_is_asked_for_alone() {
    let mut f = filter();
    f.search = Some("one".to_string());
    let mut g = filter();
    g.search = Some("two'; DROP TABLE prompts".to_string());
    assert_eq!(list_prompts(&f).sql, list_prompts(&g).sql);
    assert!(matches!(&list_prompts(&f).binds[2], Bind::Text(s) if s == "%one%"));
    assert!(matches!(list_prompts(&f).binds[3], Bind::Integer(50)));
}

#[test]
fn deleting_takes_a_snapshot_first() {
    assert_eq!(
        delete_prompt(7),
        vec![
            Step::Backup,
            Step::Delete(Table::Prompts, 7),
            Step::Delete(Table::Bookmarks, 7),
            Step::Delete(Table::PromptTags, 7),
            Step::Delete(Table::Responses, 7),
            Step::DropOrphanTags,
        ]
    );
    let many = delete_prompts(&vec![1, 2]);
    assert_eq!(many.len(), 12);
    assert_eq!((many[0], many[1]), (Step::Backup, Step::Begin));
    assert_eq!(many[6], Step::Delete(Table::Prompts, 2));
    assert_eq!((many[10], many[11]), (Step::DropOrphanTags, Step::Commit));
    assert!(delete_prompts(&vec![]).is_empty());
}

fn take(conn: &Connection, steps: &[Step]) {
    for step in steps {
        match step {
            Step::Backup => {}
            Step::Begin => conn.execute_batch("BEGIN").unwrap(),
            Step::Commit => conn.execute_batch("COMMIT").unwrap(),
            Step::DropOrphanTags => conn
                .execute_batch("DELETE FROM tags WHERE NOT EXISTS (SELECT 1 FROM prompt_tags WHERE tag_id = tags.id)")
                .unwrap(),
            Step::Delete(table, id) => {
                let sql = match table {
                    Table::Prompts => "DELETE FROM prompts WHERE id = ?1",
                    Table::Bookmarks => "DELETE FROM prompt_bookmarks WHERE prompt_id = ?1",
                    Table::PromptTags => "DELETE FROM prompt_tags WHERE prompt_id = ?1",
                    Table::Responses => "DELETE FROM prompt_responses WHERE prompt_id = ?1",
                };
                conn.execute(sql, [id]).unwrap();
            }
        }
    }
}

#[test]
fn deleting_takes_what_was_asked_and_orphaned_tags() {
    let conn = db();
    let count = |sql: &str| -> i64 { conn.query_row(sql, [], |r| r.get(0)).unwrap() };
    take(&conn, &delete_prompts(&vec![1, 2]));
    assert_eq!(count("SELECT COUNT(*) FROM prompts"), 4);
    assert_eq!(count("SELECT COUNT(*) FROM prompt_bookmarks"), 1);
    assert_eq!(count("SELECT COUNT(*) FROM prompt_tags"), 1);
    // Tag y was carried by a deleted prompt alone, tag x by another one too.
    assert_eq!(count("SELECT COUNT(*) FROM tags"), 1);
    take(&conn, &delete_prompt(6));
    assert_eq!(count("SELECT COUNT(*) FROM prompts"), 3);
    assert_eq!(count("SELECT COUNT(*) FROM tags"), 0);
}

#[test]
fn a_bulk_deletion_that_fails_takes_nothing() {
    let steps = delete_prompts(&vec![1, 2]);
    for stop in 0..steps.len() {
        let conn = db();
        take(&conn, &steps[..stop]);
        if !conn.is_autocommit() {
            conn.execute_batch("ROLLBACK").unwrap();
        }
        let left: i64 = conn.query_row("SELECT COUNT(*) FROM prompts", [], |r| r.get(0)).unwrap();
        let tags: i64 = conn.query_row("SELECT COUNT(*) FROM tags", [], |r| r.get(0)).unwrap();
        assert_eq!((left, tags), (6, 2), "{stop}");
    }
}

#[test]
fn a_deletion_reports_its_snapshot() {
    let r = deleted(&vec![1, 2], "/x.db");
    assert_eq!((r.deleted, r.backup_path.as_str()), (2, "/x.db"));
    let r = deleted(&vec![], "/x.db");
    assert_eq!((r.deleted, r.backup_path.as_str()), (0, ""));
}

#[test]
fn snapshots_are_named_by_time() {
    assert_eq!(name_snapshot("20260712-090807"), "prompts-20260712-090807.db");
    assert!(is_auto_snapshot("prompts-20260712-090807.db"));
    for name in [
        "prompts-mine.db",
        "prompts-20260712-090807.db.bak",
        "prompts-20260712_090807.db",
        "prompts-2026071x-090807.db",
        "promptz-20260712-090807.db",
        "prompts-20260712-090807.bd",
        "",
        "prompts.db",
    ] {
        assert!(!is_auto_snapshot(name), "{name}");
    }
}

#[test]
fn only_the_oldest_automatic_snapshots_are_pruned() {
    let mut names: Vec<String> =
        (0..12).rev().map(|d| format!("prompts-202607{:02}-000000.db", d + 10)).collect();
    names.push("before-upgrade.db".to_string());
    names.push("prompts-00000000-by-hand.db".to_string());
    assert_eq!(
        prune_backups(names, KEEP),
        vec!["prompts-20260710-000000.db", "prompts-20260711-000000.db"]
    );
    assert!(prune_backups(vec!["prompts-20260710-000000.db".to_string()], 10).is_empty());
    assert_eq!(prune_backups(vec!["prompts-20260710-000000.db".to_string()], 0).len(), 1);
}

#[test]
fn the_journal_mode_is_switched_and_confirmed() {
    assert_eq!(migrate_journal_mode("WAL"), JournalStep::Keep);
    assert_eq!(migrate_journal_mode("wal"), JournalStep::Keep);
    assert_eq!(migrate_journal_mode("delete"), JournalStep::BackupThenSwitch);
    assert_eq!(confirm_journal_mode("Wal".to_string()), Ok("Wal".to_string()));
    assert_eq!(
        confirm_journal_mode("delete".to_string()),
        Err("WAL 전환이 적용되지 않음 (현재 모드: delete)".to_string())
    );
}

#[test]
fn transcripts_lie_by_working_directory() {
    assert_eq!(encode_cwd_to_folder("/Users/me/dev"), "-Users-me-dev");
    assert_eq!(jsonl_path("/a/b", "s"), ("-a-b".to_string(), "s.jsonl".to_string()));
    assert_eq!(archived_path("-a-b/s.jsonl"), "-a-b/s.jsonl.gz");
}

#[test]
fn names_are_trimmed() {
    assert!(matches!(set_cwd_alias("  Payments API "), AliasEdit::Put(s) if s == "Payments API"));
    assert!(matches!(set_cwd_alias(" \n"), AliasEdit::Remove));
    assert_eq!(add_prompt_tag(" x "), Ok("x".to_string()));
    assert_eq!(add_prompt_tag("  "), Err("태그 이름이 비어있습니다".to_string()));
}

#[test]
fn short_prose_is_sent_along() {
    assert!(is_inline("text", 24_000, 400));
    assert!(!is_inline("text", 24_001, 1));
    assert!(!is_inline("text", 1, 401));
    assert!(!is_inline("tool_result", 1, 1));
}
