//! JSON, events and segments.

use recall::json::{parse_json, parse_lines, pretty, Json};
use recall::segment::{injected_name, narrative_of, segments_of, tool_preview};
use recall::transcript::{is_prompt_like, parse_events, text_of_content, Ev};

fn event(line: &str) -> Ev {
    let mut evs = parse_events(&vec![line.to_string()]);
    assert_eq!(evs.len(), 1);
    evs.remove(0)
}

fn json(text: &str) -> Json {
    parse_json(text).expect("JSON")
}

#[test]
fn json_is_parsed_and_printed() {
    let value = json(r#"{"b":[1,null,true,"x"],"a":{"c":2.5}}"#);
    assert_eq!(
        pretty(&value),
        "{\n  \"a\": {\n    \"c\": 2.5\n  },\n  \"b\": [\n    1,\n    null,\n    true,\n    \"x\"\n  ]\n}"
    );
    assert!(parse_json("{").is_none());
    assert_eq!(value.get("b").and_then(|b| b.as_list()).map(|l| l.len()), Some(4));
    assert!(value.get("z").is_none());
    assert!(json(r#"{"m":true}"#).is_set("m"));
    assert!(!json(r#"{"m":"true"}"#).is_set("m"));
    assert_eq!(json(r#"{"n":"x"}"#).text_of("n"), Some("x"));
    assert_eq!(json(r#"{"n":1}"#).text_of("n"), None);
    // The later of two members of one name counts.
    assert_eq!(json(r#"{"n":"x","n":"y"}"#).text_of("n"), Some("y"));
    assert_eq!(json(r#"{"n":"z"}"#).into_member("n").and_then(|v| v.as_text().map(String::from)), Some("z".to_string()));
    let twice = Json::Object(vec![
        ("k".to_string(), Json::Text("first".to_string())),
        ("k".to_string(), Json::Text("last".to_string())),
    ]);
    assert_eq!(twice.text_of("k"), Some("last"));
    assert_eq!(pretty(&twice), "{\n  \"k\": \"last\"\n}");
}

#[test]
fn lines_that_are_no_json_are_passed_over() {
    let lines: Vec<String> = ["1", "not json", "", "[]"].iter().map(|s| s.to_string()).collect();
    assert_eq!(parse_lines(&lines).len(), 2);
}

#[test]
fn events_hold_what_the_lines_say() {
    let ev = event(
        r#"{"type":"user","uuid":"u","promptId":"T","origin":{"kind":"human"},"isMeta":true,
            "timestamp":"t","message":{"content":"hi"}}"#,
    );
    assert_eq!((ev.etype.as_str(), ev.uuid.as_str()), ("user", "u"));
    assert_eq!(ev.turn_id.as_deref(), Some("T"));
    assert_eq!(ev.origin_kind.as_deref(), Some("human"));
    assert!(ev.is_meta);
    assert_eq!(ev.ts.as_deref(), Some("t"));
    assert_eq!(ev.content.as_text(), Some("hi"));

    let bare = event("{}");
    assert_eq!((bare.etype.as_str(), bare.uuid.as_str()), ("", ""));
    assert!(bare.turn_id.is_none() && bare.origin_kind.is_none() && bare.ts.is_none());
    assert!(matches!(bare.content, Json::Null));
}

#[test]
fn subagent_events_are_left_out() {
    let lines: Vec<String> = vec![
        r#"{"type":"user","isSidechain":true}"#.to_string(),
        r#"{"type":"user","isSidechain":false}"#.to_string(),
        "broken".to_string(),
    ];
    assert_eq!(parse_events(&lines).len(), 1);
}

#[test]
fn tool_previews_name_the_telling_argument() {
    let cases = [
        ("Bash", r#"{"command":"cargo  test\n--lib"}"#, "Bash cargo test --lib"),
        ("BashOutput", r#"{"command":"x"}"#, "BashOutput x"),
        ("Read", r#"{"file_path":"/a"}"#, "Read /a"),
        ("Write", r#"{"file_path":"/a"}"#, "Write /a"),
        ("NotebookEdit", r#"{"file_path":"/n"}"#, "NotebookEdit /n"),
        ("Edit", r#"{"file_path":"/b"}"#, "Edit /b"),
        ("Grep", r#"{"pattern":"fn"}"#, "Grep fn"),
        ("Glob", r#"{"pattern":"*.rs"}"#, "Glob *.rs"),
        ("Agent", r#"{"description":"look"}"#, "Agent look"),
        ("Task", r#"{"description":"look"}"#, "Task look"),
        ("WebFetch", r#"{"url":"u"}"#, "WebFetch u"),
        ("WebSearch", r#"{"query":"q"}"#, "WebSearch q"),
        ("Skill", r#"{"skill":"s"}"#, "Skill s"),
        ("Other", r#"{"description":"d","query":"q"}"#, "Other q"),
        ("Other", r#"{"":"empty name"}"#, "Other empty name"),
        ("Bash", r#"{"command":1}"#, "Bash"),
        ("Bash", "null", "Bash"),
    ];
    for (name, input, want) in cases {
        assert_eq!(tool_preview(name, &json(input)), want);
    }
    let long = format!(r#"{{"command":"{}"}}"#, "x".repeat(150));
    assert_eq!(tool_preview("Bash", &json(&long)).chars().count(), 105);
}

#[test]
fn folded_events_are_labelled() {
    let plain = event(r#"{"type":"user"}"#);
    let meta = event(r#"{"type":"user","isMeta":true}"#);
    let task = event(r#"{"type":"user","origin":{"kind":"task-notification"}}"#);
    let label = |ev: &Ev, text: &str| {
        let (kind, name) = injected_name(ev, text);
        (kind, name.unwrap_or_default())
    };
    let is = |kind: &str, name: &str| (kind.to_string(), name.to_string());
    assert_eq!(label(&task, "so: [Request interrupted by user]"), is("interrupt", ""));
    assert_eq!(label(&task, "<command-name>"), is("injected", "task-notification"));
    assert_eq!(label(&plain, "  <command-name>x"), is("injected", "command"));
    assert_eq!(label(&plain, "<command-message>x"), is("injected", "command"));
    assert_eq!(label(&meta, "<local-command-stdout>"), is("injected", "command"));
    assert_eq!(label(&plain, "<bash-input>ls"), is("injected", "bash"));
    assert_eq!(label(&plain, "\n<bash-stdout>"), is("injected", "bash"));
    assert_eq!(label(&meta, "words"), is("injected", "meta"));
    assert_eq!(label(&plain, "words"), is("injected", ""));
}

#[test]
fn assistant_blocks_become_segments() {
    let ev = event(
        r#"{"type":"assistant","uuid":"a","timestamp":"t","message":{"content":[
            {"type":"thinking","thinking":""},
            {"type":"text","text":""},
            {"type":"text","text":"글\nx"},
            {"type":"tool_use","id":"i","name":"Grep","input":{"pattern":"p"}},
            {"type":"tool_use"}]}}"#,
    );
    let segs = segments_of(&ev, false);
    assert_eq!(segs.len(), 3);
    assert_eq!((segs[0].kind.as_str(), segs[0].block_idx), ("text", 2));
    assert_eq!((segs[0].body.as_str(), segs[0].preview.as_str()), ("글\nx", "글 x"));
    assert_eq!((segs[0].nbytes, segs[0].nlines), (5, 2));
    assert_eq!((segs[0].src_uuid.as_str(), segs[0].ts.as_deref()), ("a", Some("t")));
    assert_eq!((segs[1].kind.as_str(), segs[1].block_idx), ("tool_use", 3));
    assert_eq!(segs[1].body, "{\n  \"pattern\": \"p\"\n}");
    assert_eq!((segs[1].name.as_deref(), segs[1].tool_id.as_deref()), (Some("Grep"), Some("i")));
    assert_eq!((segs[2].name.as_deref(), segs[2].body.as_str()), (Some("?"), "{}"));
    assert_eq!(segs[2].preview, "?");
}

#[test]
fn user_blocks_become_segments() {
    let ev = event(
        r#"{"type":"user","uuid":"u","message":{"content":[
            {"type":"tool_result","tool_use_id":"i","is_error":true,"content":"out"},
            {"type":"tool_result","content":[{"type":"text","text":"a"},{"type":"image"},{"type":"text","text":"b"}]},
            {"type":"tool_result"},
            {"type":"text","text":"typed"},
            {"type":"image"}]}}"#,
    );
    let all = segments_of(&ev, false);
    let kinds: Vec<&str> = all.iter().map(|s| s.kind.as_str()).collect();
    assert_eq!(kinds, vec!["tool_result", "tool_result", "tool_result", "injected", "image"]);
    assert!(all[0].is_error && !all[1].is_error);
    assert_eq!((all[0].body.as_str(), all[0].tool_id.as_deref()), ("out", Some("i")));
    assert_eq!(all[1].body, "a\nb");
    assert_eq!((all[2].body.as_str(), all[2].nlines), ("", 1));
    assert_eq!((all[4].preview.as_str(), all[4].body.as_str()), ("[Image]", ""));
    // The text of the prompt itself is no segment of its response.
    assert_eq!(segments_of(&ev, true).len(), 3);
}

#[test]
fn plain_text_events_become_segments_unless_they_are_the_prompt() {
    let ev = event(r#"{"type":"user","uuid":"u","message":{"content":"<bash-input>ls</bash-input>"}}"#);
    let segs = segments_of(&ev, false);
    assert_eq!(segs.len(), 1);
    assert_eq!((segs[0].kind.as_str(), segs[0].name.as_deref()), ("injected", Some("bash")));
    assert!(segments_of(&ev, true).is_empty());
    assert!(segments_of(&event(r#"{"type":"user","message":{"content":""}}"#), false).is_empty());
    assert!(segments_of(&event(r#"{"type":"summary","message":{"content":"s"}}"#), false).is_empty());
    assert!(segments_of(&event(r#"{"type":"assistant","message":{"content":"s"}}"#), false).is_empty());
}

#[test]
fn narratives_read_as_prose() {
    let evs = parse_events(&vec![
        r#"{"type":"assistant","uuid":"a","message":{"content":[{"type":"text","text":"One."},{"type":"text","text":"  "},{"type":"tool_use","name":"Bash","input":{"command":"ls"}}]}}"#.to_string(),
        r#"{"type":"user","uuid":"u","message":{"content":[{"type":"tool_result","content":"noise"},{"type":"image"}]}}"#.to_string(),
        r#"{"type":"user","uuid":"v","message":{"content":"<command-name>/x</command-name>"}}"#.to_string(),
        r#"{"type":"user","uuid":"w","message":{"content":"<bash-input>ls"}}"#.to_string(),
        r#"{"type":"user","uuid":"x","isMeta":true,"message":{"content":"hidden"}}"#.to_string(),
        r#"{"type":"user","uuid":"y","message":{"content":"[Request interrupted by user]"}}"#.to_string(),
    ]);
    let mut segs = Vec::new();
    for ev in &evs {
        segs.extend(segments_of(ev, false));
    }
    assert_eq!(
        narrative_of(&segs),
        "One.\n\n[tool: Bash ls]\n\n[커맨드: <command-name>/x</command-name>]\n\n[bash: <bash-input>ls]\n\n[사용자가 중단함]"
    );
    assert_eq!(narrative_of(&[]), "");
}

#[test]
fn prompts_have_text() {
    let like = |line: &str| is_prompt_like(&event(line));
    assert!(like(r#"{"type":"user","message":{"content":"x"}}"#));
    assert!(!like(r#"{"type":"user","message":{"content":" \n"}}"#));
    assert!(!like(r#"{"type":"assistant","message":{"content":"x"}}"#));
    assert!(like(r#"{"type":"user","message":{"content":[{"type":"text","text":""}]}}"#));
    assert!(!like(r#"{"type":"user","message":{"content":[{"type":"tool_result"}]}}"#));
    assert!(!like(r#"{"type":"user"}"#));
}

#[test]
fn content_text_joins_text_blocks() {
    assert_eq!(text_of_content(&json(r#""x""#)), "x");
    assert_eq!(
        text_of_content(&json(r#"[{"type":"text","text":"a"},{"type":"text"},{"type":"image","text":"no"},{"type":"text","text":"b"}]"#)),
        "a\nb"
    );
    assert_eq!(text_of_content(&json("3")), "");
}
