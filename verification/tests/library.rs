use std::path::{Component, Path};

use toml_edit::DocumentMut;
use zeroclaw_coordinator_mcp::config::{
    get_config, history_dir_for, parse_u16, setup_config_path, split_list, DEFAULT_PORT,
};
use zeroclaw_coordinator_mcp::history::{
    ChangeType, HistoryEntry, HistoryManager, RecordError, RollbackAction, RollbackError,
};
use zeroclaw_coordinator_mcp::path::{components_of, file_name_of, join_chars, path_starts_with};
use zeroclaw_coordinator_mcp::rpc::{
    plan_error_code, plan_request, Plan, ToolArgs, ToolCall, ACCESS_DENIED, METHOD_NOT_FOUND,
};
use zeroclaw_coordinator_mcp::server::{PathError, Server, HISTORY_LIMIT};
use zeroclaw_coordinator_mcp::text::{
    append_text, chars_of, decimal_string, replace_text, string_of, trim_text,
};
use zeroclaw_coordinator_mcp::toml::{
    configure_mcp_server, configure_text, get_value_by_path, set_config_text, set_value_by_path,
    ConfigEditError, TomlPathError,
};

const PATHS: &[&str] = &[
    "", "/", "//", "///a", "a", "a/", "a//b", "/a/b/c", "/a/./b", "./a", ".", "./", "..", "../x",
    "/..", "a/..", "a/../b", "/zeroclaw/config.toml", "nested/dir/file.txt", "./.", ".hidden",
    "a/.b/", "/tmp/ws/", "x/./", "...", "a/...",
];

fn std_components(p: &str) -> Vec<String> {
    Path::new(p)
        .components()
        .map(|c| match c {
            Component::RootDir => "/".to_string(),
            Component::CurDir => ".".to_string(),
            Component::ParentDir => "..".to_string(),
            Component::Normal(s) => s.to_str().unwrap().to_string(),
            Component::Prefix(_) => unreachable!(),
        })
        .collect()
}

fn vec_string(v: &[char]) -> String {
    v.iter().collect()
}

fn strings(v: &[&str]) -> Vec<String> {
    v.iter().map(|s| s.to_string()).collect()
}

fn server(workspace: &str, blacklist: &[&str], whitelist: &[&str]) -> Server {
    Server::new(workspace.to_string(), strings(blacklist), strings(whitelist), "/history".to_string())
}

fn args(path: &str, content: &str, value: &str, target: &str, replacement: &str) -> ToolArgs {
    ToolArgs {
        path: path.to_string(),
        content: content.to_string(),
        value: value.to_string(),
        target: target.to_string(),
        replacement: replacement.to_string(),
    }
}

fn no_args() -> ToolArgs {
    args("", "", "", "", "")
}

fn entry(path: &str, backup: Option<&str>) -> HistoryEntry {
    HistoryEntry {
        timestamp: 1,
        path: path.to_string(),
        change_type: if backup.is_some() { ChangeType::Update } else { ChangeType::Create },
        backup_file: backup.map(|b| b.to_string()),
    }
}

#[test]
fn components_agree_with_std_path() {
    for p in PATHS {
        let got: Vec<String> = components_of(&chars_of(p)).iter().map(|c| vec_string(c)).collect();
        assert_eq!(got, std_components(p), "components of {:?}", p);
    }
}

#[test]
fn join_agrees_with_std_path() {
    for a in PATHS {
        for b in PATHS {
            let got = vec_string(&join_chars(&chars_of(a), &chars_of(b)));
            let want = Path::new(a).join(b);
            assert_eq!(got, want.to_str().unwrap(), "{:?} joined with {:?}", a, b);
        }
    }
}

#[test]
fn starts_with_agrees_with_std_path() {
    for a in PATHS {
        for b in PATHS {
            let got = path_starts_with(&chars_of(a), &chars_of(b));
            assert_eq!(got, Path::new(a).starts_with(b), "{:?} starts with {:?}", a, b);
        }
    }
}

#[test]
fn file_name_agrees_with_std_path() {
    for p in PATHS {
        let got = file_name_of(&chars_of(p)).map(|v| vec_string(&v));
        let want = Path::new(p).file_name().map(|n| n.to_str().unwrap().to_string());
        assert_eq!(got, want, "file name of {:?}", p);
    }
}

#[test]
fn trim_agrees_with_str_trim_on_every_char() {
    for code in 0u32..0x3100 {
        if let Some(c) = char::from_u32(code) {
            let s = format!("{c}x{c}");
            assert_eq!(trim_text(&s), s.trim(), "trimming U+{:04X}", code);
        }
    }
    assert_eq!(trim_text("  \t a b \n"), "a b");
    assert_eq!(trim_text(""), "");
}

#[test]
fn replace_agrees_with_str_replace() {
    let cases = [
        ("line 1\nline 2\n", "line 1", "first line"),
        ("aaaa", "aa", "b"),
        ("abc", "", "-"),
        ("", "", "x"),
        ("", "a", "x"),
        ("héllo wörld", "ö", "o"),
        ("abab", "ab", "abab"),
        ("no match", "zzz", "y"),
    ];
    for (s, t, r) in cases {
        assert_eq!(replace_text(s, t, r), s.replace(t, r), "{:?}.replace({:?}, {:?})", s, t, r);
    }
}

#[test]
fn append_adds_line_breaks() {
    assert_eq!(append_text("", "line 1"), "line 1\n");
    assert_eq!(append_text("line 1\n", "line 2"), "line 1\nline 2\n");
    assert_eq!(append_text("no break", "next\n"), "no break\nnext\n");
    assert_eq!(append_text("", ""), "\n");
}

#[test]
fn decimal_agrees_with_to_string() {
    for n in [0u128, 7, 10, 99, 1_000_000_007, 1_700_000_000_123_456_789, u128::MAX] {
        assert_eq!(decimal_string(n), n.to_string());
    }
}

#[test]
fn chars_round_trip() {
    let s = "päth/ünïcode";
    assert_eq!(string_of(&chars_of(s)), s);
}

#[test]
fn port_parsing_agrees_with_str_parse() {
    let cases = [
        "0", "8090", "65535", "65536", "99999999", "+5", "+", "-1", "", "007", "12a", " 5", "5 ",
        "٣",
    ];
    for s in cases {
        assert_eq!(parse_u16(s), s.parse::<u16>().ok(), "parsing {:?}", s);
    }
}

#[test]
fn list_entries_are_trimmed_and_non_empty() {
    assert_eq!(split_list(" secret , private,,  ,id_rsa "), strings(&["secret", "private", "id_rsa"]));
    assert!(split_list("").is_empty());
    assert!(split_list(" , ").is_empty());
}

#[test]
fn config_defaults_and_flags() {
    let base = strings(&["bin"]);
    let c = get_config(&base, None, None, None, None);
    assert_eq!(c.workspace, ".");
    assert_eq!(c.blacklist, "");
    assert_eq!(c.whitelist, "");
    assert_eq!(c.port, DEFAULT_PORT);
    assert_eq!(c.transport, "stdio");

    let flags = strings(&["bin", "--transport", "sse", "--port", "7000"]);
    let c = get_config(&flags, None, None, None, Some("9999".to_string()));
    assert_eq!(c.transport, "sse");
    assert_eq!(c.port, 7000);

    // A `--port` flag without a value gives the default, whatever the environment says.
    let dangling = strings(&["bin", "--port"]);
    assert_eq!(get_config(&dangling, None, None, None, Some("9999".to_string())).port, 8090);

    // An unparsable port gives the default.
    let bad = strings(&["bin", "--port", "http"]);
    assert_eq!(get_config(&bad, None, None, None, None).port, 8090);
    assert_eq!(get_config(&base, None, None, None, Some("70000".to_string())).port, 8090);

    // `--transport` at the end keeps the default.
    let t = strings(&["bin", "--transport"]);
    assert_eq!(get_config(&t, None, None, None, None).transport, "stdio");
}

#[test]
fn history_and_setup_locations() {
    assert_eq!(history_dir_for(Some("/home/u".to_string())), "/home/u/.zeroclaw/mcp-coordinator/history");
    assert_eq!(history_dir_for(None), ".zeroclaw_history");
    assert_eq!(setup_config_path("/home/u"), "/home/u/.zeroclaw/config.toml");
    let h = HistoryManager::new("/var/h".to_string(), 3);
    assert_eq!(h.get_manifest_path(), "/var/h/history.json");
    assert_eq!(h.limit(), 3);
    assert_eq!(h.history_dir(), "/var/h");
}

#[test]
fn history_keeps_the_newest_entries() {
    let h = HistoryManager::new("/h".to_string(), 2);
    let mut hist = Vec::new();
    assert!(h.add_entry(&mut hist, entry("/a", Some("1_a"))).is_empty());
    assert!(h.add_entry(&mut hist, entry("/b", None)).is_empty());
    assert_eq!(h.add_entry(&mut hist, entry("/c", Some("3_c"))), strings(&["/h/1_a"]));
    assert!(h.add_entry(&mut hist, entry("/d", None)).is_empty());
    assert_eq!(hist.len(), 2);
    assert_eq!(hist[0].path, "/c");
    assert_eq!(hist[1].path, "/d");
    // The entry added last comes off first.
    assert_eq!(h.pop_entry(&mut hist).unwrap().path, "/d");
    assert_eq!(h.pop_entry(&mut hist).unwrap().path, "/c");
    assert!(h.pop_entry(&mut hist).is_none());
    assert!(hist.is_empty());
}

#[test]
fn server_history_keeps_ten_changes() {
    let s = server("/ws", &[], &[]);
    assert_eq!(s.history().limit(), HISTORY_LIMIT);
    assert_eq!(HISTORY_LIMIT, 10);
    let mut hist = Vec::new();
    for i in 0..12 {
        let b = format!("{i}_f");
        s.history().add_entry(&mut hist, entry("/ws/f", Some(&b)));
    }
    assert_eq!(hist.len(), 10);
    assert_eq!(hist[0].backup_file.as_deref(), Some("2_f"));
}

#[test]
fn recording_plans() {
    let h = HistoryManager::new("/h".to_string(), 10);
    let nanos: u128 = 1_700_000_000_123_456_789;
    let p = h.plan_record("/ws/notes.txt", nanos, true).unwrap();
    assert_eq!(p.entry.timestamp, 1_700_000_000);
    assert_eq!(p.entry.change_type, ChangeType::Update);
    assert_eq!(p.entry.backup_file.as_deref(), Some("1700000000123456789_notes.txt"));
    assert_eq!(p.backup_path.as_deref(), Some("/h/1700000000123456789_notes.txt"));
    assert_eq!(p.entry.path, "/ws/notes.txt");

    let p = h.plan_record("/ws/new.txt", nanos, false).unwrap();
    assert_eq!(p.entry.change_type, ChangeType::Create);
    assert!(p.entry.backup_file.is_none());
    assert!(p.backup_path.is_none());

    // An existing path without a final name cannot be backed up.
    assert!(matches!(h.plan_record("/ws/..", nanos, true), Err(RecordError::NoFileName)));
    assert!(matches!(h.plan_record("/", nanos, true), Err(RecordError::NoFileName)));
}

#[test]
fn rollback_plans() {
    let h = HistoryManager::new("/h".to_string(), 10);
    assert!(matches!(h.plan_rollback(None), Err(RollbackError::NoHistory)));
    match h.plan_rollback(Some(entry("/ws/a", Some("5_a")))).unwrap() {
        RollbackAction::Restore { path, backup_path } => {
            assert_eq!(path, "/ws/a");
            assert_eq!(backup_path, "/h/5_a");
        }
        other => panic!("unexpected {:?}", other),
    }
    match h.plan_rollback(Some(entry("/ws/b", None))).unwrap() {
        RollbackAction::Remove { path } => assert_eq!(path, "/ws/b"),
        other => panic!("unexpected {:?}", other),
    }
    let broken = HistoryEntry {
        timestamp: 0,
        path: "/ws/c".to_string(),
        change_type: ChangeType::Update,
        backup_file: None,
    };
    assert!(matches!(h.plan_rollback(Some(broken)), Err(RollbackError::MissingBackup)));
}

#[test]
fn path_errors_name_the_reason() {
    let s = server("/zeroclaw", &["secret"], &["/share"]);
    match s.validate_path("/etc/passwd") {
        Err(PathError::NotWhitelisted { path }) => assert_eq!(path, "/etc/passwd"),
        other => panic!("unexpected {:?}", other),
    }
    match s.validate_path("notes/my_secret.txt") {
        Err(PathError::Blacklisted { file_name }) => assert_eq!(file_name, "my_secret.txt"),
        other => panic!("unexpected {:?}", other),
    }
    // The blacklist is checked on the file name only.
    assert!(s.validate_path("/zeroclaw/secret/plain.txt").is_ok());
    // It applies in every allowed directory.
    assert!(s.validate_path("/share/secret.txt").is_err());
    assert!(s.validate_path("/share/deep/er/file").is_ok());
    // Whitelisting goes by whole components.
    assert!(s.validate_path("/sharefoo/x").is_err());
    // Relative paths resolve against the workspace; `..` may not lead back out
    // of an allowed directory, and a path naming `..` past its root is refused.
    assert!(matches!(s.validate_path("../etc/passwd"), Err(PathError::NotWhitelisted { .. })));
    assert!(s.validate_path("/zeroclaw/../etc/passwd").is_err());
    assert!(s.validate_path("/share/../etc/shadow").is_err());
    assert!(s.validate_path("notes/../../etc/passwd").is_err());
    assert!(s.validate_path("/zeroclaw/a/../b.txt").is_err());
    assert!(s.validate_path("./notes/./todo.txt").is_ok());
    assert_eq!(s.resolve("a/b"), "/zeroclaw/a/b");
    assert_eq!(s.resolve("/abs"), "/abs");
    assert_eq!(s.config_path(), "/zeroclaw/config.toml");
    match s.checked_path("x.txt") {
        Ok(p) => assert_eq!(p, "/zeroclaw/x.txt"),
        other => panic!("unexpected {:?}", other),
    }
    assert!(s.checked_path("/outside/x").is_err());
}

#[test]
fn whitelist_entries_are_trimmed() {
    let s = server("/ws", &[], &[" /a ", "", "  ", "/b"]);
    assert_eq!(s.whitelist(), &strings(&["/a", "/b"]));
    assert_eq!(s.workspace(), "/ws");
    assert!(s.validate_path("/a/file").is_ok());
}

#[test]
fn listing_roots_are_distinct_directories() {
    let s = server("/ws", &[], &["/ws/", "/other", "/ws", "/other/."]);
    assert_eq!(s.listing_roots(), strings(&["/ws", "/other"]));
    let s = server("/ws", &["hidden"], &["/ws"]);
    let found = strings(&["/ws/a.txt", "/ws/hidden.txt", "/elsewhere/b.txt", "/ws/d/c.txt"]);
    assert_eq!(s.listable_files(found), strings(&["/ws/a.txt", "/ws/d/c.txt"]));
}

#[test]
fn request_plans_and_codes() {
    let s = server("/ws", &["IDENTITY"], &[]);
    let p = plan_request(&s, "initialize", "", no_args());
    assert!(matches!(p, Plan::Initialize));
    assert_eq!(plan_error_code(&p), None);
    assert!(matches!(plan_request(&s, "tools/list", "", no_args()), Plan::ListTools));

    let p = plan_request(&s, "resources/list", "", no_args());
    assert!(matches!(p, Plan::MethodNotFound));
    assert_eq!(plan_error_code(&p), Some(METHOD_NOT_FOUND));
    assert_eq!(METHOD_NOT_FOUND, -32601);

    let p = plan_request(&s, "tools/call", "delete_everything", no_args());
    assert_eq!(plan_error_code(&p), Some(-32601));

    let p = plan_request(&s, "tools/call", "read_file", args("/etc/passwd", "", "", "", ""));
    assert!(matches!(p, Plan::Denied(PathError::NotWhitelisted { .. })));
    assert_eq!(plan_error_code(&p), Some(ACCESS_DENIED));
    assert_eq!(ACCESS_DENIED, -32001);

    let p = plan_request(&s, "tools/call", "write_file", args("IDENTITY.md", "x", "", "", ""));
    assert!(matches!(p, Plan::Denied(PathError::Blacklisted { .. })));

    match plan_request(&s, "tools/call", "write_file", args("a.txt", "hi", "", "", "")) {
        Plan::Call(ToolCall::WriteFile { path, content }) => {
            assert_eq!(path, "a.txt");
            assert_eq!(content, "hi");
        }
        other => panic!("unexpected {:?}", other),
    }
    match plan_request(&s, "tools/call", "replace_in_file", args("a.txt", "", "", "x", "y")) {
        Plan::Call(ToolCall::ReplaceInFile { path, target, replacement }) => {
            assert_eq!((path.as_str(), target.as_str(), replacement.as_str()), ("a.txt", "x", "y"));
        }
        other => panic!("unexpected {:?}", other),
    }
    match plan_request(&s, "tools/call", "set_config_value", args("agents.model", "", "\"x\"", "", "")) {
        Plan::Call(ToolCall::SetConfigValue { key_path, value }) => {
            assert_eq!(key_path, "agents.model");
            assert_eq!(value, "\"x\"");
        }
        other => panic!("unexpected {:?}", other),
    }
    assert!(matches!(plan_request(&s, "tools/call", "rollback", no_args()), Plan::Call(ToolCall::Rollback)));
    assert!(matches!(plan_request(&s, "tools/call", "list_files", no_args()), Plan::Call(ToolCall::ListFiles)));
    assert!(matches!(
        plan_request(&s, "tools/call", "append_to_file", args("b.txt", "c", "", "", "")),
        Plan::Call(ToolCall::AppendToFile { .. })
    ));
    assert!(matches!(
        plan_request(&s, "tools/call", "read_file", args("b.txt", "", "", "", "")),
        Plan::Call(ToolCall::ReadFile { .. })
    ));

    // `set_config_value` checks `config.toml`, whatever key path it is given.
    let s = server("/ws", &["config"], &[]);
    assert!(matches!(
        plan_request(&s, "tools/call", "set_config_value", args("a", "", "1", "", "")),
        Plan::Denied(_)
    ));
    // Rollback is never refused for a path.
    assert!(matches!(plan_request(&s, "tools/call", "rollback", no_args()), Plan::Call(ToolCall::Rollback)));
}

#[test]
fn read_after_write_returns_the_value() {
    let mut doc: DocumentMut = "[a]\nx = 1\n".parse().unwrap();
    set_value_by_path(&mut doc, "a.b.c", "[1, 2]").unwrap();
    assert_eq!(get_value_by_path(&doc, "a.b.c").unwrap(), "[1, 2]");
    assert_eq!(get_value_by_path(&doc, "a.x").unwrap(), "1");
    set_value_by_path(&mut doc, "a.x", "\"s\"").unwrap();
    assert_eq!(get_value_by_path(&doc, "a.x").unwrap(), "\"s\"");
}

#[test]
fn toml_path_errors() {
    let mut doc: DocumentMut = "a = 1\ninline = { x = 1 }\n".parse().unwrap();
    match get_value_by_path(&doc, "a.b") {
        Err(TomlPathError::KeyNotFound { key }) => assert_eq!(key, "b"),
        other => panic!("unexpected {:?}", other),
    }
    match get_value_by_path(&doc, "missing.b") {
        Err(TomlPathError::KeyNotFound { key }) => assert_eq!(key, "missing"),
        other => panic!("unexpected {:?}", other),
    }
    assert!(matches!(set_value_by_path(&mut doc, "k", "not toml ["), Err(TomlPathError::InvalidValue)));
    assert!(matches!(set_value_by_path(&mut doc, "a.b", "2"), Err(TomlPathError::NotATable)));
    // A value in the middle of a longer path is replaced by a table.
    set_value_by_path(&mut doc, "a.b.c", "2").unwrap();
    assert_eq!(get_value_by_path(&doc, "a.b.c").unwrap(), "2");
    // Inline tables take the new key in place.
    set_value_by_path(&mut doc, "inline.y", "3").unwrap();
    assert_eq!(get_value_by_path(&doc, "inline.y").unwrap(), "3");
    assert!(doc.to_string().contains("inline = { x = 1"));
}

#[test]
fn config_text_edits() {
    let t = set_config_text("# keep me\nkey = \"old\"\n", "key", "\"new\"").unwrap();
    assert!(t.contains("# keep me"));
    assert!(t.contains("key = \"new\""));
    assert!(matches!(set_config_text("this is [not toml", "key", "1"), Err(ConfigEditError::Parse)));
    assert!(matches!(
        set_config_text("key = 1", "key", "???"),
        Err(ConfigEditError::Write(TomlPathError::InvalidValue))
    ));
    assert!(configure_text("[[broken", "/bin/c").is_none());
}

#[test]
fn configure_replaces_odd_shapes_and_keeps_other_servers() {
    let mut doc: DocumentMut = "mcp = 5\n".parse().unwrap();
    configure_mcp_server(&mut doc, "/bin/c");
    let text = doc.to_string();
    // The key keeps its own formatting (`mcp ` with its space) as the new table header.
    assert!(text.starts_with("[mcp"), "{}", text);
    assert!(text.contains("enabled = true"));
    assert!(text.contains("transport = \"stdio\""));
    assert!(text.contains("args = [\"--transport\", \"stdio\"]"));

    let start = "[mcp]\nenabled = false\n\n[[mcp.servers]]\nname = \"other\"\ncommand = \"/x\"\n";
    let t = configure_text(start, "/bin/c").unwrap();
    assert!(t.contains("name = \"other\""));
    assert!(t.contains("command = \"/x\""));
    assert!(t.contains("command = \"/bin/c\""));
    assert!(t.contains("enabled = true"));
    assert!(!t.contains("enabled = false"));
    assert_eq!(t.matches("[[mcp.servers]]").count(), 2);
    let again = configure_text(&t, "/bin/d").unwrap();
    assert_eq!(again.matches("[[mcp.servers]]").count(), 2);
    assert!(again.contains("command = \"/bin/d\""));
    assert!(!again.contains("command = \"/bin/c\""));
}

#[test]
fn writing_a_value_keeps_everything_else() {
    let text = "# top\ntitle = \"x\" # keep\n\n[agents.coder]\nmodel = \"a\"\nnote = 'raw'  # why\n\n[other]\nn = 0x10\n";
    let mut doc: DocumentMut = text.parse().unwrap();
    set_value_by_path(&mut doc, "agents.coder.model", "\"b\"").unwrap();
    let out = doc.to_string();
    assert!(out.contains("# top\ntitle = \"x\" # keep\n"));
    assert!(out.contains("note = 'raw'  # why\n"));
    assert!(out.contains("[other]\nn = 0x10\n"));
    assert_eq!(get_value_by_path(&doc, "other.n").unwrap(), "0x10");
    assert_eq!(get_value_by_path(&doc, "agents.coder.model").unwrap(), "\"b\"");
}

#[test]
fn setup_keeps_other_settings_of_the_entry() {
    let start = "[mcp]\nenabled = false\ntimeout = 30 # seconds\n\n[[mcp.servers]]\nname = \"coordinator\"\nenv = { A = \"1\" }\ncommand = \"/old\"\n";
    let t = configure_text(start, "/new").unwrap();
    assert!(t.contains("timeout = 30 # seconds"));
    assert!(t.contains("env = { A = \"1\" }"));
    assert!(t.contains("command = \"/new\""));
    assert!(!t.contains("/old"));
    assert_eq!(t.matches("[[mcp.servers]]").count(), 1);
    // An existing entry is rewritten in place: no `transport` key is added to it.
    assert!(!t.contains("transport = \"stdio\""));
}

#[test]
fn roots_that_name_a_parent_still_work() {
    // A root may itself hold `..`; only `..` past the root is refused.
    let s = server("../shared", &[], &[]);
    assert!(s.validate_path("notes.txt").is_ok());
    assert!(s.validate_path("../other.txt").is_err());
    let s = server(".", &[], &[]);
    assert!(s.validate_path("a/b.txt").is_ok());
    assert!(s.validate_path("../a.txt").is_err());
    assert!(s.validate_path("/etc/passwd").is_err());
}
