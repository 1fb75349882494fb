use std::collections::BTreeMap;

use toml_edit::DocumentMut;
use zeroclaw_coordinator_mcp::config::get_config;
use zeroclaw_coordinator_mcp::history::{HistoryEntry, RollbackAction};
use zeroclaw_coordinator_mcp::server::{PathError, Server};
use zeroclaw_coordinator_mcp::text::{append_text, replace_text};
use zeroclaw_coordinator_mcp::toml::{
    configure_text, get_value_by_path, set_config_text, set_value_by_path,
};

fn strings(v: &[&str]) -> Vec<String> {
    v.iter().map(|s| s.to_string()).collect()
}

fn server(workspace: &str, blacklist: &[&str], whitelist: &[&str]) -> Server {
    Server::new(
        workspace.to_string(),
        strings(blacklist),
        strings(whitelist),
        "/history".to_string(),
    )
}

/// A coordinator over an in-memory file system: the library decides, this
/// harness performs the file operations the way the program does.
struct Workspace {
    server: Server,
    files: BTreeMap<String, String>,
    history: Vec<HistoryEntry>,
    clock: u128,
}

impl Workspace {
    fn new(server: Server) -> Self {
        Workspace { server, files: BTreeMap::new(), history: Vec::new(), clock: 1_700_000_000_000_000_000 }
    }

    fn record_change(&mut self, path: &str) -> Result<(), String> {
        let exists = self.files.contains_key(path);
        self.clock += 1;
        let plan = self
            .server
            .history()
            .plan_record(path, self.clock, exists)
            .map_err(|e| format!("{:?}", e))?;
        if let Some(backup) = &plan.backup_path {
            let old = self.files[path].clone();
            self.files.insert(backup.clone(), old);
        }
        let removed = self.server.history().add_entry(&mut self.history, plan.entry);
        for r in removed {
            self.files.remove(&r);
        }
        Ok(())
    }

    fn write_file(&mut self, rel: &str, content: &str) -> Result<(), String> {
        let path = self.server.checked_path(rel).map_err(|e| format!("{:?}", e))?;
        self.record_change(&path)?;
        self.files.insert(path, content.to_string());
        Ok(())
    }

    fn read(&self, rel: &str) -> Option<String> {
        self.files.get(&self.server.resolve(rel)).cloned()
    }

    fn append_to_file(&mut self, rel: &str, content: &str) -> Result<(), String> {
        let path = self.server.checked_path(rel).map_err(|e| format!("{:?}", e))?;
        self.record_change(&path)?;
        let existing = self.files.get(&path).cloned().unwrap_or_default();
        self.files.insert(path, append_text(&existing, content));
        Ok(())
    }

    fn replace_in_file(&mut self, rel: &str, target: &str, replacement: &str) -> Result<(), String> {
        let path = self.server.checked_path(rel).map_err(|e| format!("{:?}", e))?;
        self.record_change(&path)?;
        let content = self.files.get(&path).cloned().ok_or("Failed to read file")?;
        self.files.insert(path, replace_text(&content, target, replacement));
        Ok(())
    }

    fn set_config_value(&mut self, key: &str, value: &str) -> Result<(), String> {
        let path = self.server.config_path();
        self.server.validate_path(&path).map_err(|e| format!("{:?}", e))?;
        self.record_change(&path)?;
        let content = self.files.get(&path).cloned().ok_or("Failed to read config.toml")?;
        let new = set_config_text(&content, key, value).map_err(|e| format!("{:?}", e))?;
        self.files.insert(path, new);
        Ok(())
    }

    fn rollback(&mut self) -> Result<(), String> {
        let entry = self.server.history().pop_entry(&mut self.history);
        match self.server.history().plan_rollback(entry).map_err(|e| format!("{:?}", e))? {
            RollbackAction::Restore { path, backup_path } => {
                let content = self.files.get(&backup_path).cloned().ok_or("missing backup")?;
                self.files.insert(path, content);
                self.files.remove(&backup_path);
            }
            RollbackAction::Remove { path } => {
                self.files.remove(&path);
            }
        }
        Ok(())
    }

    fn list_files(&self) -> Vec<String> {
        let mut found = Vec::new();
        for root in self.server.listing_roots() {
            for f in self.files.keys() {
                if std::path::Path::new(f).starts_with(&root) && !f.starts_with("/history") {
                    found.push(f.clone());
                }
            }
        }
        self.server.listable_files(found)
    }
}

#[test]
fn test_path_validation() {
    let server = server("/zeroclaw", &["IDENTITY.md"], &["/zeroclaw", "/share/zeroclaw"]);

    // Allowed
    assert!(server.validate_path("/zeroclaw/config.toml").is_ok());
    assert!(server.validate_path("/share/zeroclaw/data.json").is_ok());

    // Denied (outside whitelist)
    assert!(server.validate_path("/etc/passwd").is_err());

    // Denied (blacklisted)
    assert!(server.validate_path("/zeroclaw/IDENTITY.md").is_err());
}

#[test]
fn test_workspace_fallback_validation() {
    let server = server("/custom_ws", &[], &[]);

    // Should allow access to its own workspace even if whitelist is empty
    assert!(server.validate_path("/custom_ws/file.txt").is_ok());
}

#[test]
fn test_blacklist_substring_validation() {
    let server = server("/zeroclaw", &["IDENTITY"], &["/zeroclaw"]);

    // Exact match
    assert!(server.validate_path("/zeroclaw/IDENTITY").is_err());

    // Substring match
    assert!(server.validate_path("/zeroclaw/my_IDENTITY_file.txt").is_err());
    assert!(server.validate_path("/zeroclaw/IDENTITY.md").is_err());

    // Allowed
    assert!(server.validate_path("/zeroclaw/ident.txt").is_ok());
}

#[test]
fn test_validate_relative_paths() {
    let server = server("/zeroclaw", &[], &["/zeroclaw"]);

    // Relative paths should resolve to workspace and be allowed
    assert!(server.validate_path("config.toml").is_ok());
    assert!(server.validate_path("nested/file.txt").is_ok());
}

#[test]
fn test_write_and_list_files_recursive() {
    let workspace = "/tmp/ws_recursive";
    let mut ws = Workspace::new(server(workspace, &[], &[workspace]));

    // Test writing a file to a nested non-existent directory
    let rel_path = "nested/dir/file.txt";
    let content = "hello world";
    assert!(ws.write_file(rel_path, content).is_ok());

    // Verify the file was created and content is correct
    let abs_path = format!("{}/{}", workspace, rel_path);
    assert!(ws.files.contains_key(&abs_path));
    assert_eq!(ws.read(rel_path).unwrap(), content);

    // Test recursive file listing
    let files = ws.list_files();
    assert_eq!(files.len(), 1);
    assert!(files[0].ends_with("file.txt"));
}

#[test]
fn test_config_from_env() {
    let args = strings(&["zeroclaw-coordinator-mcp"]);
    let config = get_config(
        &args,
        Some("/tmp/ws".to_string()),
        Some("secret,private".to_string()),
        Some("/tmp/other,/var/log".to_string()),
        Some("9999".to_string()),
    );

    assert_eq!(config.workspace, "/tmp/ws");
    assert_eq!(config.blacklist, "secret,private");
    assert_eq!(config.whitelist, "/tmp/other,/var/log");
    assert_eq!(config.port, 9999);
    assert_eq!(config.transport, "stdio"); // Default
}

#[test]
fn test_complex_multi_workspace_scenario() {
    let ws1 = "/tmp/multi_ws1";
    let ws2 = "/tmp/multi_ws2";
    let mut ws = Workspace::new(server(ws1, &["private"], &[ws1, ws2]));

    // 1. Test writing to both workspaces
    assert!(ws.write_file(&format!("{}/public.txt", ws1), "data1").is_ok());
    assert!(ws.write_file(&format!("{}/public.txt", ws2), "data2").is_ok());

    // 2. Test blacklisting in both workspaces
    assert!(ws.write_file(&format!("{}/private_info.txt", ws1), "secret").is_err());
    assert!(ws.write_file(&format!("{}/private_info.txt", ws2), "secret").is_err());

    // 3. Test listing includes all workspaces
    let files = ws.list_files();
    assert!(files.iter().any(|f| f.contains("public.txt")));
    // Should contain 2 files (one in each ws)
    let public_files: Vec<_> = files.iter().filter(|f| f.contains("public.txt")).collect();
    assert_eq!(public_files.len(), 2);

    // 4. Test access outside both workspaces
    assert!(ws.server.validate_path("/etc/shadow").is_err());
}

#[test]
fn test_rollback_functionality() {
    let workspace = "/tmp/ws_rollback";
    let mut ws = Workspace::new(server(workspace, &[], &[workspace]));

    let file_path = "test.txt";
    let content1 = "initial content";
    let content2 = "updated content";

    // 1. Rollback creation
    ws.write_file(file_path, content1).unwrap();
    assert!(ws.read(file_path).is_some());
    ws.rollback().unwrap();
    assert!(ws.read(file_path).is_none());

    // 2. Rollback update
    ws.write_file(file_path, content1).unwrap();
    ws.write_file(file_path, content2).unwrap();
    assert_eq!(ws.read(file_path).unwrap(), content2);
    ws.rollback().unwrap();
    assert_eq!(ws.read(file_path).unwrap(), content1);

    // 3. Rollback config update
    let config_path = ws.server.config_path();
    ws.files.insert(config_path.clone(), "key = \"old\"".to_string());
    ws.set_config_value("key", "\"new\"").unwrap();
    assert!(ws.files[&config_path].contains("\"new\""));
    ws.rollback().unwrap();
    assert!(ws.files[&config_path].contains("\"old\""));
}

#[test]
fn test_advanced_editing_tools() {
    let workspace = "/tmp/ws_editing";
    let mut ws = Workspace::new(server(workspace, &[], &[workspace]));

    let file_path = "edit_test.txt";

    // 1. Test append_to_file
    ws.append_to_file(file_path, "line 1").unwrap();
    ws.append_to_file(file_path, "line 2").unwrap();
    let content = ws.read(file_path).unwrap();
    assert!(content.contains("line 1\nline 2\n"));

    // 2. Test replace_in_file
    ws.replace_in_file(file_path, "line 1", "first line").unwrap();
    let content = ws.read(file_path).unwrap();
    assert!(content.contains("first line\nline 2\n"));

    // 3. Test rollback of advanced tools
    ws.rollback().unwrap(); // undo replace
    let content = ws.read(file_path).unwrap();
    assert!(content.contains("line 1\nline 2\n"));

    ws.rollback().unwrap(); // undo second append
    let content = ws.read(file_path).unwrap();
    assert_eq!(content, "line 1\n");
}

#[test]
fn test_setup_command_logic() {
    // 1. Initial config
    let initial = "default_provider = \"anthropic\"\n";

    // 2. Run configuration
    let content = configure_text(initial, "/usr/local/bin/coordinator").unwrap();
    assert!(content.contains("[mcp]"));
    assert!(content.contains("enabled = true"));
    assert!(content.contains("[[mcp.servers]]"));
    assert!(content.contains("name = \"coordinator\""));
    assert!(content.contains("command = \"/usr/local/bin/coordinator\""));

    // 3. Run again, should update (or stay same)
    let content = configure_text(&content, "/opt/bin/coordinator").unwrap();
    assert!(content.contains("command = \"/opt/bin/coordinator\""));
    // Should still only have one coordinator
    let count = content.matches("name = \"coordinator\"").count();
    assert_eq!(count, 1);
}

#[test]
fn test_get_value_by_path() {
    let toml = r#"
[agents.coder]
model = "gpt-4"
"#;
    let doc: DocumentMut = toml.parse().unwrap();
    assert_eq!(get_value_by_path(&doc, "agents.coder.model").unwrap(), "\"gpt-4\"");
}

#[test]
fn test_set_value_by_path_preserves_comments() {
    let toml = r#"
[agents.coder]
# This is a comment
model = "gpt-3.5"
"#;
    let mut doc: DocumentMut = toml.parse().unwrap();
    set_value_by_path(&mut doc, "agents.coder.model", "\"gpt-4\"").unwrap();

    let new_toml = doc.to_string();
    assert!(new_toml.contains("# This is a comment"));
    assert!(new_toml.contains("model = \"gpt-4\""));
}

#[test]
fn test_set_value_creates_missing_tables() {
    let mut doc = DocumentMut::new();
    set_value_by_path(&mut doc, "new.table.key", "true").unwrap();
    assert!(doc.to_string().contains("[new.table]"));
    assert!(doc.to_string().contains("key = true"));
}

#[test]
fn own_binary_is_always_blacklisted() {
    let server = server("/zeroclaw", &[], &["/zeroclaw"]);
    match server.validate_path("/zeroclaw/zeroclaw-coordinator-mcp") {
        Err(PathError::Blacklisted { file_name }) => assert_eq!(file_name, "zeroclaw-coordinator-mcp"),
        other => panic!("unexpected {:?}", other),
    }
}
