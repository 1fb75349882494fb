//! How the coordinator answers a JSON-RPC request: which method or tool it
//! names, which path check comes first, and the error codes of the answers.

use vstd::prelude::*;
use crate::path::chars_equal;
use crate::server::{check_of, check_path, PathCheck, PathError, Server, ServerView};
use crate::text::chars_of;

verus! {

/// The code of an answer to an unknown method or tool.
pub const METHOD_NOT_FOUND: i32 = -32601;

/// The code of an answer to a tool call whose path is refused.
pub const ACCESS_DENIED: i32 = -32001;

/// The code of an answer to a tool call that failed while it ran.
pub const TOOL_FAILED: i32 = -32000;

/// The arguments of a tool call; each is empty when the request does not
/// give it as a string.
pub struct ToolArgs {
    pub path: String,
    pub content: String,
    pub value: String,
    pub target: String,
    pub replacement: String,
}

/// A tool call that passed its path check, ready to run.
#[derive(Debug)]
pub enum ToolCall {
    ListFiles,
    ReadFile { path: String },
    WriteFile { path: String, content: String },
    SetConfigValue { key_path: String, value: String },
    Rollback,
    AppendToFile { path: String, content: String },
    ReplaceInFile { path: String, target: String, replacement: String },
}

/// What to do with a request.
#[derive(Debug)]
pub enum Plan {
    /// Answer `initialize` with the server's protocol version and capabilities.
    Initialize,
    /// Answer `tools/list` with the tool descriptions.
    ListTools,
    /// Run the tool.
    Call(ToolCall),
    /// Refuse the tool call with `ACCESS_DENIED` for this reason.
    Denied(PathError),
    /// Answer with `METHOD_NOT_FOUND`.
    MethodNotFound,
}

/// A tool call as plain values.
pub enum CallView {
    ListFiles,
    ReadFile(Seq<char>),
    WriteFile(Seq<char>, Seq<char>),
    SetConfigValue(Seq<char>, Seq<char>),
    Rollback,
    AppendToFile(Seq<char>, Seq<char>),
    ReplaceInFile(Seq<char>, Seq<char>, Seq<char>),
}

/// A plan as plain values.
pub enum PlanView {
    Initialize,
    ListTools,
    Call(CallView),
    Denied(PathCheck),
    MethodNotFound,
}

/// The view of a tool call.
pub open spec fn call_view(c: ToolCall) -> CallView {
    match c {
        ToolCall::ListFiles => CallView::ListFiles,
        ToolCall::ReadFile { path } => CallView::ReadFile(path@),
        ToolCall::WriteFile { path, content } => CallView::WriteFile(path@, content@),
        ToolCall::SetConfigValue { key_path, value } => CallView::SetConfigValue(key_path@, value@),
        ToolCall::Rollback => CallView::Rollback,
        ToolCall::AppendToFile { path, content } => CallView::AppendToFile(path@, content@),
        ToolCall::ReplaceInFile { path, target, replacement } => CallView::ReplaceInFile(
            path@,
            target@,
            replacement@,
        ),
    }
}

/// The view of a plan.
pub open spec fn plan_view(p: Plan) -> PlanView {
    match p {
        Plan::Initialize => PlanView::Initialize,
        Plan::ListTools => PlanView::ListTools,
        Plan::Call(c) => PlanView::Call(call_view(c)),
        Plan::Denied(e) => PlanView::Denied(check_of(Err(e))),
        Plan::MethodNotFound => PlanView::MethodNotFound,
    }
}

/// A tool call goes ahead when `check` allows the path it names, and is
/// refused with the reason otherwise.
pub open spec fn guarded(check: PathCheck, call: CallView) -> PlanView {
    if check is Allowed {
        PlanView::Call(call)
    } else {
        PlanView::Denied(check)
    }
}

/// What the server does with a request for `method`, naming the tool
/// `name` with the given arguments (empty when absent).
pub open spec fn plan_spec(
    s: ServerView,
    method: Seq<char>,
    name: Seq<char>,
    path: Seq<char>,
    content: Seq<char>,
    value: Seq<char>,
    target: Seq<char>,
    replacement: Seq<char>,
) -> PlanView {
    if method == "initialize"@ {
        PlanView::Initialize
    } else if method == "tools/list"@ {
        PlanView::ListTools
    } else if method != "tools/call"@ {
        PlanView::MethodNotFound
    } else if name == "list_files"@ {
        guarded(check_path(s, s.workspace), CallView::ListFiles)
    } else if name == "read_file"@ {
        guarded(check_path(s, path), CallView::ReadFile(path))
    } else if name == "write_file"@ {
        guarded(check_path(s, path), CallView::WriteFile(path, content))
    } else if name == "set_config_value"@ {
        guarded(check_path(s, "config.toml"@), CallView::SetConfigValue(path, value))
    } else if name == "rollback"@ {
        PlanView::Call(CallView::Rollback)
    } else if name == "append_to_file"@ {
        guarded(check_path(s, path), CallView::AppendToFile(path, content))
    } else if name == "replace_in_file"@ {
        guarded(check_path(s, path), CallView::ReplaceInFile(path, target, replacement))
    } else {
        PlanView::MethodNotFound
    }
}

fn names(s: &str, lit: &str) -> (r: bool)
    ensures
        r == (s@ == lit@),
{
    let a = chars_of(s);
    let b = chars_of(lit);
    chars_equal(&a, &b)
}

fn guard(server: &Server, path: &str, call: ToolCall) -> (p: Plan)
    ensures
        plan_view(p) == guarded(check_path(server@, path@), call_view(call)),
{
    match server.validate_path(path) {
        Ok(()) => Plan::Call(call),
        Err(e) => Plan::Denied(e),
    }
}

/// Decides what to do with a request for `method`; `name` and `args` are
/// the tool's name and arguments for `tools/call` (empty when absent).
pub fn plan_request(server: &Server, method: &str, name: &str, args: ToolArgs) -> (p: Plan)
    ensures
        plan_view(p) == plan_spec(
            server@,
            method@,
            name@,
            args.path@,
            args.content@,
            args.value@,
            args.target@,
            args.replacement@,
        ),
{
    if names(method, "initialize") {
        Plan::Initialize
    } else if names(method, "tools/list") {
        Plan::ListTools
    } else if !names(method, "tools/call") {
        Plan::MethodNotFound
    } else if names(name, "list_files") {
        guard(server, server.workspace().as_str(), ToolCall::ListFiles)
    } else if names(name, "read_file") {
        let ToolArgs { path, .. } = args;
        let call = ToolCall::ReadFile { path: path.clone() };
        guard(server, path.as_str(), call)
    } else if names(name, "write_file") {
        let ToolArgs { path, content, .. } = args;
        let call = ToolCall::WriteFile { path: path.clone(), content };
        guard(server, path.as_str(), call)
    } else if names(name, "set_config_value") {
        let ToolArgs { path, value, .. } = args;
        guard(server, "config.toml", ToolCall::SetConfigValue { key_path: path, value })
    } else if names(name, "rollback") {
        Plan::Call(ToolCall::Rollback)
    } else if names(name, "append_to_file") {
        let ToolArgs { path, content, .. } = args;
        let call = ToolCall::AppendToFile { path: path.clone(), content };
        guard(server, path.as_str(), call)
    } else if names(name, "replace_in_file") {
        let ToolArgs { path, target, replacement, .. } = args;
        let call = ToolCall::ReplaceInFile { path: path.clone(), target, replacement };
        guard(server, path.as_str(), call)
    } else {
        Plan::MethodNotFound
    }
}

/// The error code of an answer: `ACCESS_DENIED` for a refused path,
/// `METHOD_NOT_FOUND` for an unknown method or tool, `None` when the plan
/// goes ahead.
pub fn plan_error_code(p: &Plan) -> (c: Option<i32>)
    ensures
        c == match plan_view(*p) {
            PlanView::Denied(_) => Some(ACCESS_DENIED),
            PlanView::MethodNotFound => Some(METHOD_NOT_FOUND),
            _ => None::<i32>,
        },
{
    match p {
        Plan::Denied(_) => Some(ACCESS_DENIED),
        Plan::MethodNotFound => Some(METHOD_NOT_FOUND),
        _ => None,
    }
}

/// A tool call never runs on a path the server refuses: whenever the plan
/// is to run a tool that names a path, the server allows that path.
pub proof fn lemma_calls_only_on_allowed_paths(
    s: ServerView,
    method: Seq<char>,
    name: Seq<char>,
    path: Seq<char>,
    content: Seq<char>,
    value: Seq<char>,
    target: Seq<char>,
    replacement: Seq<char>,
)
    ensures
        ({
            let p = plan_spec(s, method, name, path, content, value, target, replacement);
            &&& (p matches PlanView::Call(CallView::ReadFile(q)) ==> check_path(s, q) is Allowed)
            &&& (p matches PlanView::Call(CallView::WriteFile(q, _)) ==> check_path(s, q) is Allowed)
            &&& (p matches PlanView::Call(CallView::AppendToFile(q, _)) ==> check_path(s, q) is Allowed)
            &&& (p matches PlanView::Call(CallView::ReplaceInFile(q, _, _)) ==> check_path(s, q) is Allowed)
            &&& (p matches PlanView::Call(CallView::SetConfigValue(_, _)) ==> check_path(s, "config.toml"@) is Allowed)
            &&& (p matches PlanView::Call(CallView::ListFiles) ==> check_path(s, s.workspace) is Allowed)
        }),
{
}

proof fn lemma_request_names_distinct()
    ensures
        "initialize"@ != "tools/list"@,
        "initialize"@ != "tools/call"@,
        "tools/list"@ != "tools/call"@,
        "list_files"@ != "read_file"@,
        "list_files"@ != "write_file"@,
        "list_files"@ != "set_config_value"@,
        "list_files"@ != "rollback"@,
        "list_files"@ != "append_to_file"@,
        "list_files"@ != "replace_in_file"@,
        "read_file"@ != "write_file"@,
        "read_file"@ != "set_config_value"@,
        "read_file"@ != "rollback"@,
        "read_file"@ != "append_to_file"@,
        "read_file"@ != "replace_in_file"@,
        "write_file"@ != "set_config_value"@,
        "write_file"@ != "rollback"@,
        "write_file"@ != "append_to_file"@,
        "write_file"@ != "replace_in_file"@,
        "set_config_value"@ != "rollback"@,
        "set_config_value"@ != "append_to_file"@,
        "set_config_value"@ != "replace_in_file"@,
        "rollback"@ != "append_to_file"@,
        "rollback"@ != "replace_in_file"@,
        "append_to_file"@ != "replace_in_file"@,
{
    reveal_strlit("initialize");
    reveal_strlit("tools/list");
    reveal_strlit("tools/call");
    reveal_strlit("list_files");
    reveal_strlit("read_file");
    reveal_strlit("write_file");
    reveal_strlit("set_config_value");
    reveal_strlit("rollback");
    reveal_strlit("append_to_file");
    reveal_strlit("replace_in_file");
    assert("initialize"@[0] != "tools/list"@[0]);
    assert("initialize"@[0] != "tools/call"@[0]);
    assert("tools/list"@[6] != "tools/call"@[6]);
    assert("list_files"@[0] != "write_file"@[0]);
    assert("list_files"@.len() != "read_file"@.len());
    assert("list_files"@.len() != "set_config_value"@.len());
    assert("list_files"@.len() != "rollback"@.len());
    assert("list_files"@.len() != "append_to_file"@.len());
    assert("list_files"@.len() != "replace_in_file"@.len());
    assert("read_file"@.len() != "write_file"@.len());
    assert("read_file"@.len() != "set_config_value"@.len());
    assert("read_file"@.len() != "rollback"@.len());
    assert("read_file"@.len() != "append_to_file"@.len());
    assert("read_file"@.len() != "replace_in_file"@.len());
    assert("write_file"@.len() != "set_config_value"@.len());
    assert("write_file"@.len() != "rollback"@.len());
    assert("write_file"@.len() != "append_to_file"@.len());
    assert("write_file"@.len() != "replace_in_file"@.len());
    assert("set_config_value"@.len() != "rollback"@.len());
    assert("set_config_value"@.len() != "append_to_file"@.len());
    assert("set_config_value"@.len() != "replace_in_file"@.len());
    assert("rollback"@.len() != "append_to_file"@.len());
    assert("rollback"@.len() != "replace_in_file"@.len());
    assert("append_to_file"@.len() != "replace_in_file"@.len());
}

/// Each tool runs with the arguments of its request, after the check of the
/// path it names: a `tools/call` to a tool that names a path runs on that
/// path with that tool's own arguments (`content` for writing and appending,
/// `value` for a config value, `target` and `replacement` for replacing)
/// when the path is allowed, and is refused with the path's verdict
/// otherwise. `set_config_value` checks `config.toml` and takes the key path
/// from `path`; `list_files` checks the workspace; `rollback` always runs.
pub proof fn lemma_tool_calls_carry_their_arguments(
    s: ServerView,
    name: Seq<char>,
    path: Seq<char>,
    content: Seq<char>,
    value: Seq<char>,
    target: Seq<char>,
    replacement: Seq<char>,
)
    ensures
        ({
            let p = plan_spec(s, "tools/call"@, name, path, content, value, target, replacement);
            let c = check_path(s, path);
            &&& name == "read_file"@ ==> p == (if c is Allowed {
                PlanView::Call(CallView::ReadFile(path))
            } else {
                PlanView::Denied(c)
            })
            &&& name == "write_file"@ ==> p == (if c is Allowed {
                PlanView::Call(CallView::WriteFile(path, content))
            } else {
                PlanView::Denied(c)
            })
            &&& name == "append_to_file"@ ==> p == (if c is Allowed {
                PlanView::Call(CallView::AppendToFile(path, content))
            } else {
                PlanView::Denied(c)
            })
            &&& name == "replace_in_file"@ ==> p == (if c is Allowed {
                PlanView::Call(CallView::ReplaceInFile(path, target, replacement))
            } else {
                PlanView::Denied(c)
            })
            &&& name == "set_config_value"@ ==> p == (if check_path(s, "config.toml"@) is Allowed {
                PlanView::Call(CallView::SetConfigValue(path, value))
            } else {
                PlanView::Denied(check_path(s, "config.toml"@))
            })
            &&& name == "list_files"@ ==> p == (if check_path(s, s.workspace) is Allowed {
                PlanView::Call(CallView::ListFiles)
            } else {
                PlanView::Denied(check_path(s, s.workspace))
            })
            &&& name == "rollback"@ ==> p == PlanView::Call(CallView::Rollback)
        }),
{
    lemma_request_names_distinct();
}

/// `initialize` and `tools/list` are answered whatever else the request
/// holds; any other method but `tools/call`, and any unknown tool, is not found.
pub proof fn lemma_methods_are_routed(
    s: ServerView,
    method: Seq<char>,
    name: Seq<char>,
    path: Seq<char>,
    content: Seq<char>,
    value: Seq<char>,
    target: Seq<char>,
    replacement: Seq<char>,
)
    ensures
        ({
            let p = plan_spec(s, method, name, path, content, value, target, replacement);
            &&& method == "initialize"@ ==> p == PlanView::Initialize
            &&& method == "tools/list"@ ==> p == PlanView::ListTools
            &&& method != "initialize"@ && method != "tools/list"@ && method != "tools/call"@ ==> p
                == PlanView::MethodNotFound
            &&& method == "tools/call"@ && name != "list_files"@ && name != "read_file"@ && name
                != "write_file"@ && name != "set_config_value"@ && name != "rollback"@ && name
                != "append_to_file"@ && name != "replace_in_file"@ ==> p == PlanView::MethodNotFound
        }),
{
    lemma_request_names_distinct();
}

} // verus!
