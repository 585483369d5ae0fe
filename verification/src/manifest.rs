//! The portable agent manifest's plain-data parts, and the decisions of
//! materialising its local tools and delegates against what a host has
//! registered.

use vstd::prelude::*;

use crate::json::{Json, JsonValue};

verus! {

/// LLM provider selector. The host decides how to materialise it.
#[derive(Debug, Clone, PartialEq, Eq)]
pub enum ModelSpec {
    /// OpenAI-hosted models.
    Openai { name: String },
    /// Any OpenAI-compatible Chat Completions endpoint; `api_key` may be
    /// empty for endpoints that ignore it.
    OpenaiCompatible { base_url: String, api_key: String, name: String },
}

/// One tool entry: a reference to a tool the host has registered.
#[derive(Debug, Clone, PartialEq, Eq)]
pub enum ToolSpec {
    Local { name: String },
}

/// One MCP server the host may spawn over stdio.
#[derive(Debug, Clone, PartialEq, Eq)]
pub struct McpServerSpec {
    /// Symbolic name for telemetry.
    pub name: String,
    /// Argv the host can spawn: the program, then its arguments.
    pub command: Vec<String>,
}

/// How a delegate is expected to be wired by the host.
#[derive(Debug, Clone, Copy, PartialEq, Eq, Structural)]
pub enum DelegateKind {
    /// No executor is required; materialisation creates a stub.
    Stub,
    /// A child agent in the same process, registered under the delegate's
    /// executor key.
    InProcess,
    /// Resolved through a remote runtime.
    Remote,
    /// Exposed through MCP.
    Mcp,
}

impl Default for DelegateKind {
    fn default() -> (r: DelegateKind)
        ensures
            r == DelegateKind::Stub,
    {
        DelegateKind::Stub
    }
}

/// Another agent the model can delegate to, exposed as a tool.
#[derive(Debug, Clone, PartialEq, Eq)]
pub struct DelegateSpec {
    pub name: String,
    pub description: String,
    pub kind: DelegateKind,
    /// Host registry key for this delegate's executor; `name` when absent.
    pub agent: Option<String>,
    /// Path to a child manifest.
    pub manifest: Option<String>,
}

/// The key a delegate's executor is registered under.
pub open spec fn executor_key_spec(d: DelegateSpec) -> Seq<char> {
    match d.agent {
        Some(a) => a@,
        None => d.name@,
    }
}

impl DelegateSpec {
    /// The key this delegate's executor is registered under: `agent`, or
    /// `name` when `agent` is absent.
    pub fn executor_key(&self) -> (r: &str)
        ensures
            r@ == executor_key_spec(*self),
    {
        match &self.agent {
            Some(a) => a.as_str(),
            None => self.name.as_str(),
        }
    }
}

/// What one manifest entry becomes in the agent's tool registry.
#[derive(Debug, Clone, Copy, PartialEq, Eq, Structural)]
pub enum MaterializedTool {
    /// The host's tool named by tool spec `index`.
    Local { index: usize },
    /// A delegate tool over the executor registered for delegate `index`.
    Delegate { index: usize },
    /// A stub for delegate `index`, which has no executor.
    Stub { index: usize },
}

/// Why a manifest could not be materialised.
#[derive(Debug, Clone, PartialEq, Eq)]
pub enum MaterializeError {
    /// A local tool the manifest names is not in the host registry.
    MissingHostTool(String),
    /// An in-process delegate has no registered executor under this key.
    MissingDelegateExecutor(String),
}

/// The first tool spec from `i` on that the host lacks.
pub open spec fn first_missing_tool(found: Seq<bool>, i: nat) -> Option<nat>
    decreases found.len() - i,
{
    if i >= found.len() {
        None
    } else if !found[i as int] {
        Some(i)
    } else {
        first_missing_tool(found, i + 1)
    }
}

/// The first in-process delegate from `i` on without an executor.
pub open spec fn first_unwired_in_process(delegates: Seq<DelegateSpec>, found: Seq<bool>, i: nat) -> Option<nat>
    decreases delegates.len() - i,
{
    if i >= delegates.len() {
        None
    } else if !found[i as int] && delegates[i as int].kind == DelegateKind::InProcess {
        Some(i)
    } else {
        first_unwired_in_process(delegates, found, i + 1)
    }
}

/// What a delegate becomes: a delegate tool when its executor is found, a
/// stub otherwise.
pub open spec fn delegate_plan(found: bool, index: usize) -> MaterializedTool {
    if found {
        MaterializedTool::Delegate { index }
    } else {
        MaterializedTool::Stub { index }
    }
}

/// The materialisation of a manifest, given which local tools the host has
/// and which delegates have an executor: every local tool in order, then
/// every delegate in order; the first missing local tool is an error, and
/// after it the first in-process delegate without an executor.
pub open spec fn plan_spec(
    tools: Seq<ToolSpec>,
    host_found: Seq<bool>,
    delegates: Seq<DelegateSpec>,
    executor_found: Seq<bool>,
) -> Result<Seq<MaterializedTool>, MaterializeError> {
    match first_missing_tool(host_found, 0) {
        Some(i) => Err(MaterializeError::MissingHostTool(
            match tools[i as int] {
                ToolSpec::Local { name } => name,
            },
        )),
        None => match first_unwired_in_process(delegates, executor_found, 0) {
            Some(j) => Err(MaterializeError::MissingDelegateExecutor(
                match delegates[j as int].agent {
                    Some(a) => a,
                    None => delegates[j as int].name,
                },
            )),
            None => Ok(
                Seq::new(tools.len(), |i: int| MaterializedTool::Local { index: i as usize })
                    + Seq::new(delegates.len(), |j: int| delegate_plan(executor_found[j], j as usize)),
            ),
        },
    }
}

/// Decides what a manifest's tools and delegates become: `host_found[i]`
/// says whether the host registry holds tool spec `i`, `executor_found[j]`
/// whether an executor is registered for delegate `j`.
pub fn plan_materialization(
    tools: &[ToolSpec],
    host_found: &[bool],
    delegates: &[DelegateSpec],
    executor_found: &[bool],
) -> (r: Result<Vec<MaterializedTool>, MaterializeError>)
    requires
        host_found@.len() == tools@.len(),
        executor_found@.len() == delegates@.len(),
    ensures
        match plan_spec(tools@, host_found@, delegates@, executor_found@) {
            Ok(p) => r matches Ok(v) && v@ == p,
            Err(e) => r matches Err(x) && x == e,
        },
{
    let mut out: Vec<MaterializedTool> = Vec::new();
    let mut i: usize = 0;
    while i < tools.len()
        invariant
            i <= tools@.len(),
            host_found@.len() == tools@.len(),
            first_missing_tool(host_found@, 0) == first_missing_tool(host_found@, i as nat),
            out@ == Seq::new(i as nat, |k: int| MaterializedTool::Local { index: k as usize }),
        decreases tools@.len() - i,
    {
        if !host_found[i] {
            let name = match &tools[i] {
                ToolSpec::Local { name } => name.clone(),
            };
            return Err(MaterializeError::MissingHostTool(name));
        }
        out.push(MaterializedTool::Local { index: i });
        i = i + 1;
        assert(out@ =~= Seq::new(i as nat, |k: int| MaterializedTool::Local { index: k as usize }));
    }
    assert(first_missing_tool(host_found@, 0) is None);
    let ghost locals = out@;
    let mut j: usize = 0;
    while j < delegates.len()
        invariant
            j <= delegates@.len(),
            executor_found@.len() == delegates@.len(),
            first_missing_tool(host_found@, 0) is None,
            first_unwired_in_process(delegates@, executor_found@, 0) == first_unwired_in_process(delegates@, executor_found@, j as nat),
            out@ == locals + Seq::new(j as nat, |k: int| delegate_plan(executor_found@[k], k as usize)),
        decreases delegates@.len() - j,
    {
        if executor_found[j] {
            out.push(MaterializedTool::Delegate { index: j });
        } else if delegates[j].kind == DelegateKind::InProcess {
            let key = match &delegates[j].agent {
                Some(a) => a.clone(),
                None => delegates[j].name.clone(),
            };
            return Err(MaterializeError::MissingDelegateExecutor(key));
        } else {
            out.push(MaterializedTool::Stub { index: j });
        }
        j = j + 1;
        assert(out@ =~= locals + Seq::new(j as nat, |k: int| delegate_plan(executor_found@[k], k as usize)));
    }
    Ok(out)
}

/// The hint a delegate stub gives.
pub open spec fn stub_hint() -> Seq<char> {
    "host has not wired delegate execution; see manifest delegates"@
}

/// What invoking the stub of delegate `name` with `args` returns.
pub open spec fn stub_output_spec(name: Seq<char>, args: Json) -> Json {
    Json::Obj(
        seq![
            ("args"@, args),
            ("delegate"@, Json::Str(name)),
            ("hint"@, Json::Str(stub_hint())),
            ("status"@, Json::Str("delegate_unwired"@)),
        ],
    )
}

/// What invoking the stub of delegate `name` with `args` returns: an object
/// saying the delegate is not wired, echoing the arguments.
pub fn delegate_stub_output(name: &str, args: JsonValue) -> (r: JsonValue)
    ensures
        r@ == stub_output_spec(name@, args@),
{
    let mut members: Vec<(String, JsonValue)> = Vec::new();
    members.push((String::from_str("args"), args));
    members.push((String::from_str("delegate"), JsonValue::from_str_slice(name)));
    members.push(
        (String::from_str("hint"), JsonValue::from_str_slice("host has not wired delegate execution; see manifest delegates")),
    );
    members.push((String::from_str("status"), JsonValue::from_str_slice("delegate_unwired")));
    proof {
        crate::json::lemma_object_model(members);
        assert(crate::json::pair_models(members@) =~= seq![
            ("args"@, args@),
            ("delegate"@, Json::Str(name@)),
            ("hint"@, Json::Str(stub_hint())),
            ("status"@, Json::Str("delegate_unwired"@)),
        ]);
    }
    JsonValue::Object(members)
}

} // verus!
