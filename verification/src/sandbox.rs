//! The sandbox provisioner: resolves the deployment configuration's stdio
//! policy against the virtual filesystem into concrete stream bindings, and
//! packs them with the tree root into the sandbox context that one
//! execution run owns. The terminal engine stages (compile, link,
//! instantiate, resolve the entry point, invoke) are outside collaborators;
//! what the pipeline decides about them — their order and which error kind
//! each failing stage signals — is settled here.

use vstd::prelude::*;

use crate::archive::spec_build;
use crate::bundle::spec_find_archive;
use crate::config::{
    default_config, spec_resolve_config, Config, ConfigV, ReadOnly, ReadOnlyV, WriteOnly,
    WriteOnlyV,
};
use crate::error::Error;
use crate::path::path_segs;
use crate::virtfs::{file_content, spec_lookup, Node, NodeView};

verus! {

broadcast use vstd::seq::group_seq_axioms;

/// A concrete stdin binding.
pub enum StdinSource {
    /// An in-memory readable stream over bytes from the virtual filesystem.
    BundleBytes(Vec<u8>),
    /// A host file to open read-only.
    HostFile(String),
    /// The host process's real stdin.
    Inherit,
    /// Nothing: the workload sees end-of-stream immediately.
    Null,
}

/// A concrete stdout / stderr binding.
pub enum OutSink {
    /// A host file to open for writing, created if absent, truncated if
    /// present.
    HostFile(String),
    /// The host's real stream.
    Inherit,
    /// A stream that accepts and drops all writes.
    Null,
}

pub enum StdinSourceV {
    BundleBytes(Seq<u8>),
    HostFile(Seq<char>),
    Inherit,
    Null,
}

pub enum OutSinkV {
    HostFile(Seq<char>),
    Inherit,
    Null,
}

impl StdinSource {
    pub open spec fn view(self) -> StdinSourceV {
        match self {
            StdinSource::BundleBytes(b) => StdinSourceV::BundleBytes(b@),
            StdinSource::HostFile(p) => StdinSourceV::HostFile(p@),
            StdinSource::Inherit => StdinSourceV::Inherit,
            StdinSource::Null => StdinSourceV::Null,
        }
    }
}

impl OutSink {
    pub open spec fn view(self) -> OutSinkV {
        match self {
            OutSink::HostFile(p) => OutSinkV::HostFile(p@),
            OutSink::Inherit => OutSinkV::Inherit,
            OutSink::Null => OutSinkV::Null,
        }
    }
}

/// The three concrete stream bindings of one run.
pub struct StdioPlan {
    pub stdin: StdinSource,
    pub stdout: OutSink,
    pub stderr: OutSink,
}

pub struct StdioPlanV {
    pub stdin: StdinSourceV,
    pub stdout: OutSinkV,
    pub stderr: OutSinkV,
}

impl StdioPlan {
    pub open spec fn pview(self) -> StdioPlanV {
        StdioPlanV {
            stdin: self.stdin.view(),
            stdout: self.stdout.view(),
            stderr: self.stderr.view(),
        }
    }
}

/// The stdin binding a policy denotes against a tree: a bundle path must
/// name a file, whose bytes back the in-memory stream; a directory or a
/// missing entry is a configuration error (`None`).
pub open spec fn spec_plan_stdin(c: ReadOnlyV, t: NodeView) -> Option<StdinSourceV> {
    match c {
        ReadOnlyV::Bundle(p) => match spec_lookup(t, path_segs(p)) {
            Option::Some(node) => match node {
                NodeView::File { .. } => Option::Some(
                    StdinSourceV::BundleBytes(file_content(node)),
                ),
                NodeView::Directory(_) => Option::None,
            },
            Option::None => Option::None,
        },
        ReadOnlyV::File(p) => Option::Some(StdinSourceV::HostFile(p)),
        ReadOnlyV::Inherit => Option::Some(StdinSourceV::Inherit),
        ReadOnlyV::Null => Option::Some(StdinSourceV::Null),
    }
}

/// The output binding a policy denotes; output policies never fail to
/// resolve.
pub open spec fn spec_plan_out(c: WriteOnlyV) -> OutSinkV {
    match c {
        WriteOnlyV::File(p) => OutSinkV::HostFile(p),
        WriteOnlyV::Inherit => OutSinkV::Inherit,
        WriteOnlyV::Null => OutSinkV::Null,
    }
}

/// The whole plan a configuration denotes against a tree.
pub open spec fn spec_plan(c: ConfigV, t: NodeView) -> Option<StdioPlanV> {
    match spec_plan_stdin(c.stdin, t) {
        Option::None => Option::None,
        Option::Some(sin) => Option::Some(
            StdioPlanV {
                stdin: sin,
                stdout: spec_plan_out(c.stdout),
                stderr: spec_plan_out(c.stderr),
            },
        ),
    }
}

/// Resolves the configuration's stdio policy against the tree. A bundle
/// stdin path that names a directory or nothing is a configuration error.
pub fn plan_stdio(cfg: &Config, root: &Node) -> (r: Result<StdioPlan, Error>)
    requires
        root.wf(),
    ensures
        match r {
            Result::Ok(p) => spec_plan(cfg.cview(), root.nview()) == Option::Some(p.pview()),
            Result::Err(e) => spec_plan(cfg.cview(), root.nview()) is None
                && e is ConfigurationError,
        },
{
    let stdin = match &cfg.stdio.stdin {
        ReadOnly::Bundle(path) => match root.lookup(path.as_str()) {
            Option::None => {
                return Result::Err(Error::ConfigurationError);
            },
            Option::Some(node) => match node {
                Node::Directory(_) => {
                    return Result::Err(Error::ConfigurationError);
                },
                Node::File(_) => StdinSource::BundleBytes(node.read_all()),
            },
        },
        ReadOnly::File(path) => StdinSource::HostFile(path.clone()),
        ReadOnly::Inherit => StdinSource::Inherit,
        ReadOnly::Null => StdinSource::Null,
    };
    let stdout = match &cfg.stdio.stdout {
        WriteOnly::File(path) => OutSink::HostFile(path.clone()),
        WriteOnly::Inherit => OutSink::Inherit,
        WriteOnly::Null => OutSink::Null,
    };
    let stderr = match &cfg.stdio.stderr {
        WriteOnly::File(path) => OutSink::HostFile(path.clone()),
        WriteOnly::Inherit => OutSink::Inherit,
        WriteOnly::Null => OutSink::Null,
    };
    Result::Ok(StdioPlan { stdin, stdout, stderr })
}

/// The sandbox context of one run: the concrete stream bindings, the
/// resolved configuration, and the tree root to expose as the preopened
/// read-only capability; owned exclusively by one execution.
pub struct SandboxContext {
    pub root: Node,
    pub config: Config,
    pub stdio: StdioPlan,
}

/// What provisioning an input denotes: a built context, a rejection of the
/// input (an instantiation failure), or an unresolvable stdio path (a
/// configuration error).
pub enum ProvisionOutcome {
    Built(NodeView, ConfigV, StdioPlanV),
    Rejected,
    Unresolved,
}

/// The provisioning pipeline's front half: discover the archive, build the
/// tree, resolve the configuration, plan the stdio bindings.
pub open spec fn spec_provision(b: Seq<u8>) -> ProvisionOutcome {
    match spec_find_archive(b) {
        Option::None => ProvisionOutcome::Rejected,
        Option::Some(arch) => {
            let tv = match arch {
                Option::None => Option::Some(
                    NodeView::Directory(Map::<Seq<char>, NodeView>::empty()),
                ),
                Option::Some(range) => spec_build(b.subrange(range.0, range.0 + range.1)),
            };
            match tv {
                Option::None => ProvisionOutcome::Rejected,
                Option::Some(t) => match spec_resolve_config(t) {
                    Option::None => ProvisionOutcome::Rejected,
                    Option::Some(c) => match spec_plan(c, t) {
                        Option::None => ProvisionOutcome::Unresolved,
                        Option::Some(plan) => ProvisionOutcome::Built(t, c, plan),
                    },
                },
            }
        },
    }
}

/// Provisions the sandbox for one run of the given bundled input: scans the
/// bundle, builds the virtual filesystem from its archive (an absent
/// archive yields the empty tree), resolves the deployment configuration,
/// and binds the stdio plan. The input bytes themselves stay the workload
/// to hand to the engine.
pub fn provision(input: &Vec<u8>) -> (r: Result<SandboxContext, Error>)
    ensures
        match r {
            Result::Ok(ctx) => spec_provision(input@) == ProvisionOutcome::Built(
                ctx.root.nview(),
                ctx.config.cview(),
                ctx.stdio.pview(),
            ) && ctx.root.wf(),
            Result::Err(e) => (spec_provision(input@) == ProvisionOutcome::Rejected
                && e is InstantiationFailed) || (spec_provision(input@)
                == ProvisionOutcome::Unresolved && e is ConfigurationError),
        },
{
    let arch = match crate::bundle::find_archive_section(input) {
        Result::Ok(a) => a,
        Result::Err(e) => {
            return Result::Err(e);
        },
    };
    let root = match arch {
        Option::None => Node::empty_directory(),
        Option::Some((off, len)) => {
            let ilen = input.len();
            proof {
                assert(off + len <= ilen);
            }
            let bytes = vstd::slice::slice_to_vec(
                vstd::slice::slice_subrange(input.as_slice(), off, off + len),
            );
            match crate::archive::build_tree(&bytes) {
                Result::Ok(t) => t,
                Result::Err(e) => {
                    return Result::Err(e);
                },
            }
        },
    };
    let config = match crate::config::resolve_config(&root) {
        Result::Ok(c) => c,
        Result::Err(e) => {
            return Result::Err(e);
        },
    };
    let stdio = match plan_stdio(&config, &root) {
        Result::Ok(p) => p,
        Result::Err(e) => {
            return Result::Err(e);
        },
    };
    Result::Ok(SandboxContext { root, config, stdio })
}

/// The engine-side stages of a run, in order.
pub enum EngineStep {
    Compile,
    Link,
    Instantiate,
    ResolveEntry,
    Invoke,
}

/// The error kind a failing engine stage signals: rejection of the module
/// by compilation, linking or instantiation is an instantiation failure, a
/// missing default entry point is an export-not-found failure, and a trap
/// or rejected call is a call failure. No stage is retried: the pipeline
/// aborts at its first failure.
pub fn engine_failure(step: EngineStep) -> (r: Error)
    ensures
        r == match step {
            EngineStep::Compile => Error::InstantiationFailed,
            EngineStep::Link => Error::InstantiationFailed,
            EngineStep::Instantiate => Error::InstantiationFailed,
            EngineStep::ResolveEntry => Error::ExportNotFound,
            EngineStep::Invoke => Error::CallFailed,
        },
{
    match step {
        EngineStep::Compile => Error::InstantiationFailed,
        EngineStep::Link => Error::InstantiationFailed,
        EngineStep::Instantiate => Error::InstantiationFailed,
        EngineStep::ResolveEntry => Error::ExportNotFound,
        EngineStep::Invoke => Error::CallFailed,
    }
}

/// The export-name views of a module's export list (name, is-function).
pub open spec fn export_views(ex: Seq<(String, bool)>) -> Seq<(Seq<char>, bool)> {
    ex.map_values(|p: (String, bool)| (p.0@, p.1))
}

pub open spec fn has_func_export(ex: Seq<(Seq<char>, bool)>, name: Seq<char>) -> bool {
    exists|k: int| 0 <= k < ex.len() && (#[trigger] ex[k]).0 == name && ex[k].1
}

/// The designated default entry point among a module's exports: the
/// function exported under the empty name, else the one under `_start`,
/// else none.
pub open spec fn spec_resolve_entry(ex: Seq<(Seq<char>, bool)>) -> Option<Seq<char>> {
    if has_func_export(ex, ""@) {
        Option::Some(""@)
    } else if has_func_export(ex, "_start"@) {
        Option::Some("_start"@)
    } else {
        Option::None
    }
}

/// Whether some export carries this name and is a function.
fn find_func_export(exports: &Vec<(String, bool)>, name: &String) -> (r: bool)
    ensures
        r == has_func_export(export_views(exports@), name@),
{
    let mut j: usize = 0;
    while j < exports.len()
        invariant
            j <= exports@.len(),
            forall|k: int|
                0 <= k < j ==> !((#[trigger] export_views(exports@)[k]).0 == name@
                    && export_views(exports@)[k].1),
        decreases exports@.len() - j,
    {
        if exports[j].1 && exports[j].0 == *name {
            proof {
                assert(export_views(exports@)[j as int].0 == name@
                    && export_views(exports@)[j as int].1);
            }
            return true;
        }
        proof {
            assert(export_views(exports@)[j as int] == (exports@[j as int].0@, exports@[j as int].1));
        }
        j = j + 1;
    }
    false
}

/// Locates the workload's default entry point among its exports — given as
/// pairs of export name and whether the export is a function — and signals
/// an export-not-found failure when the module declares none.
pub fn resolve_entry(exports: &Vec<(String, bool)>) -> (r: Result<String, Error>)
    ensures
        match r {
            Result::Ok(name) => spec_resolve_entry(export_views(exports@)) == Option::Some(name@),
            Result::Err(e) => spec_resolve_entry(export_views(exports@)) is None
                && e is ExportNotFound,
        },
{
    let empty = "".to_owned();
    let start = "_start".to_owned();
    if find_func_export(exports, &empty) {
        Result::Ok(empty)
    } else if find_func_export(exports, &start) {
        Result::Ok(start)
    } else {
        Result::Err(Error::ExportNotFound)
    }
}

} // verus!
