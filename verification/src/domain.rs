//! Plain data shared by every stage: modules as declared in `project.toml`,
//! the resolved dependency graph, the lockfile and the workspace settings.
//! Maps of the manifest are held as association lists (`Vec` of pairs).
use vstd::prelude::*;

verus! {

/// Opaque identifier of a node of the dependency graph.
#[derive(Clone, Copy, PartialEq, Eq, Structural, Hash, Debug)]
pub struct NodeId(pub u64);

/// How an edge of the graph came to be.
#[derive(Clone, Copy, PartialEq, Eq, Structural, Debug)]
pub enum EdgeKind {
    ModuleDeclared,
    External,
    WorkspaceModule,
}

/// A directed edge: `from` brought `to` into the graph.
#[derive(Clone, Copy, PartialEq, Eq, Structural, Debug)]
pub struct GraphEdge {
    pub from: NodeId,
    pub to: NodeId,
    pub kind: EdgeKind,
}

/// One version of an artifact requested by a module or a transitive dependency.
#[derive(Clone, Debug, PartialEq, Eq)]
pub struct VersionRequest {
    pub version: String,
    pub origin_module: String,
    pub depth: u32,
}

/// Why mediation picked the selected version of a node.
#[derive(Clone, Debug, PartialEq, Eq)]
pub enum MediationReason {
    NearestDepthWins { rejected: Vec<String> },
    HigherVersionWins { rejected: Vec<String> },
    DeterministicTieBreak { rejected: Vec<String> },
    SingleRequest,
}

/// Resolution state of one artifact of the graph.
#[derive(Clone, Debug, PartialEq, Eq)]
pub struct ResolvedNode {
    pub id: NodeId,
    pub coordinate: String,
    pub requests: Vec<VersionRequest>,
    pub selected: String,
    pub mediation_reason: MediationReason,
}

/// The mediated dependency graph: its nodes (each carrying its own id) and edges.
#[derive(Clone, Debug)]
pub struct DependencyGraph {
    pub nodes: Vec<ResolvedNode>,
    pub edges: Vec<GraphEdge>,
}

/// A dependency declared in `[dependencies]`.
#[derive(Clone, Debug, PartialEq, Eq)]
pub struct Dependency {
    pub coordinate: String,
    pub version_req: VersionReq,
}

/// An explicit version requirement, or one left to the imported BOMs.
#[derive(Clone, Debug, PartialEq, Eq)]
pub enum VersionReq {
    Explicit(String),
    BomManaged,
}

/// An entry of `[boms]`.
#[derive(Clone, Debug, PartialEq, Eq)]
pub struct BomReference {
    pub coordinate: String,
    pub version: String,
}

/// What one module of the workspace declares; never holds resolved state.
#[derive(Clone, Debug, PartialEq, Eq)]
pub struct Module {
    pub name: String,
    pub root: String,
    pub declared_dependencies: Vec<Dependency>,
    pub boms: Vec<BomReference>,
    /// `[exclusions]`: parent coordinate and the coordinates it must not bring in.
    pub exclusions: Vec<(String, Vec<String>)>,
    /// Names of sibling modules this module depends on (`[workspace-dependencies]`).
    pub workspace_dependencies: Vec<String>,
}

/// Shape of `project.lock`.
#[derive(Clone, Debug, PartialEq, Eq)]
pub struct Lockfile {
    pub version: u32,
    pub manifest_hash: String,
    pub java_version: String,
    pub packages: Vec<LockedPackage>,
    pub requests: Vec<LockedRequest>,
}

#[derive(Clone, Debug, PartialEq, Eq)]
pub struct LockedPackage {
    pub name: String,
    pub version: String,
    pub sha256: String,
    pub resolved_from: String,
    pub dependencies: Vec<String>,
}

#[derive(Clone, Debug, PartialEq, Eq)]
pub struct LockedRequest {
    pub module: String,
    pub name: String,
    pub version: String,
    pub depth: u32,
}

/// The single entry point of resolution: root directory, modules, lockfile, settings.
#[derive(Clone, Debug)]
pub struct Workspace {
    pub root: String,
    pub modules: Vec<Module>,
    pub lockfile: Lockfile,
    pub config: WorkspaceConfig,
}

/// Mirror of the global `config.toml`.
#[derive(Clone, Debug, PartialEq, Eq)]
pub struct WorkspaceConfig {
    pub defaults: DefaultsConfig,
    pub network: NetworkConfig,
    pub output: OutputConfig,
}

/// `[defaults]`: user preferences, absent unless configured.
#[derive(Clone, Debug, PartialEq, Eq)]
pub struct DefaultsConfig {
    pub java_version: Option<String>,
    pub repository: Option<String>,
}

impl Default for DefaultsConfig {
    fn default() -> (res: Self)
        ensures
            res.java_version is None,
            res.repository is None,
    {
        DefaultsConfig { java_version: None, repository: None }
    }
}

/// `[network]` settings.
#[derive(Clone, Debug, PartialEq, Eq)]
pub struct NetworkConfig {
    pub proxy: Option<String>,
    pub connect_timeout_secs: u32,
    pub max_retries: u32,
    pub concurrent_downloads: u32,
}

impl NetworkConfig {
    /// The documented defaults; `available_parallelism` is the number of cores the
    /// machine reports (if it reports one), which bounds concurrent downloads.
    pub fn with_parallelism(available_parallelism: Option<usize>) -> (res: Self)
        ensures
            res.proxy is None,
            res.connect_timeout_secs == 10,
            res.max_retries == 3,
            res.concurrent_downloads == match available_parallelism {
                Some(n) => n as u32,
                None => 4u32,
            },
    {
        let concurrent_downloads: u32 = match available_parallelism {
            Some(n) => n as u32,
            None => 4,
        };
        NetworkConfig { proxy: None, connect_timeout_secs: 10, max_retries: 3, concurrent_downloads }
    }
}

/// `[output]` settings.
#[derive(Clone, Debug, PartialEq, Eq)]
pub struct OutputConfig {
    pub color: ColorMode,
    pub progress_bar: bool,
}

impl Default for OutputConfig {
    fn default() -> (res: Self)
        ensures
            res.color == ColorMode::Auto,
            res.progress_bar,
    {
        OutputConfig { color: ColorMode::Auto, progress_bar: true }
    }
}

#[derive(Clone, Copy, Debug, PartialEq, Eq, Structural)]
pub enum ColorMode {
    Auto,
    Always,
    Never,
}

} // verus!
