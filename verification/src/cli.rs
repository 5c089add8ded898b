//! The command-line interface of the tool: its commands and their
//! arguments, as plain values.

use vstd::prelude::*;

verus! {

/// The tool's command line: index, query and navigate a Python code base.
#[derive(Clone, Debug)]
pub struct Cli {
    pub command: Command,
}

#[derive(Clone, Debug)]
pub enum Command {
    /// Build the code graph for a Python project
    Index(IndexArgs),
    /// Start the web viewer
    Serve(ServeArgs),
    /// Query the indexed graph
    Query(QueryCmd),
    /// AI-oriented navigation
    Nav(NavCmd),
    /// Static analysis
    Analyze(AnalyzeCmd),
    /// Configure API keys and model settings
    Config(ConfigCmd),
    /// CI/CD integration checks
    Ci(CiCmd),
}

// ---- CI ----

#[derive(Clone, Debug)]
pub enum CiCmd {
    /// Run architecture health checks and fail when thresholds are breached
    Check(CiCheckArgs),
}

#[derive(Clone, Debug)]
pub struct CiCheckArgs {
    /// Minimum architecture health score
    pub min_health: Option<u8>,
    /// Maximum allowed dependency cycles
    pub max_cycles: Option<usize>,
    /// Maximum allowed god modules
    pub max_god_modules: Option<usize>,
    /// Maximum allowed dead public code symbols
    pub max_dead_code: Option<usize>,
    /// Graph file to check
    pub graph: Option<String>,
}

// ---- Index ----

#[derive(Clone, Debug)]
pub struct IndexArgs {
    /// Path to the Python project
    pub project: String,
    /// Custom output path for the graph file
    pub output: Option<String>,
    /// Exclude test directories (test/, tests/, *_test.py)
    pub no_tests: bool,
    /// Enable semantic enrichment via Python LSP
    pub semantic: bool,
    /// Disable semantic enrichment via Python LSP
    pub no_semantic: bool,
}

// ---- Serve ----

#[derive(Clone, Debug)]
pub struct ServeArgs {
    /// Path to the Python project
    pub project: String,
    /// Port to listen on
    pub port: u16,
    /// Host to bind to
    pub host: String,
}

// ---- Config ----

#[derive(Clone, Debug)]
pub enum ConfigCmd {
    /// Show current configuration
    Show,
    /// Set API key for LLM features
    SetApiKey(ConfigValueArg),
    /// Set chat model
    SetModel(ConfigValueArg),
    /// Set embedding API key
    SetEmbeddingKey(ConfigValueArg),
}

#[derive(Clone, Debug)]
pub struct ConfigValueArg {
    /// Value to persist in config
    pub value: String,
}

// ---- Query ----

#[derive(Clone, Debug)]
pub enum QueryCmd {
    /// Inspect a symbol: details + source code
    Inspect(InspectArgs),
    /// Trace call relationships: upstream or downstream
    Trace(TraceArgs),
    /// Find symbols by pattern or similarity
    Find(FindArgs),
    /// Show symbols scoped to a file or module
    Scope(ScopeArgs),
    /// Show raw source code for a symbol
    Source(SourceArgs),
    /// Find structurally similar symbols
    Similar(SimilarArgs),
    /// Export graph to DOT/Mermaid/JSON
    Export(ExportArgs),
    /// Shortest call path between two symbols
    Path(PathArgs),
    /// List symbols with optional filters
    Symbols(SymbolsArgs),
    /// Full dependency impact analysis
    Impact(ImpactArgs),
    /// Risk assessment for changing a symbol
    Risk(RiskArgs),
}

#[derive(Clone, Debug)]
pub struct InspectArgs {
    /// Symbol name (qualified: pkg.module.name, or short: name)
    pub name: String,
    /// Graph file to query
    pub graph: Option<String>,
    /// Disable source code output
    pub no_source: bool,
}

#[derive(Clone, Debug)]
pub struct TraceArgs {
    /// Symbol name
    pub name: String,
    /// Direction: up (callers), down (callees), both (default)
    pub direction: String,
    /// Maximum traversal depth
    pub depth: usize,
    /// Maximum results
    pub limit: usize,
    /// Graph file to query
    pub graph: Option<String>,
}

#[derive(Clone, Debug)]
pub struct FindArgs {
    /// Search pattern
    pub pattern: String,
    /// Search mode: text or similar
    pub mode: String,
    /// Maximum results
    pub limit: usize,
    /// Graph file to query
    pub graph: Option<String>,
}

#[derive(Clone, Debug)]
pub struct ScopeArgs {
    /// Target path or module name
    pub target: String,
    /// Scope kind: file or module
    pub kind: String,
    /// Graph file to query
    pub graph: Option<String>,
}

#[derive(Clone, Debug)]
pub struct SourceArgs {
    /// Symbol name
    pub name: String,
    /// Graph file to query
    pub graph: Option<String>,
}

#[derive(Clone, Debug)]
pub struct SimilarArgs {
    /// Symbol name to find similar functions for
    pub name: String,
    /// Maximum results
    pub limit: usize,
    /// Graph file to query
    pub graph: Option<String>,
}

#[derive(Clone, Debug)]
pub struct ExportArgs {
    /// Export format: dot, mermaid, or json
    pub format: String,
    /// Graph file to query
    pub graph: Option<String>,
}

#[derive(Clone, Debug)]
pub struct PathArgs {
    /// Starting symbol
    pub from: String,
    /// Target symbol
    pub to: String,
    /// Maximum search depth
    pub depth: usize,
    /// Graph file to query
    pub graph: Option<String>,
}

#[derive(Clone, Debug)]
pub struct SymbolsArgs {
    /// Filter by node kind (function, class, module, etc.)
    pub kind: Option<String>,
    /// Maximum results
    pub limit: usize,
    /// Filter by visibility (public, private, _prefix)
    pub visibility: Option<String>,
    /// Only show symbols without docstrings
    pub no_docs: bool,
    /// Only show symbols with no callers (dead code)
    pub dead: bool,
    /// Only show symbols called exclusively from test files
    pub test_only: bool,
    /// Only show symbols using dynamic Python features
    pub dynamic: bool,
    /// Only show legacy code patterns
    pub legacy: bool,
    /// Only show async functions and methods
    pub async_only: bool,
    /// Filter by decorator name
    pub decorator: Option<String>,
    /// Minimum number of unique callers
    pub min_callers: Option<usize>,
    /// Maximum number of unique callers
    pub max_callers: Option<usize>,
    /// Minimum total degree
    pub min_degree: Option<usize>,
    /// Maximum total degree
    pub max_degree: Option<usize>,
    /// Graph file to query
    pub graph: Option<String>,
}

#[derive(Clone, Debug)]
pub struct ImpactArgs {
    /// Symbol name
    pub name: String,
    /// Maximum traversal depth
    pub depth: usize,
    /// Maximum results
    pub limit: usize,
    /// Graph file to query
    pub graph: Option<String>,
}

#[derive(Clone, Debug)]
pub struct RiskArgs {
    /// Symbol name
    pub name: String,
    /// Maximum traversal depth
    pub depth: usize,
    /// Maximum results
    pub limit: usize,
    /// Graph file to query
    pub graph: Option<String>,
}

// ---- Nav ----

#[derive(Clone, Debug)]
pub enum NavCmd {
    /// Token-budgeted project overview for AI agents
    CodeMap(MapArgs),
    /// Entry points with short downstream call chains
    Guide(GuideArgs),
    /// Detected code entry points
    Entries(EntriesArgs),
    /// Functional symbol clusters by directory
    Clusters(ClustersArgs),
    /// Code graph quality metrics
    Quality(QualityArgs),
    /// Ask the LLM a question about the codebase
    Ask(AskArgs),
    /// Retrieve relevant nodes using lexical and optional embedding search
    Retrieve(RetrieveArgs),
    /// Architecture health: cycles, god modules, dead code
    Health(HealthArgs),
    /// Generate a markdown report
    Report(ReportArgs),
}

#[derive(Clone, Debug)]
pub struct MapArgs {
    /// Include entry points and feature clusters (default: hot symbols only)
    pub full: bool,
    /// Token budget for the map content
    pub budget: usize,
    /// Graph file to query
    pub graph: Option<String>,
}

#[derive(Clone, Debug)]
pub struct GuideArgs {
    /// Maximum entry points to include
    pub limit: usize,
    /// Graph file to query
    pub graph: Option<String>,
}

#[derive(Clone, Debug)]
pub struct EntriesArgs {
    /// Maximum entry points to include
    pub limit: usize,
    /// Graph file to query
    pub graph: Option<String>,
}

#[derive(Clone, Debug)]
pub struct ClustersArgs {
    /// Maximum clusters to include
    pub limit: usize,
    /// Graph file to query
    pub graph: Option<String>,
}

#[derive(Clone, Debug)]
pub struct QualityArgs {
    /// Graph file to query
    pub graph: Option<String>,
}

#[derive(Clone, Debug)]
pub struct AskArgs {
    /// Natural-language question about the codebase
    pub question: String,
    /// Graph file to query
    pub graph: Option<String>,
}

#[derive(Clone, Debug)]
pub struct RetrieveArgs {
    /// Search query
    pub query: String,
    /// Maximum results
    pub limit: usize,
    /// Graph file to query
    pub graph: Option<String>,
}

#[derive(Clone, Debug)]
pub struct HealthArgs {
    /// Maximum items per category
    pub limit: usize,
    /// Graph file to query
    pub graph: Option<String>,
}

#[derive(Clone, Debug)]
pub struct ReportArgs {
    /// Graph file to query
    pub graph: Option<String>,
}

// ---- Analyze ----

#[derive(Clone, Debug)]
pub enum AnalyzeCmd {
    /// Module dependency matrix
    Deps(DepsArgs),
    /// File-level fan-in / fan-out
    Fanout(FanoutArgs),
    /// Test impact analysis: which tests to run
    Tests(TestsArgs),
    /// Git hotspot analysis for frequently changed files
    Hotspots(HotspotsArgs),
    /// Simplified graph diff for changed files
    Diff(DiffArgs),
    /// Compute a safe module refactor order
    RefactorOrder(RefactorOrderArgs),
    /// Measure type annotation coverage
    TypeCoverage(TypeCoverageArgs),
    /// Map async callsites and sync calls
    AsyncMap(AsyncMapArgs),
    /// Analyze decorator usage patterns
    DecoratorUsage(DecoratorUsageArgs),
}

#[derive(Clone, Debug)]
pub struct DepsArgs {
    /// Filter to dependencies from this module
    pub from: Option<String>,
    /// Maximum results
    pub limit: usize,
    /// Graph file to query
    pub graph: Option<String>,
}

#[derive(Clone, Debug)]
pub struct FanoutArgs {
    /// Maximum results
    pub limit: usize,
    /// Graph file to query
    pub graph: Option<String>,
}

#[derive(Clone, Debug)]
pub struct TestsArgs {
    /// Target symbol to analyze (optional, falls back to static discovery)
    pub symbol: Option<String>,
    /// Maximum test candidates
    pub limit: usize,
    /// Graph file to query
    pub graph: Option<String>,
}

#[derive(Clone, Debug)]
pub struct HotspotsArgs {
    /// Maximum hotspot results
    pub limit: usize,
    /// Git history period expression, e.g. "6 months ago"
    pub since: Option<String>,
    /// Override project root used for git commands
    pub project_root: Option<String>,
    /// Graph file to query
    pub graph: Option<String>,
}

#[derive(Clone, Debug)]
pub struct DiffArgs {
    /// Git base ref to diff against
    pub base: String,
    /// Override project root used for git commands
    pub project_root: Option<String>,
    /// Graph file to query
    pub graph: Option<String>,
}

#[derive(Clone, Debug)]
pub struct RefactorOrderArgs {
    /// Target modules to order for refactoring
    pub modules: Vec<String>,
    /// Maximum modules to emit in the ordered plan
    pub limit: usize,
    /// Graph file to query
    pub graph: Option<String>,
}

#[derive(Clone, Debug)]
pub struct TypeCoverageArgs {
    /// Maximum untyped functions to return
    pub limit: usize,
    /// Graph file to query
    pub graph: Option<String>,
}

#[derive(Clone, Debug)]
pub struct AsyncMapArgs {
    /// Maximum rows to return per list
    pub limit: usize,
    /// Graph file to query
    pub graph: Option<String>,
}

#[derive(Clone, Debug)]
pub struct DecoratorUsageArgs {
    /// Maximum decorators to return
    pub limit: usize,
    /// Graph file to query
    pub graph: Option<String>,
}

} // verus!
