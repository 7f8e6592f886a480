//! An incremental build planner: a cached graph of compiler invocations
//! ("units") that, given a set of changed files, computes which units are
//! dirty, closes the set under reverse dependencies, orders it
//! topologically (dependencies first), and either replays the cached
//! invocations or reports that the external build tool must be re-run.

mod analysis;
mod changed;
mod closure;
mod dirty;
mod graph;
mod load;
mod package_map;
mod path;
mod planner;
mod topo;
mod unit;

pub use analysis::CrateAnalysis;
pub use changed::ChangedFiles;
pub use graph::BuildGraph;
pub use package_map::PackageMap;
pub use path::AbsPath;
pub use planner::{JobQueue, PackageArg, Planner, WorkStatus};
pub use unit::{ProcessSpec, RawInvocation, RawPlan, Unit, UnitKey};
