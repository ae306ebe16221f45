//! Risk profiles for the third-party packages of a project, computed from its
//! resolved dependency graph.
//!
//! The graph is taken as a resolver gives it: a list of packages, some of
//! them root packages of the project, and a list of edges between them.
//! From it the library works out, for every third-party package that the
//! root packages pull in, what it depends on, which root packages import it,
//! which packages it alone brings in, and how many lines of code come with
//! it. Packages that go by the same name end up in one record.
//!
//! - `graph`: the packages and edges, and what a path is.
//! - `roots`: which root packages are analysed.
//! - `reach`: what can be reached from where.
//! - `exclusive`: what one package alone brings in.
//! - `totals`: line counts over a package and everything below it.
//! - `record`: the risk record, and how records of one name are merged.
//! - `analysis`: all of the above in one run.
//! - `metrics`, `warnings`, `depinfo`: the line counts of a package itself,
//!   from what scanners and the compiler report.
//! - `reputation`: what source hosts and the registry say of a package.
//! - `names`: lists of texts that are read as sets.
//!
//! Nothing here reads a file, runs a build or sends a request: a caller does
//! that and hands over what came of it.

pub mod analysis;
pub mod depinfo;
pub mod exclusive;
pub mod graph;
pub mod metrics;
pub mod names;
pub mod reach;
pub mod record;
pub mod reputation;
pub mod roots;
pub mod totals;
pub mod warnings;
