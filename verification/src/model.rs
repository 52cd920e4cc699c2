//! The data model of the report: resolved packages as the external resolver
//! hands them over, the classification of a package's declared license, and
//! the rows of the rendered summary table.

use vstd::prelude::*;

verus! {

/// The declared kind of a dependency edge.
#[derive(Clone, Copy, Debug, PartialEq, Eq, Structural)]
pub enum DepKind {
    Normal,
    Build,
    Development,
}

/// One declared dependency edge of a package: the name of the package it
/// points to, and the edge's kind.
#[derive(Debug)]
pub struct DepEdge {
    pub name: String,
    pub kind: DepKind,
}

/// A resolved package, read off the external resolver's output: identity,
/// the directory holding its manifest, its declared license metadata, and its
/// declared dependency edges.
#[derive(Debug)]
pub struct PackageInfo {
    pub name: String,
    pub version: String,
    pub manifest_dir: String,
    pub license: Option<String>,
    pub license_file: Option<String>,
    pub dependencies: Vec<DepEdge>,
}

/// Which packages the report covers: only direct normal-kind dependencies of
/// workspace members, or every package of the resolved graph.
#[derive(Clone, Copy, Debug, PartialEq, Eq, Structural)]
pub enum ReportScope {
    TopLevelOnly,
    AllTransitive,
}

/// How a package declares its license: a set of identifiers parsed from a
/// license expression, a bare pointer to a license file, or nothing at all.
#[derive(Debug, PartialEq, Eq)]
pub enum LicenseClassification {
    Identifiers(Vec<String>),
    DeclaredFile(String),
    Missing,
}

/// One row of the summary table, keyed by package name and version.
#[derive(Debug, PartialEq, Eq)]
pub struct ReportRow {
    pub name: String,
    pub version: String,
    pub licenses: String,
}

} // verus!
