//! A bill-of-materials reporter for a resolved dependency graph: it picks the
//! third-party packages to report on, normalizes each package's declared
//! license expression into a sorted set of identifiers, collects the license
//! files lying beside a package's manifest, and renders the result as a table
//! plus delimited license-text blocks.

pub mod classify;
pub mod enumerate;
pub mod locate;
pub mod model;
pub mod render;
pub mod text;
