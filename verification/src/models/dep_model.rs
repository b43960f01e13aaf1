use vstd::prelude::*;

verus! {

/// One package of `pubspec.lock`.
#[derive(Debug)]
pub struct LockPackageEntry {
    pub name: String,
    pub version: String,
    pub dep_type: String,
    pub source: String,
}

/// A package of the dependency graph: what it depends on, what depends on it, and its
/// size in the pub cache.
#[derive(Debug)]
pub struct DepPackageInfo {
    pub name: String,
    pub version: String,
    pub dep_type: String,
    pub dependencies: Vec<String>,
    pub dependents: Vec<String>,
    pub size: u64,
}

/// The dependency graph of a project.
#[derive(Debug)]
pub struct DepGraphResult {
    pub packages: Vec<DepPackageInfo>,
    pub total_packages: usize,
    pub total_size: u64,
}

/// What the pub cache holds for one package: the names under `dependencies:` in its
/// `pubspec.yaml`, and the bytes of its files.
#[derive(Debug)]
pub struct PackageCacheInfo {
    pub dependencies: Vec<String>,
    pub size: u64,
}

} // verus!
