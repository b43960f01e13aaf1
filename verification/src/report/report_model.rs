use vstd::prelude::*;
use crate::models::apk_model::ApkBreakdownResult;
use crate::models::build_model::BuildTimingResult;
use crate::models::dep_model::DepGraphResult;
use crate::models::pubspec_model::{AssetInfo, UnusedAssetInfo};

verus! {

/// Everything an analysis run found; a part stays `None` when it was not run or failed.
#[derive(Debug)]
pub struct AnalysisReport {
    pub assets: Option<AssetReport>,
    pub dependencies: Option<DepGraphResult>,
    pub build_timing: Option<BuildTimingResult>,
    pub apk_breakdown: Option<ApkBreakdownResult>,
}

/// The declared asset files with their sizes, and those never referenced.
#[derive(Debug)]
pub struct AssetReport {
    pub assets: Vec<AssetInfo>,
    pub unused_assets: Vec<UnusedAssetInfo>,
}

impl AnalysisReport {
    /// A report with no part filled in.
    pub fn new() -> (res: Self)
        ensures
            res.assets is None,
            res.dependencies is None,
            res.build_timing is None,
            res.apk_breakdown is None,
    {
        AnalysisReport { assets: None, dependencies: None, build_timing: None, apk_breakdown: None }
    }
}

} // verus!
