use vstd::prelude::*;

verus! {

/// The part of a `pubspec.yaml` the asset analysis reads.
#[derive(Debug)]
pub struct Pubspec {
    pub flutter: Option<FlutterSection>,
}

/// The `flutter:` section of a `pubspec.yaml`.
#[derive(Debug)]
pub struct FlutterSection {
    pub assets: Option<Vec<String>>,
}

/// An asset file and its size in bytes.
#[derive(Debug)]
pub struct AssetInfo {
    pub name: String,
    pub size: u64,
}

/// A declared asset that no scanned project file mentions: its file name and its path
/// relative to the project root.
#[derive(Debug)]
pub struct UnusedAssetInfo {
    pub name: String,
    pub path: String,
}

} // verus!
