pub mod apk_analyser;
pub mod apk_report;
pub mod asset_analyser;
pub mod build_analyser;
pub mod dep_analyser;
pub mod dep_summary;
pub mod unused_assets;
