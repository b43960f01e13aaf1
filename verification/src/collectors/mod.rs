pub mod apk_collector;
pub mod asset_collector;
pub mod dep_collector;
pub mod yaml_doc;
