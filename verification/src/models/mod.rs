pub mod apk_model;
pub mod build_model;
pub mod dep_model;
pub mod pubspec_model;
