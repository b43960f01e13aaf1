//! Analysis of Flutter projects: asset sizes and unused assets, the dependency graph
//! of `pubspec.lock`, the phase timings of a verbose `flutter build`, and the size
//! breakdown of an APK.

pub mod analysers;
pub mod collectors;
pub mod models;
pub mod order;
pub mod precheck;
pub mod report;
pub mod text;
