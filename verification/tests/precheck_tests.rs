use flutter_build_analyser::precheck::flutter_proj_check::{
    check_common_locations, common_flutter_locations, flutter_proj_check, is_flutter_installed,
    verify_is_path_to_flutter,
};
use flutter_build_analyser::precheck::fs_check::check_path_is_valid;
use flutter_build_analyser::precheck::runner::run_pre_checks;
use flutter_build_analyser::report::report_model::AnalysisReport;

#[test]
fn run_pre_checks_messages() {
    assert_eq!(run_pre_checks(true, true), Ok(()));
    assert_eq!(run_pre_checks(false, true), Err("Path validation failed".to_string()));
    assert_eq!(run_pre_checks(false, false), Err("Path validation failed".to_string()));
    assert_eq!(run_pre_checks(true, false), Err("Flutter project validation failed".to_string()));
}

#[test]
fn check_path_is_valid_messages() {
    assert_eq!(check_path_is_valid(true, true), Ok(()));
    assert_eq!(
        check_path_is_valid(false, false),
        Err("Incorrect path! Please Specify Correct Path".to_string())
    );
    assert_eq!(
        check_path_is_valid(true, false),
        Err("Given Path is not directory! Please Specify Flutter Project Path".to_string())
    );
}

#[test]
fn flutter_project_detection() {
    let pubspec = "name: demo\ndependencies:\n  flutter:\n    sdk: flutter\n";
    assert!(verify_is_path_to_flutter(Some(pubspec), true));
    assert!(!verify_is_path_to_flutter(Some(pubspec), false));
    assert!(!verify_is_path_to_flutter(Some("name: demo\ndependencies:\n  http: any\n"), true));
    assert!(!verify_is_path_to_flutter(Some("sdk:  flutter"), true));
    assert!(!verify_is_path_to_flutter(None, true));
    assert!(verify_is_path_to_flutter(Some("sdk: flutter"), true));
}

#[test]
fn flutter_installation_detection() {
    assert!(is_flutter_installed(true, false, false));
    assert!(is_flutter_installed(false, true, false));
    assert!(is_flutter_installed(false, false, true));
    assert!(!is_flutter_installed(false, false, false));
    assert!(flutter_proj_check(true, true));
    assert!(!flutter_proj_check(false, true));
    assert!(!flutter_proj_check(true, false));
}

#[test]
fn common_locations() {
    assert_eq!(
        common_flutter_locations(),
        vec![
            "/usr/bin/flutter",
            "/usr/local/bin/flutter",
            "/opt/flutter/bin/flutter",
            "/snap/bin/flutter",
            "C:\\flutter\\bin\\flutter.bat",
            "C:\\src\\flutter\\bin\\flutter.bat",
        ]
    );
    assert!(!check_common_locations(&vec![false; 6]));
    assert!(check_common_locations(&vec![false, false, false, false, false, true]));
    assert!(!check_common_locations(&Vec::new()));
}

#[test]
fn new_report_is_empty() {
    let r = AnalysisReport::new();
    assert!(r.assets.is_none());
    assert!(r.dependencies.is_none());
    assert!(r.build_timing.is_none());
    assert!(r.apk_breakdown.is_none());
}
