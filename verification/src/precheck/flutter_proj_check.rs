use vstd::prelude::*;
use crate::text::{contains, contains_chars, str_chars};

verus! {

/// A Flutter project is at hand when Flutter is installed and the path holds a
/// Flutter project.
pub fn flutter_proj_check(flutter_installed: bool, is_flutter_project: bool) -> (res: bool)
    ensures
        res == (flutter_installed && is_flutter_project),
{
    flutter_installed && is_flutter_project
}

/// Whether a directory holds a Flutter project: its `pubspec.yaml` could be read and
/// names the Flutter SDK (`sdk: flutter`), and it has a `lib` directory.
pub fn verify_is_path_to_flutter(pubspec_content: Option<&str>, has_lib_dir: bool) -> (res: bool)
    ensures
        res == (pubspec_content matches Some(c) && contains(c@, "sdk: flutter"@) && has_lib_dir),
{
    match pubspec_content {
        None => false,
        Some(c) => {
            if !contains_chars(&str_chars(c), &str_chars("sdk: flutter")) {
                return false;
            }
            has_lib_dir
        },
    }
}

/// Flutter counts as installed when the `flutter` command answers, or on Windows the
/// `flutter.bat` command, or when the executable is found at a usual location.
pub fn is_flutter_installed(
    command_answers: bool,
    windows_command_answers: bool,
    found_at_common_location: bool,
) -> (res: bool)
    ensures
        res == (command_answers || windows_command_answers || found_at_common_location),
{
    command_answers || windows_command_answers || found_at_common_location
}

/// The usual places of the Flutter executable on Linux, macOS and Windows.
pub fn common_flutter_locations() -> (res: Vec<&'static str>)
    ensures
        res@.map_values(|p: &str| p@) == seq![
            "/usr/bin/flutter"@,
            "/usr/local/bin/flutter"@,
            "/opt/flutter/bin/flutter"@,
            "/snap/bin/flutter"@,
            "C:\\flutter\\bin\\flutter.bat"@,
            "C:\\src\\flutter\\bin\\flutter.bat"@,
        ],
{
    let res = vec![
        "/usr/bin/flutter",
        "/usr/local/bin/flutter",
        "/opt/flutter/bin/flutter",
        "/snap/bin/flutter",
        "C:\\flutter\\bin\\flutter.bat",
        "C:\\src\\flutter\\bin\\flutter.bat",
    ];
    assert(res@.map_values(|p: &str| p@) =~= seq![
        "/usr/bin/flutter"@,
        "/usr/local/bin/flutter"@,
        "/opt/flutter/bin/flutter"@,
        "/snap/bin/flutter"@,
        "C:\\flutter\\bin\\flutter.bat"@,
        "C:\\src\\flutter\\bin\\flutter.bat"@,
    ]);
    res
}

/// Whether any of the usual locations holds the Flutter executable.
pub fn check_common_locations(location_exists: &Vec<bool>) -> (res: bool)
    ensures
        res == exists|i: int| 0 <= i < location_exists.len() && location_exists[i],
{
    let mut i: usize = 0;
    while i < location_exists.len()
        invariant
            i <= location_exists.len(),
            forall|k: int| 0 <= k < i ==> !location_exists[k],
        decreases location_exists.len() - i,
    {
        if location_exists[i] {
            return true;
        }
        i = i + 1;
    }
    false
}

} // verus!
