use flutter_build_analyser::analysers::unused_assets::{is_scannable_extension, is_skipped_dir, AssetScan};
use flutter_build_analyser::collectors::asset_collector::declared_assets;
use flutter_build_analyser::models::pubspec_model::{FlutterSection, Pubspec, UnusedAssetInfo};

fn asset(name: &str, path: &str) -> UnusedAssetInfo {
    UnusedAssetInfo { name: name.to_string(), path: path.to_string() }
}

fn pairs(v: &[UnusedAssetInfo]) -> Vec<(String, String)> {
    v.iter().map(|a| (a.name.clone(), a.path.clone())).collect()
}

fn pair(a: &str, b: &str) -> (String, String) {
    (a.to_string(), b.to_string())
}

#[test]
fn scan_tracks_each_file_name_once() {
    let assets = vec![
        asset("logo.png", "assets/logo.png"),
        asset("bg.jpg", "assets/bg.jpg"),
        asset("logo.png", "assets/img/logo.png"),
    ];
    let scan = AssetScan::new(&assets);
    assert!(!scan.is_done());
    assert_eq!(
        pairs(&scan.into_unused()),
        vec![pair("logo.png", "assets/img/logo.png"), pair("bg.jpg", "assets/bg.jpg")]
    );
}

#[test]
fn scan_removes_mentioned_assets() {
    let assets = vec![
        asset("logo.png", "assets/logo.png"),
        asset("bg.jpg", "assets/bg.jpg"),
        asset("font.ttf", "assets/fonts/font.ttf"),
    ];
    let mut scan = AssetScan::new(&assets);
    scan.record_file("Image.asset('assets/logo.png');");
    assert!(!scan.is_done());
    scan.record_file("nothing here");
    scan.record_file("- family: Font\n  fonts:\n    - asset: assets/fonts/font.ttf\n");
    assert!(!scan.is_done());
    assert_eq!(pairs(&scan.into_unused()), vec![pair("bg.jpg", "assets/bg.jpg")]);
}

#[test]
fn scan_is_done_once_everything_is_found() {
    let mut scan = AssetScan::new(&vec![asset("a.png", "a.png"), asset("b.png", "b.png")]);
    scan.record_file("a.png b.png");
    assert!(scan.is_done());
    assert!(scan.into_unused().is_empty());
    let empty = AssetScan::new(&Vec::new());
    assert!(empty.is_done());
}

#[test]
fn scan_order_does_not_matter() {
    let assets = vec![asset("a.png", "a.png"), asset("b.png", "b.png"), asset("c.png", "c.png")];
    let files = ["uses a.png", "uses c.png", "uses b.pn"];
    let mut forward = AssetScan::new(&assets);
    for f in files.iter() {
        forward.record_file(f);
    }
    let mut backward = AssetScan::new(&assets);
    for f in files.iter().rev() {
        backward.record_file(f);
    }
    let f = pairs(&forward.into_unused());
    assert_eq!(f, pairs(&backward.into_unused()));
    assert_eq!(f, vec![pair("b.png", "b.png")]);
}

#[test]
fn scan_matches_case_sensitively() {
    let mut scan = AssetScan::new(&vec![asset("Logo.PNG", "assets/Logo.PNG")]);
    scan.record_file("logo.png");
    assert!(!scan.is_done());
    scan.record_file("xLogo.PNGx");
    assert!(scan.is_done());
}

#[test]
fn scannable_extensions() {
    for ext in ["dart", "yaml", "yml", "xml", "json", "gradle", "plist", "html"] {
        assert!(is_scannable_extension(ext), "{}", ext);
    }
    for ext in ["DART", "txt", "", "png", "kts", "htm"] {
        assert!(!is_scannable_extension(ext), "{}", ext);
    }
}

#[test]
fn declared_assets_cases() {
    let full = Pubspec {
        flutter: Some(FlutterSection {
            assets: Some(vec!["assets/".to_string(), "images/logo.png".to_string()]),
        }),
    };
    assert_eq!(declared_assets(&full), vec!["assets/".to_string(), "images/logo.png".to_string()]);
    let no_list = Pubspec { flutter: Some(FlutterSection { assets: None }) };
    assert!(declared_assets(&no_list).is_empty());
    let no_section = Pubspec { flutter: None };
    assert!(declared_assets(&no_section).is_empty());
}

#[test]
fn skipped_directories() {
    for d in ["build", ".dart_tool", ".git", "target", ".idea", ".vscode"] {
        assert!(is_skipped_dir(d), "{}", d);
    }
    for d in ["lib", "Build", "assets", "", ".github", "targets"] {
        assert!(!is_skipped_dir(d), "{}", d);
    }
}

#[test]
fn more_files_only_remove_assets() {
    let assets = vec![asset("a.png", "a.png"), asset("b.png", "b.png"), asset("c.png", "c.png")];
    let fewer = ["uses a.png"];
    let more = ["x", "uses a.png", "uses c.png"];
    let mut s1 = AssetScan::new(&assets);
    for f in fewer.iter() {
        s1.record_file(f);
    }
    let mut s2 = AssetScan::new(&assets);
    for f in more.iter() {
        s2.record_file(f);
    }
    let u1 = pairs(&s1.into_unused());
    let u2 = pairs(&s2.into_unused());
    assert!(u2.iter().all(|x| u1.contains(x)));
    assert_eq!(u1, vec![pair("b.png", "b.png"), pair("c.png", "c.png")]);
    assert_eq!(u2, vec![pair("b.png", "b.png")]);
}
