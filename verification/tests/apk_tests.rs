use std::io::{Cursor, Write};

use flutter_build_analyser::analysers::apk_analyser::{analyse_apk, analyse_apk_checked, classify_entry};
use flutter_build_analyser::analysers::apk_report::{largest_files_lines, truncate_display_path};
use flutter_build_analyser::analysers::asset_analyser::format_size;
use flutter_build_analyser::collectors::apk_collector::{failure_message, read_apk_entries};
use flutter_build_analyser::models::apk_model::{ApkFileEntry, ZipFailure};
use zip::write::SimpleFileOptions;
use zip::{CompressionMethod, ZipWriter};

fn sample_entries() -> Vec<(String, u64)> {
    vec![
        ("lib/arm64-v8a/libflutter.so".to_string(), 5000),
        ("lib/armeabi-v7a/libflutter.so".to_string(), 4000),
        ("lib/arm64-v8a/libapp.so".to_string(), 3000),
        ("classes.dex".to_string(), 2000),
        ("assets/flutter_assets/fonts/Roboto.ttf".to_string(), 100),
        ("res/drawable/icon.png".to_string(), 300),
        ("resources.arsc".to_string(), 800),
        ("META-INF/CERT.RSA".to_string(), 50),
        ("AndroidManifest.xml".to_string(), 60),
        ("kotlin/kotlin.kotlin_builtins".to_string(), 10),
    ]
}

#[test]
fn classify_entry_categories() {
    assert_eq!(classify_entry("lib/arm64-v8a/libflutter.so"), "Native Libraries");
    assert_eq!(classify_entry("lib/"), "Native Libraries");
    assert_eq!(classify_entry("lib"), "Other");
    assert_eq!(classify_entry("classes.dex"), "Compiled Code");
    assert_eq!(classify_entry("classes2.dex"), "Compiled Code");
    assert_eq!(classify_entry("classes.jar"), "Other");
    assert_eq!(classify_entry("assets/flutter_assets/x.png"), "App Assets");
    assert_eq!(classify_entry("res/drawable/a.png"), "Android Resources");
    assert_eq!(classify_entry("resources.arsc"), "Resource Table");
    assert_eq!(classify_entry("res/resources.arsc"), "Android Resources");
    assert_eq!(classify_entry("META-INF/CERT.RSA"), "Signing & Metadata");
    assert_eq!(classify_entry("AndroidManifest.xml"), "Signing & Metadata");
    assert_eq!(classify_entry("kotlin/x.kotlin_builtins"), "Other");
    assert_eq!(classify_entry(""), "Other");
}

#[test]
fn analyse_apk_breakdown() {
    let r = analyse_apk(sample_entries(), 20000, "app-release.apk");
    assert_eq!(r.apk_file_name, "app-release.apk");
    assert_eq!(r.total_size, 20000);
    let cats: Vec<(String, u64, usize)> =
        r.categories.iter().map(|c| (c.name.clone(), c.size, c.file_count)).collect();
    assert_eq!(
        cats,
        vec![
            ("Native Libraries".to_string(), 12000, 3),
            ("Compiled Code".to_string(), 2000, 1),
            ("Resource Table".to_string(), 800, 1),
            ("Android Resources".to_string(), 300, 1),
            ("Signing & Metadata".to_string(), 110, 2),
            ("App Assets".to_string(), 100, 1),
            ("Other".to_string(), 10, 1),
        ]
    );
    let libs: Vec<(String, u64)> =
        r.native_libs.iter().map(|n| (n.architecture.clone(), n.size)).collect();
    assert_eq!(
        libs,
        vec![("arm64-v8a".to_string(), 8000), ("armeabi-v7a".to_string(), 4000)]
    );
    let files: Vec<(String, u64)> =
        r.largest_files.iter().map(|f| (f.path.clone(), f.size)).collect();
    assert_eq!(
        files,
        vec![
            ("lib/arm64-v8a/libflutter.so".to_string(), 5000),
            ("lib/armeabi-v7a/libflutter.so".to_string(), 4000),
            ("lib/arm64-v8a/libapp.so".to_string(), 3000),
            ("classes.dex".to_string(), 2000),
            ("resources.arsc".to_string(), 800),
        ]
    );
}

#[test]
fn analyse_apk_categories_add_up() {
    let entries = sample_entries();
    let total: u64 = entries.iter().map(|e| e.1).sum();
    let count = entries.len();
    let r = analyse_apk(entries, 0, "x.apk");
    assert_eq!(r.categories.iter().map(|c| c.size).sum::<u64>(), total);
    assert_eq!(r.categories.iter().map(|c| c.file_count).sum::<usize>(), count);
    let native = r.categories.iter().find(|c| c.name == "Native Libraries").unwrap().size;
    assert_eq!(r.native_libs.iter().map(|n| n.size).sum::<u64>(), native);
}

#[test]
fn analyse_apk_ties_keep_their_order() {
    let entries = vec![
        ("res/a".to_string(), 7),
        ("assets/b".to_string(), 7),
        ("lib/x86/c.so".to_string(), 7),
        ("lib/x86_64/d.so".to_string(), 7),
        ("lib/arm/e.so".to_string(), 7),
        ("z".to_string(), 7),
        ("META-INF/f".to_string(), 7),
    ];
    let r = analyse_apk(entries, 49, "t.apk");
    let cats: Vec<String> = r.categories.iter().map(|c| c.name.clone()).collect();
    assert_eq!(
        cats,
        vec!["Native Libraries", "App Assets", "Android Resources", "Signing & Metadata", "Other"]
    );
    let libs: Vec<String> = r.native_libs.iter().map(|n| n.architecture.clone()).collect();
    assert_eq!(libs, vec!["x86", "x86_64", "arm"]);
    let files: Vec<String> = r.largest_files.iter().map(|f| f.path.clone()).collect();
    assert_eq!(files, vec!["res/a", "assets/b", "lib/x86/c.so", "lib/x86_64/d.so", "lib/arm/e.so"]);
}

#[test]
fn analyse_apk_native_architecture_edge_cases() {
    let entries = vec![
        ("lib/libtop.so".to_string(), 3),
        ("lib//odd.so".to_string(), 4),
        ("lib/libtop.so/inner".to_string(), 5),
    ];
    let r = analyse_apk(entries, 12, "e.apk");
    let libs: Vec<(String, u64)> =
        r.native_libs.iter().map(|n| (n.architecture.clone(), n.size)).collect();
    assert_eq!(libs, vec![("libtop.so".to_string(), 8), ("".to_string(), 4)]);
}

#[test]
fn analyse_apk_empty() {
    let r = analyse_apk(Vec::new(), 0, "empty.apk");
    assert!(r.categories.is_empty());
    assert!(r.native_libs.is_empty());
    assert!(r.largest_files.is_empty());
}

#[test]
fn truncate_display_path_cases() {
    assert_eq!(truncate_display_path("classes.dex"), "classes.dex");
    let forty = "a".repeat(40);
    assert_eq!(truncate_display_path(&forty), forty);
    let long = "assets/flutter_assets/packages/cupertino_icons/assets/CupertinoIcons.ttf";
    assert_eq!(truncate_display_path(long), format!("{}...{}", &long[..18], &long[long.len() - 18..]));
    assert_eq!(truncate_display_path(long), "assets/flutter_ass...CupertinoIcons.ttf");
    let forty_one = format!("{}{}", "b".repeat(20), "c".repeat(21));
    assert_eq!(truncate_display_path(&forty_one), format!("{}...{}", "b".repeat(18), "c".repeat(18)));
    let wide = format!("{}{}{}", "é".repeat(9), "x".repeat(10), "é".repeat(9));
    assert_eq!(truncate_display_path(&wide), format!("{}...{}", "é".repeat(9), "é".repeat(9)));
}

#[test]
fn largest_files_lines_exact() {
    let files = vec![
        ApkFileEntry { path: "lib/arm64-v8a/libflutter.so".to_string(), size: 5_000_000 },
        ApkFileEntry {
            path: "assets/flutter_assets/packages/cupertino_icons/assets/CupertinoIcons.ttf".to_string(),
            size: 900,
        },
    ];
    let lines = largest_files_lines(&files);
    let expected = vec![
        String::new(),
        "  Largest Files".to_string(),
        format!("  {}", "─".repeat(40)),
        format!("  {:<42} {:>8}", "lib/arm64-v8a/libflutter.so", format_size(5_000_000)),
        format!("  {:<42} {:>8}", "assets/flutter_ass...CupertinoIcons.ttf", "900 B"),
    ];
    assert_eq!(lines, expected);
    assert!(largest_files_lines(&Vec::new()).is_empty());
}

fn zip_bytes() -> Vec<u8> {
    let mut w = ZipWriter::new(Cursor::new(Vec::new()));
    let opts = SimpleFileOptions::default().compression_method(CompressionMethod::Stored);
    w.start_file("AndroidManifest.xml", opts).unwrap();
    w.write_all(b"<manifest/>").unwrap();
    w.add_directory("lib/", opts).unwrap();
    w.start_file("lib/arm64-v8a/libapp.so", opts).unwrap();
    w.write_all(b"abc").unwrap();
    w.finish().unwrap().into_inner()
}

#[test]
fn read_apk_entries_lists_files() {
    let entries = read_apk_entries(&zip_bytes()).unwrap();
    assert_eq!(
        entries,
        vec![
            ("AndroidManifest.xml".to_string(), 11),
            ("lib/arm64-v8a/libapp.so".to_string(), 3),
        ]
    );
}

#[test]
fn read_apk_entries_rejects_non_zip() {
    let err = read_apk_entries(&b"not a zip archive".to_vec()).unwrap_err();
    assert!(err.starts_with("Failed to read APK as ZIP: "), "{}", err);
}

#[test]
fn analyse_apk_checked_overflow_is_per_category() {
    let over = vec![("lib/x86/a.so".to_string(), u64::MAX), ("lib/arm/b.so".to_string(), 1)];
    assert!(analyse_apk_checked(over, 0, "o.apk").is_none());
    let apart = vec![("lib/x86/a.so".to_string(), u64::MAX), ("classes.dex".to_string(), u64::MAX)];
    let r = analyse_apk_checked(apart, 0, "a.apk").unwrap();
    assert_eq!(r.categories.len(), 2);
    assert_eq!(r.categories[0].name, "Native Libraries");
    assert_eq!(r.categories[1].name, "Compiled Code");
    assert_eq!(r.native_libs[0].size, u64::MAX);
}

#[test]
fn failure_messages_name_the_stage() {
    let archive = ZipFailure { entry: None, message: "invalid Zip archive".to_string() };
    assert_eq!(failure_message(&archive), "Failed to read APK as ZIP: invalid Zip archive");
    let entry = ZipFailure { entry: Some(12), message: "unsupported".to_string() };
    assert_eq!(failure_message(&entry), "Failed to read ZIP entry 12: unsupported");
}
