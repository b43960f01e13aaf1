use flutter_build_analyser::analysers::build_analyser::{
    analyse_build_timing, analyse_build_timing_checked, classify_phase, extract_timestamp,
    format_duration, is_build_type,
};
use flutter_build_analyser::models::build_model::{
    BuildOutput,
};
use flutter_build_analyser::analysers::asset_analyser::format_size;

fn reference_size(bytes: u64) -> String {
    const KB: f64 = 1024.0;
    const MB: f64 = KB * 1024.0;
    const GB: f64 = MB * 1024.0;
    let b = bytes as f64;
    if b >= GB {
        format!("{:.2} GB", b / GB)
    } else if b >= MB {
        format!("{:.2} MB", b / MB)
    } else if b >= KB {
        format!("{:.2} KB", b / KB)
    } else {
        format!("{} B", bytes)
    }
}

#[test]
fn format_size_exact_values() {
    assert_eq!(format_size(0), "0 B");
    assert_eq!(format_size(1023), "1023 B");
    assert_eq!(format_size(1024), "1.00 KB");
    assert_eq!(format_size(1536), "1.50 KB");
    assert_eq!(format_size(1048576), "1.00 MB");
    assert_eq!(format_size(1073741824), "1.00 GB");
    assert_eq!(format_size(u64::MAX), "17179869184.00 GB");
}

#[test]
fn format_size_matches_float_formatting() {
    let mut samples: Vec<u64> = Vec::new();
    for b in 0..5000u64 {
        samples.push(b);
    }
    for shift in 10..64u32 {
        let base = 1u64 << shift;
        for d in 0..64u64 {
            samples.push(base.wrapping_add(d * 977));
            samples.push(base.wrapping_sub(d * 131 + 1));
            samples.push(base.wrapping_add(base / 3).wrapping_add(d));
        }
    }
    let mut x: u64 = 0x9e3779b97f4a7c15;
    for _ in 0..20000 {
        x ^= x << 13;
        x ^= x >> 7;
        x ^= x << 17;
        samples.push(x >> (x % 60));
    }
    for b in samples {
        assert_eq!(format_size(b), reference_size(b), "bytes = {}", b);
    }
}

#[test]
fn format_size_halfway_hundredths() {
    // 1152 / 1024 = 1.125 exactly: halfway between 1.12 and 1.13.
    assert_eq!(format_size(1152), reference_size(1152));
    assert_eq!(format_size(1152 + 1024), reference_size(1152 + 1024));
}

#[test]
fn format_duration_ranges() {
    assert_eq!(format_duration(0), "0ms");
    assert_eq!(format_duration(999), "999ms");
    assert_eq!(format_duration(1000), "1s 0ms");
    assert_eq!(format_duration(59999), "59s 999ms");
    assert_eq!(format_duration(60000), "1m 0s");
    assert_eq!(format_duration(125500), "2m 5s");
}

#[test]
fn extract_timestamp_forms() {
    assert_eq!(extract_timestamp("[  +123 ms] Running Gradle task"), Some(123));
    assert_eq!(extract_timestamp("[ +4567 ms] done"), Some(4567));
    assert_eq!(extract_timestamp("[+5 ms]"), Some(5));
    assert_eq!(extract_timestamp("[ ++5 ms]"), Some(5));
    assert_eq!(extract_timestamp("[ +5 s]"), None);
    assert_eq!(extract_timestamp("[ 5 ms]"), None);
    assert_eq!(extract_timestamp("no bracket"), None);
    assert_eq!(extract_timestamp("[ +5 ms"), None);
    assert_eq!(extract_timestamp("[ +5 6 ms]"), None);
    assert_eq!(extract_timestamp("[ +-5 ms]"), None);
    assert_eq!(extract_timestamp("[ +999999999999999999999999999999999999999 ms]"), None);
}

#[test]
fn classify_phase_keywords() {
    assert_eq!(classify_phase("[ +1 ms] Running Gradle task 'assembleRelease'"), "Gradle Build");
    assert_eq!(classify_phase("[ +1 ms] XCODE build"), "Xcode Build");
    assert_eq!(classify_phase("[ +1 ms] Compiling dart to kernel"), "Dart Compilation");
    assert_eq!(classify_phase("[ +1 ms] copying assets"), "Asset Bundling");
    assert_eq!(classify_phase("[ +1 ms] Signing app"), "Code Signing");
    assert_eq!(classify_phase("[ +1 ms] R8 shrinking"), "Code Shrinking");
    assert_eq!(classify_phase("[ +1 ms] dex merging"), "Dexing");
    assert_eq!(classify_phase("[ +1 ms] writing apk"), "Packaging");
    assert_eq!(classify_phase("[ +1 ms] hello"), "Other");
}

fn output(stdout: &str, stderr: &str) -> BuildOutput {
    BuildOutput {
        stdout: stdout.to_string(),
        stderr: stderr.to_string(),
        total_duration_ms: 4242,
        success: true,
    }
}

#[test]
fn analyse_build_timing_sums_and_orders() {
    let out = output(
        "[  +10 ms] gradle step\n[ +5 ms] hello\nplain line\n  [ +30 ms] copying assets  \r\n",
        "[ +20 ms] Gradle again\n[ +7 ms] other thing",
    );
    let r = analyse_build_timing(&out);
    assert_eq!(r.total_duration_ms, 4242);
    let got: Vec<(String, u128)> = r.phases.iter().map(|p| (p.phase_name.clone(), p.duration_ms)).collect();
    assert_eq!(
        got,
        vec![
            ("Gradle Build".to_string(), 30),
            ("Asset Bundling".to_string(), 30),
            ("Other".to_string(), 12),
        ]
    );
}

#[test]
fn analyse_build_timing_empty_log() {
    let r = analyse_build_timing(&output("", ""));
    assert!(r.phases.is_empty());
}

#[test]
fn analyse_build_timing_checked_overflow() {
    let line = "[ +340282366920938463463374607431768211455 ms] gradle\n";
    let text = format!("{}{}", line, line);
    assert!(analyse_build_timing_checked(&output(&text, "")).is_none());
    assert!(analyse_build_timing_checked(&output(line, "")).is_some());
}

#[test]
fn breakdown_accounts_for_every_timestamp() {
    let stdout = "[ +12 ms] Running Gradle task\n[+3 ms] bundle\nno stamp\n[ +1 s] skipped\n[ +40 ms] dex\n";
    let stderr = "[ +8 ms] zip\n[ +2 ms] certificate\n[ +5 ms] dart snapshot\n";
    let out = output(stdout, stderr);
    let stamps: u128 = format!("{}\n{}", stdout, stderr)
        .lines()
        .filter_map(|l| extract_timestamp(l.trim()))
        .sum();
    assert_eq!(stamps, 70);
    let r = analyse_build_timing(&out);
    assert_eq!(r.phases.iter().map(|p| p.duration_ms).sum::<u128>(), stamps);
    let got: Vec<(String, u128)> = r.phases.iter().map(|p| (p.phase_name.clone(), p.duration_ms)).collect();
    assert_eq!(
        got,
        vec![
            ("Dexing".to_string(), 40),
            ("Gradle Build".to_string(), 12),
            ("Packaging".to_string(), 8),
            ("Dart Compilation".to_string(), 5),
            ("Asset Bundling".to_string(), 3),
            ("Code Signing".to_string(), 2),
        ]
    );
}

#[test]
fn classify_phase_ignores_ascii_case() {
    let lines = [
        "[ +1 ms] Running Gradle task 'assembleRelease'",
        "[ +1 ms] Compiling Dart to Kernel",
        "[ +1 ms] Building App Bundle",
        "[ +1 ms] Certificate check",
        "[ +1 ms] Running R8",
        "[ +1 ms] D8 dexing",
        "[ +1 ms] Writing AAB",
        "[ +1 ms] xcodebuild archive",
        "[ +1 ms] nothing",
    ];
    let names = [
        "Gradle Build", "Xcode Build", "Dart Compilation", "Asset Bundling", "Code Signing",
        "Code Shrinking", "Dexing", "Packaging", "Other",
    ];
    for l in lines.iter() {
        let p = classify_phase(l);
        assert_eq!(classify_phase(&l.to_ascii_uppercase()), p);
        assert_eq!(classify_phase(&l.to_ascii_lowercase()), p);
        assert!(names.contains(&p.as_str()));
    }
}

#[test]
fn swapped_streams_same_phases() {
    let a = "[ +12 ms] gradle\n[ +3 ms] asset\r\n[ +4 ms] gradle";
    let b = "[ +7 ms] zip\n\n[ +1 ms] sign\r";
    let mut r1: Vec<(String, u128)> = analyse_build_timing(&output(a, b))
        .phases
        .iter()
        .map(|p| (p.phase_name.clone(), p.duration_ms))
        .collect();
    let mut r2: Vec<(String, u128)> = analyse_build_timing(&output(b, a))
        .phases
        .iter()
        .map(|p| (p.phase_name.clone(), p.duration_ms))
        .collect();
    r1.sort();
    r2.sort();
    assert_eq!(r1, r2);
    assert_eq!(
        r1,
        vec![
            ("Asset Bundling".to_string(), 3),
            ("Code Signing".to_string(), 1),
            ("Gradle Build".to_string(), 16),
            ("Packaging".to_string(), 7),
        ]
    );
}

#[test]
fn build_types() {
    for t in ["apk", "appbundle", "ios", "ipa", "web", "linux", "macos", "windows"] {
        assert!(is_build_type(t), "{}", t);
    }
    for t in ["APK", "android", "", "run", "apks"] {
        assert!(!is_build_type(t), "{}", t);
    }
}
