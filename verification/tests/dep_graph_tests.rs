use flutter_build_analyser::analysers::asset_analyser::format_size;
use flutter_build_analyser::analysers::dep_analyser::{
    analyse_dep_graph, analyse_dep_graph_checked, needs_cache_lookup,
};
use flutter_build_analyser::analysers::dep_summary::dep_summary_lines;
use flutter_build_analyser::collectors::dep_collector::{
    dependency_names, lockfile_entries, parse_lockfile, read_package_deps,
};
use flutter_build_analyser::collectors::yaml_doc::YamlNode;
use flutter_build_analyser::models::dep_model::{
    DepGraphResult, DepPackageInfo, LockPackageEntry, PackageCacheInfo,
};

fn entry(name: &str, version: &str, dep_type: &str, source: &str) -> LockPackageEntry {
    LockPackageEntry {
        name: name.to_string(),
        version: version.to_string(),
        dep_type: dep_type.to_string(),
        source: source.to_string(),
    }
}

fn cache(deps: &[&str], size: u64) -> PackageCacheInfo {
    PackageCacheInfo { dependencies: deps.iter().map(|d| d.to_string()).collect(), size }
}

fn strings(items: &[&str]) -> Vec<String> {
    items.iter().map(|s| s.to_string()).collect()
}

fn sample_graph() -> DepGraphResult {
    let entries = vec![
        entry("a", "1.0.0", "direct main", "hosted"),
        entry("b", "2.0.0", "transitive", "hosted"),
        entry("c", "3.0.0", "direct dev", "hosted"),
        entry("d", "0.0.0", "direct main", "sdk"),
    ];
    let caches = vec![
        cache(&["b", "d"], 100),
        cache(&[], 50),
        cache(&["b", "a", "x"], 25),
        cache(&["x"], 999),
    ];
    analyse_dep_graph(&entries, &caches)
}

fn row(p: &DepPackageInfo) -> (String, String, String, Vec<String>, Vec<String>, u64) {
    (
        p.name.clone(),
        p.version.clone(),
        p.dep_type.clone(),
        p.dependencies.clone(),
        p.dependents.clone(),
        p.size,
    )
}

#[test]
fn dep_graph_rows_most_depended_first() {
    let g = sample_graph();
    assert_eq!(g.total_packages, 4);
    assert_eq!(g.total_size, 175);
    let rows: Vec<_> = g.packages.iter().map(row).collect();
    assert_eq!(
        rows,
        vec![
            ("b".to_string(), "2.0.0".to_string(), "transitive".to_string(), strings(&[]), strings(&["a", "c"]), 50),
            ("a".to_string(), "1.0.0".to_string(), "direct main".to_string(), strings(&["b", "d"]), strings(&["c"]), 100),
            ("d".to_string(), "0.0.0".to_string(), "direct main".to_string(), strings(&[]), strings(&["a"]), 0),
            ("c".to_string(), "3.0.0".to_string(), "direct dev".to_string(), strings(&["b", "a", "x"]), strings(&[]), 25),
        ]
    );
}

#[test]
fn dep_graph_total_is_sum_of_rows() {
    let g = sample_graph();
    let sum: u64 = g.packages.iter().map(|p| p.size).sum();
    assert_eq!(g.total_size, sum);
}

#[test]
fn dep_graph_dependents_mirror_dependencies() {
    let g = sample_graph();
    for p in &g.packages {
        for q in &g.packages {
            let listed = p.dependencies.iter().filter(|d| **d == q.name).count();
            let pulled = q.dependents.iter().filter(|d| **d == p.name).count();
            assert_eq!(listed, pulled, "{} -> {}", p.name, q.name);
        }
    }
}

#[test]
fn dep_graph_later_entry_of_same_name_wins() {
    let entries = vec![
        entry("a", "1.0.0", "direct main", "hosted"),
        entry("a", "1.1.0", "direct main", "path"),
    ];
    let caches = vec![cache(&["a"], 10), cache(&[], 20)];
    let g = analyse_dep_graph(&entries, &caches);
    assert_eq!(g.total_packages, 2);
    assert_eq!(g.total_size, 0);
    for p in &g.packages {
        assert!(p.dependencies.is_empty());
        assert!(p.dependents.is_empty());
        assert_eq!(p.size, 0);
    }
    assert_eq!(g.packages[0].version, "1.0.0");
    assert_eq!(g.packages[1].version, "1.1.0");
}

#[test]
fn dep_graph_empty_lock_file() {
    let g = analyse_dep_graph(&Vec::new(), &Vec::new());
    assert_eq!(g.total_packages, 0);
    assert_eq!(g.total_size, 0);
    assert!(g.packages.is_empty());
}

#[test]
fn only_hosted_packages_are_looked_up() {
    assert!(needs_cache_lookup(&entry("a", "1", "direct main", "hosted")));
    assert!(!needs_cache_lookup(&entry("a", "1", "direct main", "sdk")));
    assert!(!needs_cache_lookup(&entry("a", "1", "direct main", "Hosted")));
    assert!(!needs_cache_lookup(&entry("a", "1", "direct main", "git")));
}

fn rule() -> String {
    "─".repeat(60)
}

#[test]
fn dep_summary_lines_exact() {
    let g = sample_graph();
    let lines = dep_summary_lines(&g);
    let expected: Vec<String> = vec![
        String::new(),
        "Dependency Graph".to_string(),
        rule(),
        "  Total packages: 4    Total size: 175 B".to_string(),
        rule(),
        String::new(),
        "  Direct Dependencies (2)".to_string(),
        String::new(),
        "  a v1.0.0  100 B".to_string(),
        "    ├─ b  50 B".to_string(),
        "    └─ d  0 B".to_string(),
        String::new(),
        "  d v0.0.0  0 B".to_string(),
        String::new(),
        "  Dev Dependencies (1)".to_string(),
        String::new(),
        "  c v3.0.0  25 B".to_string(),
        "    ├─ b  50 B".to_string(),
        "    ├─ a  100 B".to_string(),
        "    └─ x  sdk".to_string(),
        String::new(),
        "  Most Depended-On (pulled by other packages)".to_string(),
        rule(),
        String::new(),
        "  b v2.0.0  ← pulled by 2 packages".to_string(),
        "    ├─ a".to_string(),
        "    └─ c".to_string(),
        String::new(),
        "  a v1.0.0  ← pulled by 1 packages".to_string(),
        "    └─ c".to_string(),
        String::new(),
        "  d v0.0.0  ← pulled by 1 packages".to_string(),
        "    └─ a".to_string(),
        String::new(),
        "  Heaviest Packages".to_string(),
        rule(),
        format!("  {:<35} {:>10}", "a v1.0.0", "100 B"),
        format!("  {:<35} {:>10}", "b v2.0.0", "50 B"),
        format!("  {:<35} {:>10}", "c v3.0.0", "25 B"),
    ];
    assert_eq!(lines, expected);
}

#[test]
fn dep_summary_without_relationships() {
    let g = analyse_dep_graph(&Vec::new(), &Vec::new());
    let lines = dep_summary_lines(&g);
    let expected: Vec<String> = vec![
        String::new(),
        "Dependency Graph".to_string(),
        rule(),
        "  Total packages: 0    Total size: 0 B".to_string(),
        rule(),
        "  Most Depended-On (pulled by other packages)".to_string(),
        rule(),
        "  No dependency relationships found".to_string(),
        String::new(),
        "  Heaviest Packages".to_string(),
        rule(),
    ];
    assert_eq!(lines, expected);
}

#[test]
fn dep_summary_lists_at_most_ten() {
    let mut entries = Vec::new();
    let mut caches = Vec::new();
    for i in 0..12u64 {
        entries.push(entry(&format!("p{}", i), "1", "transitive", "hosted"));
        caches.push(cache(&[], 2000 + i));
    }
    entries.push(entry("root", "1", "direct main", "hosted"));
    let all: Vec<String> = (0..12).map(|i| format!("p{}", i)).collect();
    caches.push(PackageCacheInfo { dependencies: all, size: 0 });
    let g = analyse_dep_graph(&entries, &caches);
    let lines = dep_summary_lines(&g);
    let pulled = lines.iter().filter(|l| l.contains("← pulled by 1 packages")).count();
    assert_eq!(pulled, 10);
    let heavy_start = lines.iter().position(|l| l == "  Heaviest Packages").unwrap();
    let heavy: Vec<&String> = lines[heavy_start + 2..].iter().collect();
    assert_eq!(heavy.len(), 10);
    assert_eq!(*heavy[0], format!("  {:<35} {:>10}", "p11 v1", format_size(2011)));
    assert_eq!(*heavy[9], format!("  {:<35} {:>10}", "p2 v1", format_size(2002)));
}

#[test]
fn dep_summary_pads_long_names_without_cutting() {
    let long = "a_really_long_package_name_that_goes_on";
    let entries = vec![entry(long, "10.20.30", "transitive", "hosted")];
    let caches = vec![cache(&[], 12345678901)];
    let g = analyse_dep_graph(&entries, &caches);
    let lines = dep_summary_lines(&g);
    assert_eq!(
        lines.last().unwrap(),
        &format!("  {} v10.20.30   11.50 GB", long)
    );
}

const LOCK: &str = "packages:
  http:
    dependency: \"direct main\"
    description:
      name: http
      url: \"https://pub.dev\"
    source: hosted
    version: \"1.2.0\"
  meta:
    dependency: transitive
    source: hosted
    version: \"1.9.1\"
  flutter:
    dependency: \"direct main\"
    description: flutter
    source: sdk
    version: \"0.0.0\"
sdks:
  dart: \">=3.0.0 <4.0.0\"
";

fn views(entries: &[LockPackageEntry]) -> Vec<(String, String, String, String)> {
    entries
        .iter()
        .map(|e| (e.name.clone(), e.version.clone(), e.dep_type.clone(), e.source.clone()))
        .collect()
}

fn quad(a: &str, b: &str, c: &str, d: &str) -> (String, String, String, String) {
    (a.to_string(), b.to_string(), c.to_string(), d.to_string())
}

#[test]
fn parse_lockfile_reads_packages_in_order() {
    let entries = parse_lockfile(LOCK).unwrap();
    assert_eq!(
        views(&entries),
        vec![
            quad("http", "1.2.0", "direct main", "hosted"),
            quad("meta", "1.9.1", "transitive", "hosted"),
            quad("flutter", "0.0.0", "direct main", "sdk"),
        ]
    );
}

#[test]
fn parse_lockfile_defaults_and_skips() {
    let text = "packages:\n  odd: {}\n  123:\n    source: hosted\n  num:\n    version: 2\n    source: [a]\n  tagged: !t\n    source: !s hosted\n";
    let entries = parse_lockfile(text).unwrap();
    assert_eq!(
        views(&entries),
        vec![
            quad("odd", "0.0.0", "unknown", "unknown"),
            quad("num", "0.0.0", "unknown", "unknown"),
            quad("tagged", "0.0.0", "unknown", "hosted"),
        ]
    );
}

#[test]
fn parse_lockfile_without_packages() {
    assert!(parse_lockfile("sdks:\n  dart: any\n").unwrap().is_empty());
    assert!(parse_lockfile("packages: 3\n").unwrap().is_empty());
    assert!(parse_lockfile("- a\n- b\n").unwrap().is_empty());
    assert!(parse_lockfile("").unwrap().is_empty());
}

#[test]
fn parse_lockfile_rejects_bad_yaml() {
    let err = parse_lockfile("packages: [unclosed\n").unwrap_err();
    assert!(!err.is_empty());
    let dup = parse_lockfile("packages:\n  a: {}\n  a: {}\n").unwrap_err();
    assert!(dup.contains("duplicate"), "{}", dup);
}

#[test]
fn read_package_deps_lists_dependency_names() {
    let text = "name: http\nversion: 1.2.0\ndependencies:\n  meta: ^1.0.0\n  flutter:\n    sdk: flutter\n  1: x\ndev_dependencies:\n  test: any\n";
    assert_eq!(read_package_deps(text), strings(&["meta", "flutter"]));
}

#[test]
fn read_package_deps_empty_cases() {
    assert!(read_package_deps("name: x\n").is_empty());
    assert!(read_package_deps("dependencies:\n").is_empty());
    assert!(read_package_deps("dependencies: [a, b]\n").is_empty());
    assert!(read_package_deps("dependencies: {a: [}\n").is_empty());
}

#[test]
fn dep_graph_checked_reports_overflow() {
    let entries = vec![
        entry("a", "1", "direct main", "hosted"),
        entry("b", "1", "transitive", "hosted"),
    ];
    let over = vec![cache(&[], u64::MAX), cache(&[], 1)];
    assert!(analyse_dep_graph_checked(&entries, &over).is_none());
    let fits = vec![cache(&[], u64::MAX - 1), cache(&[], 1)];
    let g = analyse_dep_graph_checked(&entries, &fits).unwrap();
    assert_eq!(g.total_size, u64::MAX);
    let sdk = vec![entry("a", "1", "direct main", "hosted"), entry("b", "1", "direct main", "sdk")];
    let ignored = vec![cache(&[], u64::MAX), cache(&[], 1)];
    assert_eq!(analyse_dep_graph_checked(&sdk, &ignored).unwrap().total_size, u64::MAX);
}

fn text(s: &str) -> YamlNode {
    YamlNode::Text(s.to_string())
}

fn tagged(tag: &str, node: YamlNode) -> YamlNode {
    YamlNode::Tagged(tag.to_string(), Box::new(node))
}

#[test]
fn lockfile_entries_of_a_built_document() {
    let http = YamlNode::Mapping(vec![
        (text("dependency"), text("direct main")),
        (text("source"), tagged("!s", text("hosted"))),
        (text("version"), YamlNode::Number("1".to_string())),
    ]);
    let doc = tagged(
        "!lock",
        YamlNode::Mapping(vec![
            (text("sdks"), YamlNode::Null),
            (
                text("packages"),
                YamlNode::Mapping(vec![
                    (tagged("!k", text("http")), http),
                    (YamlNode::Bool(true), YamlNode::Mapping(vec![])),
                    (text("meta"), YamlNode::Sequence(vec![text("x")])),
                ]),
            ),
        ]),
    );
    assert_eq!(
        views(&lockfile_entries(&doc)),
        vec![
            quad("http", "0.0.0", "direct main", "hosted"),
            quad("meta", "0.0.0", "unknown", "unknown"),
        ]
    );
    let tagged_key = YamlNode::Mapping(vec![(tagged("!t", text("packages")), YamlNode::Mapping(vec![]))]);
    assert!(lockfile_entries(&tagged_key).is_empty());
}

#[test]
fn dependency_names_of_a_built_document() {
    let doc = YamlNode::Mapping(vec![(
        text("dependencies"),
        tagged(
            "!d",
            YamlNode::Mapping(vec![
                (text("meta"), text("^1.0.0")),
                (YamlNode::Number("3".to_string()), text("x")),
                (tagged("!n", text("path")), YamlNode::Null),
            ]),
        ),
    )]);
    assert_eq!(dependency_names(&doc), strings(&["meta", "path"]));
    assert!(dependency_names(&YamlNode::Null).is_empty());
}
