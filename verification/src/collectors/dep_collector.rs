use vstd::prelude::*;
use crate::collectors::yaml_doc::{
    as_mapping, as_text, entries_of, field, get_field, get_text_field_or, parse_yaml, text_field_or,
    text_keys, text_keys_of, text_of, yaml_document, YamlNode,
};
use crate::models::dep_model::LockPackageEntry;

verus! {

/// A lock file entry as plain values: name, version, dependency type, source.
pub open spec fn lock_entry_view(e: LockPackageEntry) -> (Seq<char>, Seq<char>, Seq<char>, Seq<char>) {
    (e.name@, e.version@, e.dep_type@, e.source@)
}

/// The entry that one `packages:` item of a lock file gives: items whose key is no
/// string give none; a missing or non-string field reads as its default.
pub open spec fn lock_row(key: YamlNode, value: YamlNode) -> Seq<
    (Seq<char>, Seq<char>, Seq<char>, Seq<char>),
> {
    match text_of(key) {
        Some(name) => seq![
            (
                name,
                text_field_or(value, "version"@, "0.0.0"@),
                text_field_or(value, "dependency"@, "unknown"@),
                text_field_or(value, "source"@, "unknown"@),
            ),
        ],
        None => seq![],
    }
}

/// The entries of the `packages:` items, in document order.
pub open spec fn lock_rows(m: Seq<(YamlNode, YamlNode)>) -> Seq<(Seq<char>, Seq<char>, Seq<char>, Seq<char>)>
    decreases m.len(),
{
    if m.len() == 0 {
        seq![]
    } else {
        lock_rows(m.drop_last()) + lock_row(m.last().0, m.last().1)
    }
}

/// The packages of a lock file document: those under its `packages:` mapping, none
/// where there is no such mapping.
pub open spec fn lockfile_packages(doc: YamlNode) -> Seq<(Seq<char>, Seq<char>, Seq<char>, Seq<char>)> {
    match field(doc, "packages"@) {
        Some(p) => match entries_of(p) {
            Some(m) => lock_rows(m),
            None => seq![],
        },
        None => seq![],
    }
}

/// The names under the `dependencies:` mapping of a package's `pubspec.yaml`, in
/// document order; none where there is no such mapping.
pub open spec fn pubspec_dependencies(doc: YamlNode) -> Seq<Seq<char>> {
    match field(doc, "dependencies"@) {
        Some(d) => match entries_of(d) {
            Some(m) => text_keys(m),
            None => seq![],
        },
        None => seq![],
    }
}

/// The lock file entries of a parsed `pubspec.lock`.
pub fn lockfile_entries(doc: &YamlNode) -> (res: Vec<LockPackageEntry>)
    ensures
        res@.map_values(|e: LockPackageEntry| lock_entry_view(e)) == lockfile_packages(*doc),
{
    let mut res: Vec<LockPackageEntry> = Vec::new();
    let packages = match get_field(doc, "packages") {
        Some(p) => p,
        None => {
            return res;
        },
    };
    let m = match as_mapping(packages) {
        Some(m) => m,
        None => {
            assert(res@.map_values(|e: LockPackageEntry| lock_entry_view(e)) =~= seq![]);
            return res;
        },
    };
    let mut i: usize = 0;
    while i < m.len()
        invariant
            i <= m.len(),
            lockfile_packages(*doc) == lock_rows(m@),
            res@.map_values(|e: LockPackageEntry| lock_entry_view(e)) == lock_rows(m@.take(i as int)),
        decreases m.len() - i,
    {
        assert(m@.take(i + 1).drop_last() =~= m@.take(i as int));
        assert(m@.take(i + 1).last() == m@[i as int]);
        let ghost before = res@;
        let (key, value) = (&m[i].0, &m[i].1);
        match as_text(key) {
            Some(name) => {
                let entry = LockPackageEntry {
                    name: name.clone(),
                    version: get_text_field_or(value, "version", "0.0.0"),
                    dep_type: get_text_field_or(value, "dependency", "unknown"),
                    source: get_text_field_or(value, "source", "unknown"),
                };
                res.push(entry);
                assert(res@.map_values(|e: LockPackageEntry| lock_entry_view(e)) =~= before.map_values(
                    |e: LockPackageEntry| lock_entry_view(e),
                ) + lock_row(m@[i as int].0, m@[i as int].1));
            },
            None => {
                assert(res@.map_values(|e: LockPackageEntry| lock_entry_view(e)) =~= before.map_values(
                    |e: LockPackageEntry| lock_entry_view(e),
                ) + lock_row(m@[i as int].0, m@[i as int].1));
            },
        }
        i = i + 1;
    }
    assert(m@.take(m.len() as int) =~= m@);
    res
}

/// Reads the resolved packages out of the text of a `pubspec.lock`: the parser's
/// message where the text is no YAML document, the entries of its `packages:` mapping
/// otherwise.
pub fn parse_lockfile(content: &str) -> (res: Result<Vec<LockPackageEntry>, String>)
    ensures
        match yaml_document(content@) {
            Ok(doc) => res is Ok && res->Ok_0@.map_values(|e: LockPackageEntry| lock_entry_view(e))
                == lockfile_packages(doc),
            Err(msg) => res == Err::<Vec<LockPackageEntry>, String>(msg),
        },
{
    match parse_yaml(content) {
        Ok(doc) => Ok(lockfile_entries(&doc)),
        Err(msg) => Err(msg),
    }
}

/// The dependency names of a parsed package `pubspec.yaml`.
pub fn dependency_names(doc: &YamlNode) -> (res: Vec<String>)
    ensures
        res@.map_values(|s: String| s@) == pubspec_dependencies(*doc),
{
    match get_field(doc, "dependencies") {
        Some(d) => match as_mapping(d) {
            Some(m) => text_keys_of(m),
            None => {
                let res: Vec<String> = Vec::new();
                assert(res@.map_values(|s: String| s@) =~= seq![]);
                res
            },
        },
        None => {
            let res: Vec<String> = Vec::new();
            assert(res@.map_values(|s: String| s@) =~= seq![]);
            res
        },
    }
}

/// Reads the dependency names out of the text of a package's `pubspec.yaml`; a text
/// that is no YAML document has none.
pub fn read_package_deps(content: &str) -> (res: Vec<String>)
    ensures
        match yaml_document(content@) {
            Ok(doc) => res@.map_values(|s: String| s@) == pubspec_dependencies(doc),
            Err(_) => res@.len() == 0,
        },
{
    match parse_yaml(content) {
        Ok(doc) => dependency_names(&doc),
        Err(_) => Vec::new(),
    }
}

} // verus!
