use vstd::prelude::*;
use serde_yaml::Value;
use crate::text::{chars_eq, str_chars};

verus! {

#[verifier::external_type_specification]
#[verifier::external_body]
pub struct ExYamlValue(serde_yaml::Value);

/// A YAML document as plain values. Mapping entries keep the order of the document; a
/// mapping never holds two equal keys (the parser refuses such documents).
#[derive(Debug)]
pub enum YamlNode {
    Null,
    Bool(bool),
    /// A number, by its text.
    Number(String),
    Text(String),
    Sequence(Vec<YamlNode>),
    Mapping(Vec<(YamlNode, YamlNode)>),
    /// A node under a `!tag`.
    Tagged(String, Box<YamlNode>),
}

/// The node under all its tags.
pub open spec fn untagged(n: YamlNode) -> YamlNode
    decreases n,
{
    match n {
        YamlNode::Tagged(_, inner) => untagged(*inner),
        _ => n,
    }
}

/// The text of a string node, tags looked through.
pub open spec fn text_of(n: YamlNode) -> Option<Seq<char>> {
    match untagged(n) {
        YamlNode::Text(s) => Some(s@),
        _ => None,
    }
}

/// The entries of a mapping node, tags looked through.
pub open spec fn entries_of(n: YamlNode) -> Option<Seq<(YamlNode, YamlNode)>> {
    match untagged(n) {
        YamlNode::Mapping(m) => Some(m@),
        _ => None,
    }
}

/// The value of the first entry whose key is the (untagged) string `key`.
pub open spec fn lookup(m: Seq<(YamlNode, YamlNode)>, key: Seq<char>) -> Option<YamlNode>
    decreases m.len(),
{
    if m.len() == 0 {
        None
    } else {
        match m[0].0 {
            YamlNode::Text(s) if s@ == key => Some(m[0].1),
            _ => lookup(m.drop_first(), key),
        }
    }
}

/// The value under the string key `key` of a mapping node.
pub open spec fn field(n: YamlNode, key: Seq<char>) -> Option<YamlNode> {
    match entries_of(n) {
        Some(m) => lookup(m, key),
        None => None,
    }
}

/// The text under the string key `key` of a mapping node, or `default` where there is
/// none.
pub open spec fn text_field_or(n: YamlNode, key: Seq<char>, default: Seq<char>) -> Seq<char> {
    match field(n, key) {
        Some(v) => match text_of(v) {
            Some(s) => s,
            None => default,
        },
        None => default,
    }
}

/// The texts of the string keys of a mapping, in document order.
pub open spec fn text_keys(m: Seq<(YamlNode, YamlNode)>) -> Seq<Seq<char>>
    decreases m.len(),
{
    if m.len() == 0 {
        seq![]
    } else {
        text_keys(m.drop_last()) + match text_of(m.last().0) {
            Some(s) => seq![s],
            None => seq![],
        }
    }
}

/// What `serde_yaml` makes of `text`: the document, or the parser's error message.
pub uninterp spec fn yaml_document(text: Seq<char>) -> Result<YamlNode, String>;

/// Parses `text` with `serde_yaml::from_str` into a `serde_yaml::Value` and takes it over
/// as a `YamlNode`. The contract claims only that the outcome depends on the text alone.
#[verifier::external_body]
pub(crate) fn parse_yaml(text: &str) -> (res: Result<YamlNode, String>)
    ensures
        res == yaml_document(text@),
{
    match serde_yaml::from_str::<Value>(text) {
        Ok(value) => Ok(yaml_node_of(value)),
        Err(e) => Err(e.to_string()),
    }
}

/// Takes a `serde_yaml::Value` over as a `YamlNode`, variant by variant (a number by
/// its `Display` text, a tag by its `Display` text). It has no contract of its own:
/// only `parse_yaml` calls it, and that contract covers both.
#[verifier::external_body]
fn yaml_node_of(value: Value) -> YamlNode {
    match value {
        Value::Null => YamlNode::Null,
        Value::Bool(b) => YamlNode::Bool(b),
        Value::Number(n) => YamlNode::Number(n.to_string()),
        Value::String(s) => YamlNode::Text(s),
        Value::Sequence(items) => YamlNode::Sequence(items.into_iter().map(yaml_node_of).collect()),
        Value::Mapping(map) => YamlNode::Mapping(
            map.into_iter().map(|(k, v)| (yaml_node_of(k), yaml_node_of(v))).collect(),
        ),
        Value::Tagged(t) => YamlNode::Tagged(t.tag.to_string(), Box::new(yaml_node_of(t.value))),
    }
}

/// The node under all its tags.
pub fn untag(n: &YamlNode) -> (res: &YamlNode)
    ensures
        *res == untagged(*n),
    decreases n,
{
    match n {
        YamlNode::Tagged(_, inner) => untag(inner),
        _ => n,
    }
}

/// The text of a string node, tags looked through.
pub fn as_text(n: &YamlNode) -> (res: Option<&String>)
    ensures
        match res {
            Some(s) => text_of(*n) == Some(s@),
            None => text_of(*n) is None,
        },
{
    match untag(n) {
        YamlNode::Text(s) => Some(s),
        _ => None,
    }
}

/// The entries of a mapping node, tags looked through.
pub fn as_mapping(n: &YamlNode) -> (res: Option<&Vec<(YamlNode, YamlNode)>>)
    ensures
        match res {
            Some(m) => entries_of(*n) == Some(m@),
            None => entries_of(*n) is None,
        },
{
    match untag(n) {
        YamlNode::Mapping(m) => Some(m),
        _ => None,
    }
}

/// The value under the string key `key` of a mapping node.
pub fn get_field<'a>(n: &'a YamlNode, key: &str) -> (res: Option<&'a YamlNode>)
    ensures
        match res {
            Some(v) => field(*n, key@) == Some(*v),
            None => field(*n, key@) is None,
        },
{
    let m = match as_mapping(n) {
        Some(m) => m,
        None => {
            return None;
        },
    };
    let key_chars = str_chars(key);
    let mut i: usize = 0;
    assert(m@.skip(0) =~= m@);
    while i < m.len()
        invariant
            i <= m.len(),
            key_chars@ == key@,
            entries_of(*n) == Some(m@),
            lookup(m@, key@) == lookup(m@.skip(i as int), key@),
        decreases m.len() - i,
    {
        let ghost rest = m@.skip(i as int);
        assert(rest[0] == m@[i as int]);
        assert(rest.drop_first() =~= m@.skip(i + 1));
        if let YamlNode::Text(s) = &m[i].0 {
            if chars_eq(&str_chars(s.as_str()), &key_chars) {
                return Some(&m[i].1);
            }
        }
        i = i + 1;
    }
    assert(m@.skip(i as int).len() == 0);
    None
}

/// The text under the string key `key` of a mapping node, or `default` where there is
/// none.
pub fn get_text_field_or(n: &YamlNode, key: &str, default: &str) -> (res: String)
    ensures
        res@ == text_field_or(*n, key@, default@),
{
    match get_field(n, key) {
        Some(v) => match as_text(v) {
            Some(s) => s.clone(),
            None => default.to_string(),
        },
        None => default.to_string(),
    }
}

/// The texts of the string keys of a mapping, in document order.
pub fn text_keys_of(m: &Vec<(YamlNode, YamlNode)>) -> (res: Vec<String>)
    ensures
        res@.map_values(|s: String| s@) == text_keys(m@),
{
    let mut res: Vec<String> = Vec::new();
    let mut i: usize = 0;
    while i < m.len()
        invariant
            i <= m.len(),
            res@.map_values(|s: String| s@) == text_keys(m@.take(i as int)),
        decreases m.len() - i,
    {
        assert(m@.take(i + 1).drop_last() =~= m@.take(i as int));
        assert(m@.take(i + 1).last() == m@[i as int]);
        let ghost before = res@;
        match as_text(&m[i].0) {
            Some(s) => {
                res.push(s.clone());
                assert(res@.map_values(|s: String| s@) =~= before.map_values(|s: String| s@).push(s@));
            },
            None => {},
        }
        assert(res@.map_values(|s: String| s@) =~= text_keys(m@.take(i + 1)));
        i = i + 1;
    }
    assert(m@.take(m.len() as int) =~= m@);
    res
}

} // verus!
