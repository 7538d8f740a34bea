//! TOML documents: the `toml` crate reads the text; this module holds the
//! values it reads and the ordered maps of register and field descriptions.
use vstd::prelude::*;
use indexmap::IndexMap;
use toml::Value as TomlTree;
use crate::error::TomlError;
use crate::kv::{Access, BitRange};

verus! {

/// A TOML value. Tables hold their entries in the order the parser gives
/// them; a float or a datetime is held as the `toml::Value` it was read as.
#[derive(Debug)]
pub enum TomlValue {
    String(String),
    Integer(i64),
    Float(TomlTree),
    Boolean(bool),
    Datetime(TomlTree),
    Array(Vec<TomlValue>),
    Table(Vec<(String, TomlValue)>),
}

#[verifier::external_type_specification]
#[verifier::external_body]
pub struct ExTomlTree(TomlTree);

/// The value that `toml::from_str` reads from a text, or the message and
/// byte span of its error.
pub uninterp spec fn toml_document(src: Seq<char>) -> Result<TomlValue, (Seq<char>, Option<(usize, usize)>)>;

/// A `toml::Value` as a [`TomlValue`]: the same strings, integers,
/// booleans, arrays and tables; a float or a datetime kept as it is.
#[verifier::external_body]
fn value_from_toml(v: TomlTree) -> TomlValue {
    match v {
        TomlTree::String(s) => TomlValue::String(s),
        TomlTree::Integer(i) => TomlValue::Integer(i),
        f @ TomlTree::Float(_) => TomlValue::Float(f),
        TomlTree::Boolean(b) => TomlValue::Boolean(b),
        d @ TomlTree::Datetime(_) => TomlValue::Datetime(d),
        TomlTree::Array(a) => TomlValue::Array(a.into_iter().map(value_from_toml).collect()),
        TomlTree::Table(t) => TomlValue::Table(t.into_iter().map(|(k, v)| (k, value_from_toml(v))).collect()),
    }
}

/// A [`TomlValue`] as the `toml::Value` it stands for.
#[verifier::external_body]
fn value_to_toml(v: &TomlValue) -> TomlTree {
    match v {
        TomlValue::String(s) => TomlTree::String(s.clone()),
        TomlValue::Integer(i) => TomlTree::Integer(*i),
        TomlValue::Float(f) => f.clone(),
        TomlValue::Boolean(b) => TomlTree::Boolean(*b),
        TomlValue::Datetime(d) => d.clone(),
        TomlValue::Array(a) => TomlTree::Array(a.iter().map(value_to_toml).collect()),
        TomlValue::Table(t) => TomlTree::Table(t.iter().map(|(k, v)| (k.clone(), value_to_toml(v))).collect()),
    }
}

/// What serde's `String::deserialize` gives for a TOML value: the string,
/// or the text of its error.
pub uninterp spec fn string_from_toml(v: TomlValue) -> Result<Seq<char>, Seq<char>>;

/// `<String as serde::Deserialize>::deserialize` on a `toml::Value`: the
/// string the value holds, or the error's text (`Display`), as named by
/// [`string_from_toml`], a function of the value alone. A string value gives
/// itself.
#[verifier::external_body]
pub(crate) fn deserialize_string(v: &TomlValue) -> (r: Result<String, String>)
    ensures
        match r {
            Ok(s) => string_from_toml(*v) == Ok::<Seq<char>, Seq<char>>(s@),
            Err(m) => string_from_toml(*v) == Err::<Seq<char>, Seq<char>>(m@),
        },
        r is Ok && r->Ok_0@ == v->String_0@ || !(*v is String),
{
    <String as serde::Deserialize>::deserialize(value_to_toml(v)).map_err(|e| e.to_string())
}

/// `toml::from_str::<toml::Value>`: the document a text holds, or the
/// parser's error message and byte span. What it reads is named by
/// [`toml_document`], a function of the text alone; the error has no file.
#[verifier::external_body]
pub(crate) fn read_toml_document(src: &str) -> (r: Result<TomlValue, TomlError>)
    ensures
        match r {
            Ok(v) => toml_document(src@) == Ok::<TomlValue, (Seq<char>, Option<(usize, usize)>)>(v),
            Err(e) => toml_document(src@) == Err::<TomlValue, (Seq<char>, Option<(usize, usize)>)>((e.message@, e.span))
                && e.file is None,
        },
{
    match toml::from_str::<TomlTree>(src) {
        Ok(v) => Ok(value_from_toml(v)),
        Err(e) => Err(TomlError {
            message: e.message().to_string(),
            span: e.span().map(|s| (s.start, s.end)),
            file: None,
        }),
    }
}

// ---------------------------------------------------------------------------
// Ordered maps

#[verifier::external_type_specification]
#[verifier::external_body]
#[verifier::reject_recursive_types(K)]
#[verifier::reject_recursive_types(V)]
#[verifier::reject_recursive_types(S)]
pub struct ExIndexMap<K, V, S>(IndexMap<K, V, S>);

/// A field of a TOML register description.
#[derive(Debug)]
pub struct TomlField {
    pub bits: BitRange,
    pub access: Access,
    pub description: Option<String>,
    pub enum_values: Option<Vec<String>>,
}

/// A register of a TOML description: offset, description and named fields.
#[derive(Debug)]
pub struct TomlRegister {
    pub offset: u64,
    pub description: Option<String>,
    pub fields: IndexMap<String, TomlField>,
}

/// The entries, in order, of a map of fields by name.
pub uninterp spec fn field_entries(m: IndexMap<String, TomlField>) -> Seq<(Seq<char>, TomlField)>;

/// The entries, in order, of a map of registers by name.
pub uninterp spec fn register_entries(m: IndexMap<String, TomlRegister>) -> Seq<(Seq<char>, TomlRegister)>;

/// The entries after inserting `(k, v)`: a present key keeps its place and
/// takes the new value; a new key goes last.
pub open spec fn entries_insert<V>(s: Seq<(Seq<char>, V)>, k: Seq<char>, v: V) -> Seq<(Seq<char>, V)> {
    if exists|i: int| 0 <= i < s.len() && (#[trigger] s[i]).0 == k {
        let i = choose|i: int| 0 <= i < s.len() && (#[trigger] s[i]).0 == k;
        s.update(i, (k, v))
    } else {
        s.push((k, v))
    }
}

pub open spec fn keys_unique<V>(s: Seq<(Seq<char>, V)>) -> bool {
    forall|i: int, j: int| 0 <= i < j < s.len() ==> (#[trigger] s[i]).0 != (#[trigger] s[j]).0
}

/// `IndexMap::new`: an empty map.
#[verifier::external_body]
pub(crate) fn field_map_new() -> (r: IndexMap<String, TomlField>)
    ensures
        field_entries(r).len() == 0,
{
    IndexMap::new()
}

/// `IndexMap::insert`: as [`entries_insert`] states; keys are compared by
/// `String`'s `==`, which compares characters.
#[verifier::external_body]
pub(crate) fn field_map_insert(m: &mut IndexMap<String, TomlField>, k: String, v: TomlField)
    ensures
        field_entries(*final(m)) == entries_insert(field_entries(*old(m)), k@, v),
{
    m.insert(k, v);
}

/// `IndexMap::len`: the number of entries.
#[verifier::external_body]
pub(crate) fn field_map_len(m: &IndexMap<String, TomlField>) -> (r: usize)
    ensures
        r == field_entries(*m).len(),
{
    m.len()
}

/// `IndexMap::into_iter`: the entries in order.
#[verifier::external_body]
pub(crate) fn field_map_into_vec(m: IndexMap<String, TomlField>) -> (r: Vec<(String, TomlField)>)
    ensures
        r@.len() == field_entries(m).len(),
        forall|i: int| 0 <= i < r@.len() ==> (#[trigger] r@[i]).0@ == field_entries(m)[i].0 && r@[i].1 == field_entries(m)[i].1,
{
    m.into_iter().collect()
}

/// `IndexMap::new`: an empty map.
#[verifier::external_body]
pub(crate) fn register_map_new() -> (r: IndexMap<String, TomlRegister>)
    ensures
        register_entries(r).len() == 0,
{
    IndexMap::new()
}

/// `IndexMap::insert`: as [`entries_insert`] states.
#[verifier::external_body]
pub(crate) fn register_map_insert(m: &mut IndexMap<String, TomlRegister>, k: String, v: TomlRegister)
    ensures
        register_entries(*final(m)) == entries_insert(register_entries(*old(m)), k@, v),
{
    m.insert(k, v);
}

/// `IndexMap::into_iter`: the entries in order.
#[verifier::external_body]
pub(crate) fn register_map_into_vec(m: IndexMap<String, TomlRegister>) -> (r: Vec<(String, TomlRegister)>)
    ensures
        r@.len() == register_entries(m).len(),
        forall|i: int| 0 <= i < r@.len() ==> (#[trigger] r@[i]).0@ == register_entries(m)[i].0 && r@[i].1 == register_entries(m)[i].1,
{
    m.into_iter().collect()
}

} // verus!
