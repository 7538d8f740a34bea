//! Registers and fields, and how an annotation's pairs become one.
use vstd::prelude::*;
use crate::error::LoweringError;
use crate::kv::{Access, BitRange, KvPair, KvPairView, Value, ValueView, pairs_view};
use crate::source_map::FileId;
use crate::state::FieldId;
use crate::text::strings_view;

verus! {

pub open spec fn opt_string_view(o: Option<String>) -> Option<Seq<char>> {
    match o {
        Some(s) => Some(s@),
        None => None,
    }
}

pub open spec fn opt_strings_view(o: Option<Vec<String>>) -> Option<Seq<Seq<char>>> {
    match o {
        Some(v) => Some(strings_view(v@)),
        None => None,
    }
}

/// A register: its offset, name, optional description and fields.
#[derive(Debug, Clone)]
pub struct Register {
    offset: u64,
    name: String,
    description: Option<String>,
    fields: Vec<FieldId>,
}

/// The mathematical content of a [`Register`].
pub struct RegisterView {
    pub offset: u64,
    pub name: Seq<char>,
    pub description: Option<Seq<char>>,
    pub fields: Seq<FieldId>,
}

impl View for Register {
    type V = RegisterView;

    closed spec fn view(&self) -> RegisterView {
        RegisterView {
            offset: self.offset,
            name: self.name@,
            description: opt_string_view(self.description),
            fields: self.fields@,
        }
    }
}

/// A field of a register.
#[derive(Debug, Clone)]
pub struct Field {
    pub name: String,
    pub bits: BitRange,
    pub access: Access,
    pub description: Option<String>,
    pub enum_values: Option<Vec<String>>,
}

/// The mathematical content of a [`Field`].
pub struct FieldView {
    pub name: Seq<char>,
    pub bits: BitRange,
    pub access: Access,
    pub description: Option<Seq<char>>,
    pub enum_values: Option<Seq<Seq<char>>>,
}

impl View for Field {
    type V = FieldView;

    open spec fn view(&self) -> FieldView {
        FieldView {
            name: self.name@,
            bits: self.bits,
            access: self.access,
            description: opt_string_view(self.description),
            enum_values: opt_strings_view(self.enum_values),
        }
    }
}

// ---------------------------------------------------------------------------
// Looking up keys

/// The value of the first pair from position `i` on whose key is `key`.
pub open spec fn find_value_from(ps: Seq<KvPairView>, key: Seq<char>, i: int) -> Option<ValueView>
    decreases ps.len() - i,
{
    if i < 0 || i >= ps.len() {
        None
    } else if ps[i].key == key {
        Some(ps[i].value)
    } else {
        find_value_from(ps, key, i + 1)
    }
}

/// The value of the first pair whose key is `key`.
pub open spec fn find_value(ps: Seq<KvPairView>, key: Seq<char>) -> Option<ValueView> {
    find_value_from(ps, key, 0)
}

/// The value of the first pair with the given key, if any.
fn allow<'a>(values: &'a [KvPair], key: &String) -> (r: Option<&'a Value>)
    ensures
        match r {
            Some(v) => find_value(pairs_view(values@), key@) == Some(v@),
            None => find_value(pairs_view(values@), key@) is None,
        },
{
    let ghost ps = pairs_view(values@);
    let mut i: usize = 0;
    while i < values.len()
        invariant
            i <= values@.len(),
            ps == pairs_view(values@),
            find_value_from(ps, key@, i as int) == find_value(ps, key@),
        decreases values@.len() - i,
    {
        assert(ps[i as int] == values@[i as int]@);
        if values[i].key == *key {
            return Some(&values[i].value);
        }
        i = i + 1;
    }
    None
}

/// The value of the first pair with the given key, or `err` if there is none.
fn require<'a>(values: &'a [KvPair], key: &String, err: LoweringError) -> (r: Result<&'a Value, LoweringError>)
    ensures
        match r {
            Ok(v) => find_value(pairs_view(values@), key@) == Some(v@),
            Err(e) => find_value(pairs_view(values@), key@) is None && e == err,
        },
{
    match allow(values, key) {
        Some(v) => Ok(v),
        None => Err(err),
    }
}

// ---------------------------------------------------------------------------
// Keys and messages

pub open spec fn key_offset() -> Seq<char> {
    seq!['o', 'f', 'f', 's', 'e', 't']
}

pub open spec fn key_name() -> Seq<char> {
    seq!['n', 'a', 'm', 'e']
}

pub open spec fn key_description() -> Seq<char> {
    seq!['d', 'e', 's', 'c', 'r', 'i', 'p', 't', 'i', 'o', 'n']
}

pub open spec fn key_bits() -> Seq<char> {
    seq!['b', 'i', 't', 's']
}

pub open spec fn key_access() -> Seq<char> {
    seq!['a', 'c', 'c', 'e', 's', 's']
}

pub open spec fn key_enum() -> Seq<char> {
    seq!['e', 'n', 'u', 'm']
}

pub(crate) fn key_offset_string() -> (r: String)
    ensures
        r@ == key_offset(),
{
    let s = String::from_str("offset");
    proof {
        reveal_strlit("offset");
    }
    assert(s@ =~= key_offset());
    s
}

pub(crate) fn key_name_string() -> (r: String)
    ensures
        r@ == key_name(),
{
    let s = String::from_str("name");
    proof {
        reveal_strlit("name");
    }
    assert(s@ =~= key_name());
    s
}

pub(crate) fn key_description_string() -> (r: String)
    ensures
        r@ == key_description(),
{
    let s = String::from_str("description");
    proof {
        reveal_strlit("description");
    }
    assert(s@ =~= key_description());
    s
}

pub(crate) fn key_bits_string() -> (r: String)
    ensures
        r@ == key_bits(),
{
    let s = String::from_str("bits");
    proof {
        reveal_strlit("bits");
    }
    assert(s@ =~= key_bits());
    s
}

pub(crate) fn key_access_string() -> (r: String)
    ensures
        r@ == key_access(),
{
    let s = String::from_str("access");
    proof {
        reveal_strlit("access");
    }
    assert(s@ =~= key_access());
    s
}

pub(crate) fn key_enum_string() -> (r: String)
    ensures
        r@ == key_enum(),
{
    let s = String::from_str("enum");
    proof {
        reveal_strlit("enum");
    }
    assert(s@ =~= key_enum());
    s
}

pub open spec fn msg_require_offset() -> Seq<char> {
    "Require an offset key."@
}

pub open spec fn msg_require_name() -> Seq<char> {
    "Require a name key."@
}

pub open spec fn msg_description() -> Seq<char> {
    "description must be a string value."@
}

pub open spec fn msg_field_name() -> Seq<char> {
    "Fields require a name."@
}

pub open spec fn msg_field_bits() -> Seq<char> {
    "Fields require a bits declaration."@
}

pub open spec fn msg_enum() -> Seq<char> {
    "enum must be a quoted list of strings"@
}

// ---------------------------------------------------------------------------
// Registers

/// What a register annotation's pairs give: its offset, name and
/// description, or the message of the first missing or ill-typed key.
pub open spec fn spec_register_from_kv(ps: Seq<KvPairView>) -> Result<(u64, Seq<char>, Option<Seq<char>>), Seq<char>> {
    match find_value(ps, key_offset()) {
        None => Err(msg_require_offset()),
        Some(offset) => match find_value(ps, key_name()) {
            None => Err(msg_require_name()),
            Some(name) => match find_value(ps, key_description()) {
                Some(d) if d.string() is None => Err(msg_description()),
                d => Ok(
                    (
                        offset.number().unwrap(),
                        name.string().unwrap(),
                        match d {
                            Some(d) => d.string(),
                            None => None,
                        },
                    ),
                ),
            },
        },
    }
}

/// Whether lowering a register annotation with these pairs stops the
/// program: offset and name are there and the description is well typed,
/// but the offset is not a single number or the name is not a bare word.
pub open spec fn spec_register_kv_panics(ps: Seq<KvPairView>) -> bool {
    spec_register_from_kv(ps) is Ok && (find_value(ps, key_offset()).unwrap().number() is None
        || find_value(ps, key_name()).unwrap().string() is None)
}

impl Register {
    pub fn new(offset: u64, name: String, description: Option<String>, fields: Vec<FieldId>) -> (r: Self)
        ensures
            r@ == (RegisterView {
                offset,
                name: name@,
                description: opt_string_view(description),
                fields: fields@,
            }),
    {
        Self { offset, name, description, fields }
    }

    /// The register that a register annotation's pairs describe, with no
    /// fields yet.
    pub fn from_kv_values(values: &[KvPair], line: usize, file: FileId) -> (r: Result<Self, LoweringError>)
        requires
            !spec_register_kv_panics(pairs_view(values@)),
        ensures
            match r {
                Ok(reg) => spec_register_from_kv(pairs_view(values@)) == Ok::<(u64, Seq<char>, Option<Seq<char>>), Seq<char>>(
                    (reg@.offset, reg@.name, reg@.description),
                ) && reg@.fields.len() == 0,
                Err(e) => spec_register_from_kv(pairs_view(values@)) == Err::<(u64, Seq<char>, Option<Seq<char>>), Seq<char>>(e.message@)
                    && e.line == line && e.file == file,
            },
    {
        let offset = require(
            values,
            &key_offset_string(),
            LoweringError::new(String::from_str("Require an offset key."), line, file),
        )?;
        let name = require(
            values,
            &key_name_string(),
            LoweringError::new(String::from_str("Require a name key."), line, file),
        )?;
        let description = match allow(values, &key_description_string()) {
            Some(v) => match v.as_string() {
                Some(s) => Some(s.clone()),
                None => {
                    return Err(LoweringError::new(String::from_str("description must be a string value."), line, file));
                },
            },
            None => None,
        };
        let offset = match offset.as_u64() {
            Some(n) => n,
            None => {
                assert(false);
                0
            },
        };
        let name = match name.as_string() {
            Some(s) => s.clone(),
            None => {
                assert(false);
                String::new()
            },
        };
        Ok(Register { offset, name, description, fields: Vec::new() })
    }

    pub fn add_field(&mut self, field_id: FieldId)
        ensures
            final(self)@ == (RegisterView { fields: old(self)@.fields.push(field_id), ..old(self)@ }),
    {
        self.fields.push(field_id);
    }

    pub fn get_fields(&self) -> (r: &[FieldId])
        ensures
            r@ == self@.fields,
    {
        self.fields.as_slice()
    }

    pub fn get_name(&self) -> (r: &String)
        ensures
            r@ == self@.name,
    {
        &self.name
    }

    pub fn get_offset(&self) -> (r: u64)
        ensures
            r == self@.offset,
    {
        self.offset
    }

    pub fn get_description(&self) -> (r: &Option<String>)
        ensures
            opt_string_view(*r) == self@.description,
    {
        &self.description
    }
}

// ---------------------------------------------------------------------------
// Fields

/// The value given for `access`, `RO` where there is none.
pub open spec fn access_or_default(ps: Seq<KvPairView>) -> ValueView {
    match find_value(ps, key_access()) {
        Some(v) => v,
        None => ValueView::Access(Access::RO),
    }
}

/// What a field annotation's pairs give, or the message of the first
/// missing or ill-typed key.
pub open spec fn spec_field_from_kv(ps: Seq<KvPairView>) -> Result<FieldView, Seq<char>> {
    match find_value(ps, key_name()) {
        None => Err(msg_field_name()),
        Some(name) => match find_value(ps, key_bits()) {
            None => Err(msg_field_bits()),
            Some(bits) => match find_value(ps, key_description()) {
                Some(d) if d.string() is None => Err(msg_description()),
                d => match find_value(ps, key_enum()) {
                    Some(e) if e.strings() is None => Err(msg_enum()),
                    e => Ok(
                        FieldView {
                            name: name.string().unwrap(),
                            bits: bits.bit_range().unwrap(),
                            access: access_or_default(ps).access().unwrap(),
                            description: match d {
                                Some(d) => d.string(),
                                None => None,
                            },
                            enum_values: match e {
                                Some(e) => e.strings(),
                                None => None,
                            },
                        },
                    ),
                },
            },
        },
    }
}

/// Whether lowering a field annotation with these pairs stops the program:
/// the required keys are there and well typed where checked, but the access
/// is not an access mode, the bits not a bit range or the name not a bare word.
pub open spec fn spec_field_kv_panics(ps: Seq<KvPairView>) -> bool {
    spec_field_from_kv(ps) is Ok && (access_or_default(ps).access() is None
        || find_value(ps, key_bits()).unwrap().bit_range() is None
        || find_value(ps, key_name()).unwrap().string() is None)
}

/// What the program says when lowering a register annotation with these
/// pairs stops it: the offset is checked before the name.
pub open spec fn spec_register_stop_message(ps: Seq<KvPairView>) -> Seq<char> {
    if find_value(ps, key_offset()).unwrap().number() is None {
        "Expecting offset to be of number value."@
    } else {
        "Expecting name to be a bare value."@
    }
}

/// What the program says when lowering a field annotation with these pairs
/// stops it: the access is checked first, then the bits, then the name.
pub open spec fn spec_field_stop_message(ps: Seq<KvPairView>) -> Seq<char> {
    if access_or_default(ps).access() is None {
        "Access must be either RO, RW or WO. If absent it is replaced by RO per default"@
    } else if find_value(ps, key_bits()).unwrap().bit_range() is None {
        "Expecting a bit range."@
    } else {
        "Expecting a name."@
    }
}

/// The message of [`spec_register_stop_message`].
pub fn register_stop_message(values: &[KvPair]) -> (s: String)
    requires
        spec_register_kv_panics(pairs_view(values@)),
    ensures
        s@ == spec_register_stop_message(pairs_view(values@)),
{
    let offset_ok = match allow(values, &key_offset_string()) {
        Some(o) => o.as_u64().is_some(),
        None => true,
    };
    if offset_ok {
        String::from_str("Expecting name to be a bare value.")
    } else {
        String::from_str("Expecting offset to be of number value.")
    }
}

/// The message of [`spec_field_stop_message`].
pub fn field_stop_message(values: &[KvPair]) -> (s: String)
    requires
        spec_field_kv_panics(pairs_view(values@)),
    ensures
        s@ == spec_field_stop_message(pairs_view(values@)),
{
    let access_ok = match allow(values, &key_access_string()) {
        Some(a) => a.as_access().is_some(),
        None => true,
    };
    let bits_ok = match allow(values, &key_bits_string()) {
        Some(b) => b.as_bit_range().is_some(),
        None => true,
    };
    if !access_ok {
        String::from_str("Access must be either RO, RW or WO. If absent it is replaced by RO per default")
    } else if !bits_ok {
        String::from_str("Expecting a bit range.")
    } else {
        String::from_str("Expecting a name.")
    }
}

/// Whether lowering a register annotation with these pairs stops the
/// program, as [`spec_register_kv_panics`] states.
pub fn register_kv_panics(values: &[KvPair]) -> (b: bool)
    ensures
        b == spec_register_kv_panics(pairs_view(values@)),
{
    let offset = allow(values, &key_offset_string());
    let name = allow(values, &key_name_string());
    let description = allow(values, &key_description_string());
    let description_ok = match description {
        Some(d) => d.as_string().is_some(),
        None => true,
    };
    match (offset, name) {
        (Some(o), Some(n)) => description_ok && (o.as_u64().is_none() || n.as_string().is_none()),
        _ => false,
    }
}

/// Whether lowering a field annotation with these pairs stops the program,
/// as [`spec_field_kv_panics`] states.
pub fn field_kv_panics(values: &[KvPair]) -> (b: bool)
    ensures
        b == spec_field_kv_panics(pairs_view(values@)),
{
    let name = allow(values, &key_name_string());
    let bits = allow(values, &key_bits_string());
    let access = allow(values, &key_access_string());
    let description = allow(values, &key_description_string());
    let enum_values = allow(values, &key_enum_string());
    let description_ok = match description {
        Some(d) => d.as_string().is_some(),
        None => true,
    };
    let enum_ok = match enum_values {
        Some(e) => e.as_vec_string().is_some(),
        None => true,
    };
    let access_ok = match access {
        Some(a) => a.as_access().is_some(),
        None => true,
    };
    match (name, bits) {
        (Some(n), Some(b)) => description_ok && enum_ok && (!access_ok || b.as_bit_range().is_none()
            || n.as_string().is_none()),
        _ => false,
    }
}

fn clone_strings(v: &Vec<String>) -> (r: Vec<String>)
    ensures
        strings_view(r@) == strings_view(v@),
{
    let mut out: Vec<String> = Vec::new();
    let mut i: usize = 0;
    while i < v.len()
        invariant
            i <= v@.len(),
            strings_view(out@) == strings_view(v@).take(i as int),
        decreases v@.len() - i,
    {
        let ghost before = strings_view(out@);
        out.push(v[i].clone());
        assert(strings_view(out@) =~= before.push(v@[i as int]@));
        i = i + 1;
        assert(strings_view(v@).take(i as int) =~= strings_view(v@).take(i - 1).push(v@[i - 1]@));
    }
    assert(strings_view(v@).take(v@.len() as int) =~= strings_view(v@));
    out
}

impl Field {
    /// The field that a field annotation's pairs describe.
    pub fn from_kv_values(values: &[KvPair], line: usize, file: FileId) -> (r: Result<Self, LoweringError>)
        requires
            !spec_field_kv_panics(pairs_view(values@)),
        ensures
            match r {
                Ok(f) => spec_field_from_kv(pairs_view(values@)) == Ok::<FieldView, Seq<char>>(f@),
                Err(e) => spec_field_from_kv(pairs_view(values@)) == Err::<FieldView, Seq<char>>(e.message@)
                    && e.line == line && e.file == file,
            },
    {
        let name = require(
            values,
            &key_name_string(),
            LoweringError::new(String::from_str("Fields require a name."), line, file),
        )?;
        let bits = require(
            values,
            &key_bits_string(),
            LoweringError::new(String::from_str("Fields require a bits declaration."), line, file),
        )?;
        let access = match allow(values, &key_access_string()) {
            Some(v) => v.as_access(),
            None => Some(Access::RO),
        };
        let description = match allow(values, &key_description_string()) {
            Some(v) => match v.as_string() {
                Some(s) => Some(s.clone()),
                None => {
                    return Err(LoweringError::new(String::from_str("description must be a string value."), line, file));
                },
            },
            None => None,
        };
        let enum_values = match allow(values, &key_enum_string()) {
            Some(v) => match v.as_vec_string() {
                Some(vs) => Some(clone_strings(vs)),
                None => {
                    return Err(LoweringError::new(String::from_str("enum must be a quoted list of strings"), line, file));
                },
            },
            None => None,
        };
        let access = match access {
            Some(a) => a,
            None => {
                assert(false);
                Access::RO
            },
        };
        let bits = match bits.as_bit_range() {
            Some(b) => b,
            None => {
                assert(false);
                BitRange::Single(0)
            },
        };
        let name = match name.as_string() {
            Some(s) => s.clone(),
            None => {
                assert(false);
                String::new()
            },
        };
        Ok(Field { access, bits, description, enum_values, name })
    }

    /// Whether two fields share a bit.
    pub fn bits_overlap(&self, other: &Field) -> (r: bool)
        ensures
            r == spec_bits_overlap(self.bits, other.bits),
    {
        match (self.bits, other.bits) {
            (BitRange::Single(i), BitRange::Single(o)) => i == o,
            (BitRange::Single(i), BitRange::Span(o, v)) => o <= i && i <= v,
            (BitRange::Span(o, v), BitRange::Single(i)) => o <= i && i <= v,
            (BitRange::Span(i, o), BitRange::Span(k, v)) => i <= v && k <= o,
        }
    }
}

/// Whether two bit ranges, taken as inclusive bounds, overlap.
pub open spec fn spec_bits_overlap(a: BitRange, b: BitRange) -> bool {
    match (a, b) {
        (BitRange::Single(i), BitRange::Single(o)) => i == o,
        (BitRange::Single(i), BitRange::Span(o, v)) => o <= i <= v,
        (BitRange::Span(o, v), BitRange::Single(i)) => o <= i <= v,
        (BitRange::Span(i, o), BitRange::Span(k, v)) => i <= v && k <= o,
    }
}

/// Whether bit `n` lies in a bit range.
pub open spec fn bit_in(n: int, b: BitRange) -> bool {
    match b {
        BitRange::Single(i) => n == i,
        BitRange::Span(lo, hi) => lo <= n <= hi,
    }
}

/// Whether a bit range is written low bit first.
pub open spec fn ordered(b: BitRange) -> bool {
    match b {
        BitRange::Single(_) => true,
        BitRange::Span(lo, hi) => lo <= hi,
    }
}

/// Overlap does not depend on which field comes first.
pub proof fn lemma_bits_overlap_symmetric(a: BitRange, b: BitRange)
    ensures
        spec_bits_overlap(a, b) == spec_bits_overlap(b, a),
{
}

/// Two bit ranges written low bit first overlap exactly when some bit lies
/// in both.
pub proof fn lemma_bits_overlap_iff_common_bit(a: BitRange, b: BitRange)
    requires
        ordered(a),
        ordered(b),
    ensures
        spec_bits_overlap(a, b) <==> exists|n: int| bit_in(n, a) && bit_in(n, b),
{
    if spec_bits_overlap(a, b) {
        let n: int = match (a, b) {
            (BitRange::Single(i), _) => i as int,
            (_, BitRange::Single(i)) => i as int,
            (BitRange::Span(i, _), BitRange::Span(k, _)) => if i <= k { k as int } else { i as int },
        };
        assert(bit_in(n, a) && bit_in(n, b));
    }
}

} // verus!
