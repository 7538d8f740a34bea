//! Register descriptions in TOML.
//!
//! A document is a table of registers by name. A register is a table with an
//! integer `offset`, an optional string `description`, and a table per field
//! by name. A field has a string `bits` (`"3"` or `"3:5"`), an optional
//! `access` (`"RW"`, `"RO"` or `"WO"`, `RO` where absent), an optional
//! string `description` and an optional array of strings `enum`.
use vstd::prelude::*;
use indexmap::IndexMap;
use crate::error::TomlError;
use crate::ir::{Field, FieldView, Register, RegisterView, opt_string_view, opt_strings_view};
use crate::kv::{Access, BitRange, all_digits, colon_free_pred, is_digit_of, digit_value, digits_value, fits_u64, is_dec_digit};
use crate::source_map::FileId;
use crate::state::{FieldId, RegId, State, lists_each_once};
use crate::text::{chars_to_string, lemma_run_end, run_end, strings_view};
use crate::toml_doc::{
    TomlField, TomlRegister, TomlValue, deserialize_string, field_entries, field_map_insert, field_map_into_vec, field_map_len, field_map_new,
    read_toml_document, register_entries, register_map_insert, register_map_into_vec, register_map_new,
    string_from_toml, toml_document,
};

verus! {

// ---------------------------------------------------------------------------
// Views

pub struct TomlFieldView {
    pub bits: BitRange,
    pub access: Access,
    pub description: Option<Seq<char>>,
    pub enum_values: Option<Seq<Seq<char>>>,
}

impl View for TomlField {
    type V = TomlFieldView;

    open spec fn view(&self) -> TomlFieldView {
        TomlFieldView {
            bits: self.bits,
            access: self.access,
            description: opt_string_view(self.description),
            enum_values: opt_strings_view(self.enum_values),
        }
    }
}

pub struct TomlRegisterView {
    pub offset: u64,
    pub description: Option<Seq<char>>,
    pub fields: Seq<(Seq<char>, TomlFieldView)>,
}

pub open spec fn field_entries_view(s: Seq<(Seq<char>, TomlField)>) -> Seq<(Seq<char>, TomlFieldView)> {
    s.map_values(|e: (Seq<char>, TomlField)| (e.0, e.1@))
}

impl View for TomlRegister {
    type V = TomlRegisterView;

    open spec fn view(&self) -> TomlRegisterView {
        TomlRegisterView {
            offset: self.offset,
            description: opt_string_view(self.description),
            fields: field_entries_view(field_entries(self.fields)),
        }
    }
}

/// A TOML register description file: registers by name, in order.
#[derive(Debug)]
pub struct TomlFile {
    pub registers: IndexMap<String, TomlRegister>,
}

pub open spec fn register_entries_view(s: Seq<(Seq<char>, TomlRegister)>) -> Seq<(Seq<char>, TomlRegisterView)> {
    s.map_values(|e: (Seq<char>, TomlRegister)| (e.0, e.1@))
}

impl View for TomlFile {
    type V = Seq<(Seq<char>, TomlRegisterView)>;

    open spec fn view(&self) -> Seq<(Seq<char>, TomlRegisterView)> {
        register_entries_view(register_entries(self.registers))
    }
}

// ---------------------------------------------------------------------------
// Ordered insertion on views

/// The first position from `i` on whose key is `k`, or -1.
pub open spec fn first_key_from<V>(s: Seq<(Seq<char>, V)>, k: Seq<char>, i: int) -> int
    decreases s.len() - i,
{
    if i < 0 || i >= s.len() {
        -1
    } else if s[i].0 == k {
        i
    } else {
        first_key_from(s, k, i + 1)
    }
}

/// Inserting into entries whose keys are distinct: a present key keeps its
/// place and takes the new value; a new key goes last.
pub open spec fn insert_entry<V>(s: Seq<(Seq<char>, V)>, k: Seq<char>, v: V) -> Seq<(Seq<char>, V)> {
    let i = first_key_from(s, k, 0);
    if i >= 0 {
        s.update(i, (k, v))
    } else {
        s.push((k, v))
    }
}

proof fn lemma_first_key_from<V>(s: Seq<(Seq<char>, V)>, k: Seq<char>, i: int)
    requires
        0 <= i,
    ensures
        first_key_from(s, k, i) == -1 ==> forall|j: int| i <= j < s.len() ==> (#[trigger] s[j]).0 != k,
        first_key_from(s, k, i) != -1 ==> i <= first_key_from(s, k, i) < s.len() && s[first_key_from(s, k, i)].0 == k
            && forall|j: int| i <= j < first_key_from(s, k, i) ==> (#[trigger] s[j]).0 != k,
    decreases s.len() - i,
{
    if i < s.len() && s[i].0 != k {
        lemma_first_key_from(s, k, i + 1);
    }
}

/// Inserting into a map's entries, whose keys are distinct, is
/// [`insert_entry`], and keeps the keys distinct.
proof fn lemma_entries_insert<V>(s: Seq<(Seq<char>, V)>, k: Seq<char>, v: V)
    requires
        crate::toml_doc::keys_unique(s),
    ensures
        crate::toml_doc::entries_insert(s, k, v) == insert_entry(s, k, v),
        crate::toml_doc::keys_unique(insert_entry(s, k, v)),
{
    lemma_first_key_from(s, k, 0);
    let i = first_key_from(s, k, 0);
    if exists|j: int| 0 <= j < s.len() && (#[trigger] s[j]).0 == k {
        let j = choose|j: int| 0 <= j < s.len() && (#[trigger] s[j]).0 == k;
        assert(i >= 0);
        if j != i {
            if j < i {
                assert(s[j].0 != k);
            } else {
                assert(s[i].0 != s[j].0);
            }
        }
    }
    let w = insert_entry(s, k, v);
    assert forall|a: int, b: int| 0 <= a < b < w.len() implies (#[trigger] w[a]).0 != (#[trigger] w[b]).0 by {
        if i >= 0 {
            if a != i && b != i {
                assert(s[a].0 != s[b].0);
            } else if a == i {
                assert(s[a].0 != s[b].0);
            } else {
                assert(s[a].0 != s[b].0);
            }
        } else {
            if b == s.len() {
                assert(s[a].0 != k);
            } else {
                assert(s[a].0 != s[b].0);
            }
        }
    }
}

proof fn lemma_insert_entry_view(s: Seq<(Seq<char>, TomlField)>, k: Seq<char>, v: TomlField)
    ensures
        field_entries_view(insert_entry(s, k, v)) == insert_entry(field_entries_view(s), k, v@),
{
    lemma_first_key_view(s, k, 0);
    let i = first_key_from(s, k, 0);
    let l = field_entries_view(insert_entry(s, k, v));
    let r = insert_entry(field_entries_view(s), k, v@);
    if i >= 0 {
        lemma_first_key_from(s, k, 0);
        assert(l.len() == r.len());
        assert forall|j: int| 0 <= j < l.len() implies l[j] == r[j] by {
            if j != i {
                assert(l[j] == (s[j].0, s[j].1@));
            }
        }
        assert(l =~= r);
    } else {
        assert(l.len() == r.len());
        assert forall|j: int| 0 <= j < l.len() implies l[j] == r[j] by {
            if j < s.len() {
                assert(l[j] == (s[j].0, s[j].1@));
            }
        }
        assert(l =~= r);
    }
}

proof fn lemma_first_key_view(s: Seq<(Seq<char>, TomlField)>, k: Seq<char>, i: int)
    requires
        0 <= i,
    ensures
        first_key_from(field_entries_view(s), k, i) == first_key_from(s, k, i),
    decreases s.len() - i,
{
    if i < s.len() {
        lemma_first_key_view(s, k, i + 1);
    }
}

proof fn lemma_insert_register_view(s: Seq<(Seq<char>, TomlRegister)>, k: Seq<char>, v: TomlRegister)
    ensures
        register_entries_view(insert_entry(s, k, v)) == insert_entry(register_entries_view(s), k, v@),
{
    lemma_first_register_view(s, k, 0);
    let i = first_key_from(s, k, 0);
    let l = register_entries_view(insert_entry(s, k, v));
    let r = insert_entry(register_entries_view(s), k, v@);
    if i >= 0 {
        lemma_first_key_from(s, k, 0);
        assert(l.len() == r.len());
        assert forall|j: int| 0 <= j < l.len() implies l[j] == r[j] by {
            if j != i {
                assert(l[j] == (s[j].0, s[j].1@));
            }
        }
        assert(l =~= r);
    } else {
        assert(l.len() == r.len());
        assert forall|j: int| 0 <= j < l.len() implies l[j] == r[j] by {
            if j < s.len() {
                assert(l[j] == (s[j].0, s[j].1@));
            }
        }
        assert(l =~= r);
    }
}

proof fn lemma_first_register_view(s: Seq<(Seq<char>, TomlRegister)>, k: Seq<char>, i: int)
    requires
        0 <= i,
    ensures
        first_key_from(register_entries_view(s), k, i) == first_key_from(s, k, i),
    decreases s.len() - i,
{
    if i < s.len() {
        lemma_first_register_view(s, k, i + 1);
    }
}

// ---------------------------------------------------------------------------
// Reading numbers, bit ranges and access modes

pub open spec fn msg_int_empty() -> Seq<char> {
    "cannot parse integer from empty string\n"@
}

pub open spec fn msg_int_invalid() -> Seq<char> {
    "invalid digit found in string\n"@
}

pub open spec fn msg_int_overflow() -> Seq<char> {
    "number too large to fit in target type\n"@
}

pub open spec fn dec_pred() -> spec_fn(char) -> bool {
    |c: char| is_dec_digit(c)
}

/// What `str::parse::<u64>` gives, with the error's message: an optional
/// `+`, then decimal digits; the first problem from the left decides the
/// error.
pub open spec fn spec_parse_u64(s: Seq<char>) -> Result<u64, Seq<char>> {
    if s.len() == 0 {
        Err(msg_int_empty())
    } else {
        let ds = if s[0] == '+' {
            s.skip(1)
        } else {
            s
        };
        if ds.len() == 0 {
            Err(msg_int_invalid())
        } else {
            let p = run_end(ds, 0, dec_pred());
            if !fits_u64(digits_value(ds.take(p), 10)) {
                Err(msg_int_overflow())
            } else if p < ds.len() {
                Err(msg_int_invalid())
            } else {
                Ok(digits_value(ds, 10) as u64)
            }
        }
    }
}

/// A bit range as a TOML string holds it: `"n"` or `"lo:hi"`, split at the
/// first `:`.
pub open spec fn spec_bits_from_str(s: Seq<char>) -> Result<BitRange, Seq<char>> {
    let c = run_end(s, 0, colon_free_pred());
    if c >= s.len() {
        match spec_parse_u64(s) {
            Ok(n) => Ok(BitRange::Single(n)),
            Err(m) => Err(m),
        }
    } else {
        match spec_parse_u64(s.take(c)) {
            Err(m) => Err(m),
            Ok(lo) => match spec_parse_u64(s.skip(c + 1)) {
                Err(m) => Err(m),
                Ok(hi) => Ok(BitRange::Span(lo, hi)),
            },
        }
    }
}

// ---------------------------------------------------------------------------
// Numbers as text

pub open spec fn digit_char(d: int) -> char {
    if d == 0 {
        '0'
    } else if d == 1 {
        '1'
    } else if d == 2 {
        '2'
    } else if d == 3 {
        '3'
    } else if d == 4 {
        '4'
    } else if d == 5 {
        '5'
    } else if d == 6 {
        '6'
    } else if d == 7 {
        '7'
    } else if d == 8 {
        '8'
    } else {
        '9'
    }
}

/// The decimal digits of `n`, without leading zeros.
pub open spec fn nat_text(n: nat) -> Seq<char>
    decreases n,
{
    if n < 10 {
        seq![digit_char(n as int)]
    } else {
        nat_text(n / 10) + seq![digit_char((n % 10) as int)]
    }
}

/// A bit range as a TOML value holds it: the string that serde reads from
/// the value (see [`string_from_toml`]), read by [`spec_bits_from_str`];
/// where serde reads no string, its error.
pub open spec fn spec_bits_from_toml(v: TomlValue) -> Result<BitRange, Seq<char>> {
    match string_from_toml(v) {
        Ok(s) => spec_bits_from_str(s),
        Err(m) => Err(m),
    }
}

/// The access mode a name stands for.
pub open spec fn access_named(s: Seq<char>) -> Option<Access> {
    if s == seq!['R', 'W'] {
        Some(Access::RW)
    } else if s == seq!['R', 'O'] {
        Some(Access::RO)
    } else if s == seq!['W', 'O'] {
        Some(Access::WO)
    } else {
        None
    }
}

pub open spec fn unknown_variant_message(s: Seq<char>) -> Seq<char> {
    "unknown variant `"@ + s + "`, expected one of `RW`, `RO`, `WO`\n"@
}

/// The name of a value's kind.
pub open spec fn kind_name(v: TomlValue) -> Seq<char> {
    match v {
        TomlValue::String(_) => "string"@,
        TomlValue::Integer(_) => "integer"@,
        TomlValue::Float(_) => "float"@,
        TomlValue::Boolean(_) => "boolean"@,
        TomlValue::Datetime(_) => "datetime"@,
        TomlValue::Array(_) => "array"@,
        TomlValue::Table(_) => "table"@,
    }
}

/// An access mode as a TOML value holds it: its name as a string, or a
/// table of one entry whose key is its name and whose value is an empty
/// array or table.
pub open spec fn spec_access_from_toml(v: TomlValue) -> Result<Access, Seq<char>> {
    match v {
        TomlValue::String(s) => match access_named(s@) {
            Some(a) => Ok(a),
            None => Err(unknown_variant_message(s@)),
        },
        TomlValue::Table(t) => if t@.len() == 0 {
            Err("wanted exactly 1 element, found 0 elements\n"@)
        } else if t@.len() > 1 {
            Err("wanted exactly 1 element, more than 1 element\n"@)
        } else {
            match access_named(t@[0].0@) {
                None => Err(unknown_variant_message(t@[0].0@)),
                Some(a) => match t@[0].1 {
                    TomlValue::Array(x) => if x@.len() == 0 {
                        Ok(a)
                    } else {
                        Err("expected empty array\n"@)
                    },
                    TomlValue::Table(x) => if x@.len() == 0 {
                        Ok(a)
                    } else {
                        Err("expected empty table\n"@)
                    },
                    other => Err("expected table, found "@ + kind_name(other) + "\n"@),
                },
            }
        },
        _ => Err("invalid type: unit variant, expected string only\n"@),
    }
}

fn message(lit: &str) -> (r: String)
    ensures
        r@ == lit@,
{
    String::from_str(lit)
}

fn digits_value_dec(t: &[char], a: usize, b: usize) -> (r: Option<u64>)
    requires
        a <= b <= t@.len(),
    ensures
        match r {
            Some(v) => v == digits_value(t@.subrange(a as int, b as int), 10),
            None => !fits_u64(digits_value(t@.subrange(a as int, b as int), 10)),
        },
{
    let mut acc: u64 = 0;
    let mut i: usize = a;
    assert(t@.subrange(a as int, a as int) =~= Seq::<char>::empty());
    while i < b
        invariant
            a <= i <= b <= t@.len(),
            acc == digits_value(t@.subrange(a as int, i as int), 10),
        decreases b - i,
    {
        let ghost next = t@.subrange(a as int, i + 1);
        assert(next.drop_last() =~= t@.subrange(a as int, i as int));
        assert(next.last() == t@[i as int]);
        assert(t@.subrange(a as int, b as int).take(i + 1 - a) =~= next);
        let c = t[i];
        let d: u64 = if '0' <= c && c <= '9' {
            (c as u32 - '0' as u32) as u64
        } else if 'a' <= c && c <= 'f' {
            (c as u32 - 'a' as u32 + 10) as u64
        } else if 'A' <= c && c <= 'F' {
            (c as u32 - 'A' as u32 + 10) as u64
        } else {
            0
        };
        proof {
            crate::kv::lemma_digits_value_prefix(t@.subrange(a as int, b as int), i + 1 - a, 10);
        }
        match acc.checked_mul(10) {
            None => {
                return None;
            },
            Some(m) => match m.checked_add(d) {
                None => {
                    return None;
                },
                Some(n) => {
                    acc = n;
                },
            },
        }
        i = i + 1;
    }
    Some(acc)
}

/// Reads a `u64` from `t[a..b]`, as [`spec_parse_u64`] states.
fn parse_u64_in(t: &[char], a: usize, b: usize) -> (r: Result<u64, String>)
    requires
        a <= b <= t@.len(),
    ensures
        match r {
            Ok(n) => spec_parse_u64(t@.subrange(a as int, b as int)) == Ok::<u64, Seq<char>>(n),
            Err(m) => spec_parse_u64(t@.subrange(a as int, b as int)) == Err::<u64, Seq<char>>(m@),
        },
{
    let ghost s = t@.subrange(a as int, b as int);
    if a == b {
        return Err(message("cannot parse integer from empty string\n"));
    }
    let start = if t[a] == '+' {
        a + 1
    } else {
        a
    };
    let ghost ds = t@.subrange(start as int, b as int);
    assert(ds =~= if s[0] == '+' {
        s.skip(1)
    } else {
        s
    });
    if start == b {
        return Err(message("invalid digit found in string\n"));
    }
    let mut p: usize = start;
    while p < b && '0' <= t[p] && t[p] <= '9'
        invariant
            start <= p <= b <= t@.len(),
            ds == t@.subrange(start as int, b as int),
            run_end(ds, (p - start) as int, dec_pred()) == run_end(ds, 0, dec_pred()),
        decreases b - p,
    {
        p = p + 1;
    }
    let ghost q = (p - start) as int;
    assert(ds.take(q) =~= t@.subrange(start as int, p as int));
    match digits_value_dec(t, start, p) {
        None => Err(message("number too large to fit in target type\n")),
        Some(v) => {
            if p < b {
                Err(message("invalid digit found in string\n"))
            } else {
                assert(ds.take(q) =~= ds);
                Ok(v)
            }
        },
    }
}

/// Reads a bit range from a string, as [`spec_bits_from_str`] states.
pub fn bits_from_str(s: &String) -> (r: Result<BitRange, String>)
    ensures
        match r {
            Ok(b) => spec_bits_from_str(s@) == Ok::<BitRange, Seq<char>>(b),
            Err(m) => spec_bits_from_str(s@) == Err::<BitRange, Seq<char>>(m@),
        },
{
    let chars = crate::text::str_to_chars(s.as_str());
    let t = chars.as_slice();
    let n = t.len();
    let mut c: usize = 0;
    while c < n && t[c] != ':'
        invariant
            c <= n == t@.len(),
            t@ == s@,
            run_end(t@, c as int, colon_free_pred()) == run_end(t@, 0, colon_free_pred()),
        decreases n - c,
    {
        c = c + 1;
    }
    if c >= n {
        assert(t@.subrange(0, n as int) =~= t@);
        match parse_u64_in(t, 0, n) {
            Ok(v) => Ok(BitRange::Single(v)),
            Err(m) => Err(m),
        }
    } else {
        assert(t@.subrange(0, c as int) =~= t@.take(c as int));
        assert(t@.subrange(c + 1, n as int) =~= t@.skip(c + 1));
        match parse_u64_in(t, 0, c) {
            Err(m) => Err(m),
            Ok(lo) => match parse_u64_in(t, c + 1, n) {
                Err(m) => Err(m),
                Ok(hi) => Ok(BitRange::Span(lo, hi)),
            },
        }
    }
}

/// Reads a bit range from a TOML value, as [`spec_bits_from_toml`] states.
pub fn bits_from_toml(v: &TomlValue) -> (r: Result<BitRange, String>)
    ensures
        match r {
            Ok(b) => spec_bits_from_toml(*v) == Ok::<BitRange, Seq<char>>(b),
            Err(m) => spec_bits_from_toml(*v) == Err::<BitRange, Seq<char>>(m@),
        },
{
    match deserialize_string(v) {
        Ok(s) => bits_from_str(&s),
        Err(m) => Err(m),
    }
}

fn access_named_exec(s: &String) -> (r: Option<Access>)
    ensures
        r == access_named(s@),
{
    let rw = message("RW");
    let ro = message("RO");
    let wo = message("WO");
    proof {
        reveal_strlit("RW");
        reveal_strlit("RO");
        reveal_strlit("WO");
    }
    assert(rw@ =~= seq!['R', 'W']);
    assert(ro@ =~= seq!['R', 'O']);
    assert(wo@ =~= seq!['W', 'O']);
    if *s == rw {
        Some(Access::RW)
    } else if *s == ro {
        Some(Access::RO)
    } else if *s == wo {
        Some(Access::WO)
    } else {
        None
    }
}

fn unknown_variant(s: &String) -> (r: String)
    ensures
        r@ == unknown_variant_message(s@),
{
    let mut m = message("unknown variant `");
    m.append(s.as_str());
    m.append("`, expected one of `RW`, `RO`, `WO`\n");
    m
}

fn kind_name_exec(v: &TomlValue) -> (r: String)
    ensures
        r@ == kind_name(*v),
{
    match v {
        TomlValue::String(_) => message("string"),
        TomlValue::Integer(_) => message("integer"),
        TomlValue::Float(_) => message("float"),
        TomlValue::Boolean(_) => message("boolean"),
        TomlValue::Datetime(_) => message("datetime"),
        TomlValue::Array(_) => message("array"),
        TomlValue::Table(_) => message("table"),
    }
}

/// Reads an access mode from a TOML value, as [`spec_access_from_toml`]
/// states.
pub fn access_from_toml(v: &TomlValue) -> (r: Result<Access, String>)
    ensures
        match r {
            Ok(a) => spec_access_from_toml(*v) == Ok::<Access, Seq<char>>(a),
            Err(m) => spec_access_from_toml(*v) == Err::<Access, Seq<char>>(m@),
        },
{
    match v {
        TomlValue::String(s) => match access_named_exec(s) {
            Some(a) => Ok(a),
            None => Err(unknown_variant(s)),
        },
        TomlValue::Table(t) => {
            if t.len() == 0 {
                Err(message("wanted exactly 1 element, found 0 elements\n"))
            } else if t.len() > 1 {
                Err(message("wanted exactly 1 element, more than 1 element\n"))
            } else {
                let entry = &t[0];
                match access_named_exec(&entry.0) {
                    None => Err(unknown_variant(&entry.0)),
                    Some(a) => match &entry.1 {
                        TomlValue::Array(x) => if x.len() == 0 {
                            Ok(a)
                        } else {
                            Err(message("expected empty array\n"))
                        },
                        TomlValue::Table(x) => if x.len() == 0 {
                            Ok(a)
                        } else {
                            Err(message("expected empty table\n"))
                        },
                        other => {
                            let mut m = message("expected table, found ");
                            let k = kind_name_exec(other);
                            m.append(k.as_str());
                            m.append("\n");
                            Err(m)
                        },
                    },
                }
            }
        },
        _ => Err(message("invalid type: unit variant, expected string only\n")),
    }
}


// ---------------------------------------------------------------------------
// Fields, registers and files

/// The value under key `k` in table entries, from position `i` on.
pub open spec fn table_lookup_from(t: Seq<(String, TomlValue)>, k: Seq<char>, i: int) -> Option<TomlValue>
    decreases t.len() - i,
{
    if i < 0 || i >= t.len() {
        None
    } else if t[i].0@ == k {
        Some(t[i].1)
    } else {
        table_lookup_from(t, k, i + 1)
    }
}

/// The value under key `k` in table entries.
pub open spec fn table_lookup(t: Seq<(String, TomlValue)>, k: Seq<char>) -> Option<TomlValue> {
    table_lookup_from(t, k, 0)
}

/// The value under a key of a table, if any.
fn find_entry<'a>(t: &'a [(String, TomlValue)], k: &String) -> (r: Option<&'a TomlValue>)
    ensures
        match r {
            Some(v) => table_lookup(t@, k@) == Some(*v),
            None => table_lookup(t@, k@) is None,
        },
{
    let mut i: usize = 0;
    while i < t.len()
        invariant
            i <= t@.len(),
            table_lookup_from(t@, k@, i as int) == table_lookup(t@, k@),
        decreases t@.len() - i,
    {
        if t[i].0 == *k {
            return Some(&t[i].1);
        }
        i = i + 1;
    }
    None
}

pub open spec fn msg_missing_bits() -> Seq<char> {
    "field is missing required member 'bits'"@
}

pub open spec fn msg_description_string() -> Seq<char> {
    "description member must be a string"@
}

pub open spec fn msg_enum_strings() -> Seq<char> {
    "enum values must be strings"@
}

pub open spec fn msg_enum_array() -> Seq<char> {
    "enum values must be an array"@
}

pub open spec fn msg_field_table() -> Seq<char> {
    "Expected a value table."@
}

/// A field's optional description: a string, or absent.
pub open spec fn spec_field_description(o: Option<TomlValue>) -> Result<Option<Seq<char>>, Seq<char>> {
    match o {
        None => Ok(None),
        Some(TomlValue::String(s)) => Ok(Some(s@)),
        Some(_) => Err(msg_description_string()),
    }
}

pub open spec fn string_text(v: TomlValue) -> Seq<char> {
    match v {
        TomlValue::String(s) => s@,
        _ => Seq::empty(),
    }
}

pub open spec fn all_strings(s: Seq<TomlValue>) -> bool {
    forall|i: int| 0 <= i < s.len() ==> (#[trigger] s[i] matches TomlValue::String(_))
}

/// A field's optional enum values: an array of strings, or absent.
pub open spec fn spec_field_enum(o: Option<TomlValue>) -> Result<Option<Seq<Seq<char>>>, Seq<char>> {
    match o {
        None => Ok(None),
        Some(TomlValue::Array(a)) => if all_strings(a@) {
            Ok(Some(a@.map_values(|x: TomlValue| string_text(x))))
        } else {
            Err(msg_enum_strings())
        },
        Some(_) => Err(msg_enum_array()),
    }
}

/// What a TOML value reads as a field: a table with `bits`, and optional
/// `access` (`RO` where absent), `description` and `enum`; the first problem
/// in that order is the error.
pub open spec fn spec_toml_field(v: TomlValue) -> Result<TomlFieldView, Seq<char>> {
    match v {
        TomlValue::Table(t) => match table_lookup(t@, crate::ir::key_bits()) {
            None => Err(msg_missing_bits()),
            Some(bv) => match spec_bits_from_toml(bv) {
                Err(m) => Err(m),
                Ok(bits) => match (match table_lookup(t@, crate::ir::key_access()) {
                    Some(a) => spec_access_from_toml(a),
                    None => Ok(Access::RO),
                }) {
                    Err(m) => Err(m),
                    Ok(access) => match spec_field_description(table_lookup(t@, crate::ir::key_description())) {
                        Err(m) => Err(m),
                        Ok(description) => match spec_field_enum(table_lookup(t@, crate::ir::key_enum())) {
                            Err(m) => Err(m),
                            Ok(enum_values) => Ok(TomlFieldView { bits, access, description, enum_values }),
                        },
                    },
                },
            },
        },
        _ => Err(msg_field_table()),
    }
}

/// A field read from a table keeps every member the table gives: its bits
/// and access as read from `bits` and `access` (`RO` where absent), the
/// string under `description` as its description, and the strings of the
/// array under `enum` as its enum values; where a member is absent, so is
/// the field's.
pub proof fn lemma_toml_field_keeps_members(t: Vec<(String, TomlValue)>)
    requires
        spec_toml_field(TomlValue::Table(t)) is Ok,
    ensures
        ({
            let f = spec_toml_field(TomlValue::Table(t))->Ok_0;
            &&& table_lookup(t@, crate::ir::key_bits()) matches Some(b) && spec_bits_from_toml(b) == Ok::<BitRange, Seq<char>>(f.bits)
            &&& match table_lookup(t@, crate::ir::key_access()) {
                Some(a) => spec_access_from_toml(a) == Ok::<Access, Seq<char>>(f.access),
                None => f.access == Access::RO,
            }
            &&& match table_lookup(t@, crate::ir::key_description()) {
                Some(TomlValue::String(s)) => f.description == Some(s@),
                _ => f.description is None,
            }
            &&& match table_lookup(t@, crate::ir::key_enum()) {
                Some(TomlValue::Array(a)) => f.enum_values == Some(a@.map_values(|x: TomlValue| string_text(x))),
                _ => f.enum_values is None,
            }
        }),
{
}

fn enum_strings(a: &[TomlValue]) -> (r: Option<Vec<String>>)
    ensures
        match r {
            Some(v) => all_strings(a@) && strings_view(v@) == a@.map_values(|x: TomlValue| string_text(x)),
            None => !all_strings(a@),
        },
{
    let mut out: Vec<String> = Vec::new();
    let mut i: usize = 0;
    while i < a.len()
        invariant
            i <= a@.len(),
            forall|j: int| 0 <= j < i ==> (#[trigger] a@[j] matches TomlValue::String(_)),
            strings_view(out@) == a@.take(i as int).map_values(|x: TomlValue| string_text(x)),
        decreases a@.len() - i,
    {
        match &a[i] {
            TomlValue::String(s) => {
                let ghost before = out@;
                out.push(s.clone());
                proof {
                    let want = a@.take(i + 1).map_values(|x: TomlValue| string_text(x));
                    let had = a@.take(i as int).map_values(|x: TomlValue| string_text(x));
                    assert(string_text(a@[i as int]) == s@);
                    assert(strings_view(before).len() == before.len());
                    assert(had.len() == i);
                    assert(out@.len() == before.len() + 1);
                    assert(strings_view(out@).len() == out@.len());
                    assert(strings_view(out@).len() == want.len());
                    assert forall|j: int| 0 <= j < want.len() implies strings_view(out@)[j] == want[j] by {
                        if j < i {
                            assert(strings_view(before)[j] == had[j]);
                        }
                    }
                    assert(strings_view(out@) =~= want);
                }
            },
            _ => {
                return None;
            },
        }
        i = i + 1;
    }
    assert(a@.take(i as int) =~= a@);
    Some(out)
}

fn toml_error(lit: &str) -> (r: TomlError)
    ensures
        r.message@ == lit@,
        r.span is None,
        r.file is None,
{
    TomlError::msg(message(lit))
}

impl TomlField {
    /// Reads a field from a TOML value, as [`spec_toml_field`] states.
    pub fn try_from(v: &TomlValue) -> (r: Result<TomlField, TomlError>)
        ensures
            match r {
                Ok(f) => spec_toml_field(*v) == Ok::<TomlFieldView, Seq<char>>(f@),
                Err(e) => spec_toml_field(*v) == Err::<TomlFieldView, Seq<char>>(e.message@) && e.span is None
                    && e.file is None,
            },
    {
        match v {
            TomlValue::Table(t) => {
                let tb = t.as_slice();
                let bits_value = match find_entry(tb, &crate::ir::key_bits_string()) {
                    None => {
                        return Err(toml_error("field is missing required member 'bits'"));
                    },
                    Some(b) => b,
                };
                let bits = match bits_from_toml(bits_value) {
                    Ok(b) => b,
                    Err(m) => {
                        return Err(TomlError::msg(m));
                    },
                };
                let access = match find_entry(tb, &crate::ir::key_access_string()) {
                    Some(a) => match access_from_toml(a) {
                        Ok(x) => x,
                        Err(m) => {
                            return Err(TomlError::msg(m));
                        },
                    },
                    None => Access::RO,
                };
                let description = match find_entry(tb, &crate::ir::key_description_string()) {
                    Some(TomlValue::String(s)) => Some(s.clone()),
                    Some(_) => {
                        return Err(toml_error("description member must be a string"));
                    },
                    None => None,
                };
                let enum_values = match find_entry(tb, &crate::ir::key_enum_string()) {
                    Some(TomlValue::Array(arr)) => match enum_strings(arr.as_slice()) {
                        Some(vs) => Some(vs),
                        None => {
                            return Err(toml_error("enum values must be strings"));
                        },
                    },
                    Some(_) => {
                        return Err(toml_error("enum values must be an array"));
                    },
                    None => None,
                };
                Ok(TomlField { bits, access, description, enum_values })
            },
            _ => Err(toml_error("Expected a value table.")),
        }
    }
}

pub open spec fn msg_register_kinds() -> Seq<char> {
    "Register must contain only keys of type Table, String or Integer"@
}

pub open spec fn msg_register_offset() -> Seq<char> {
    "Register requires an offset member"@
}

pub open spec fn msg_register_table() -> Seq<char> {
    "Register must be a table"@
}

pub open spec fn msg_file_tables() -> Seq<char> {
    "latch-rs toml file may only contain top level tables"@
}

/// What a register's entries have given so far.
pub struct RegisterDraft {
    pub offset: Option<u64>,
    pub description: Option<Seq<char>>,
    pub fields: Seq<(Seq<char>, TomlFieldView)>,
}

/// One entry of a register table: a table is a field, the string
/// `description` and the integer `offset` are read (other strings and
/// integers are passed over), and anything else is an error.
pub open spec fn register_step(d: RegisterDraft, k: Seq<char>, v: TomlValue) -> Result<RegisterDraft, Seq<char>> {
    match v {
        TomlValue::Table(_) => match spec_toml_field(v) {
            Err(m) => Err(m),
            Ok(f) => Ok(RegisterDraft { offset: d.offset, description: d.description, fields: insert_entry(d.fields, k, f) }),
        },
        TomlValue::String(s) => if k == crate::ir::key_description() {
            Ok(RegisterDraft { offset: d.offset, description: Some(s@), fields: d.fields })
        } else {
            Ok(d)
        },
        TomlValue::Integer(n) => if k == crate::ir::key_offset() {
            Ok(RegisterDraft { offset: Some(n as u64), description: d.description, fields: d.fields })
        } else {
            Ok(d)
        },
        _ => Err(msg_register_kinds()),
    }
}

/// The draft after the first `n` entries of a register table.
pub open spec fn register_scan(t: Seq<(String, TomlValue)>, n: nat) -> Result<RegisterDraft, Seq<char>>
    decreases n,
{
    if n == 0 {
        Ok(RegisterDraft { offset: None, description: None, fields: Seq::empty() })
    } else {
        match register_scan(t, (n - 1) as nat) {
            Err(m) => Err(m),
            Ok(d) => register_step(d, t[n - 1].0@, t[n - 1].1),
        }
    }
}

/// What a TOML value reads as a register: a table whose entries are read
/// in order by [`register_step`], and which gave an offset.
pub open spec fn spec_toml_register(v: TomlValue) -> Result<TomlRegisterView, Seq<char>> {
    match v {
        TomlValue::Table(t) => match register_scan(t@, t@.len()) {
            Err(m) => Err(m),
            Ok(d) => match d.offset {
                None => Err(msg_register_offset()),
                Some(o) => Ok(TomlRegisterView { offset: o, description: d.description, fields: d.fields }),
            },
        },
        _ => Err(msg_register_table()),
    }
}

/// The registers after the first `n` entries of a document's table.
pub open spec fn file_scan(t: Seq<(String, TomlValue)>, n: nat) -> Result<Seq<(Seq<char>, TomlRegisterView)>, Seq<char>>
    decreases n,
{
    if n == 0 {
        Ok(Seq::empty())
    } else {
        match file_scan(t, (n - 1) as nat) {
            Err(m) => Err(m),
            Ok(rs) => match spec_toml_register(t[n - 1].1) {
                Err(m) => Err(m),
                Ok(r) => Ok(insert_entry(rs, t[n - 1].0@, r)),
            },
        }
    }
}

/// What a TOML document reads as: a table of registers by name, in order.
pub open spec fn spec_toml_file(v: TomlValue) -> Result<Seq<(Seq<char>, TomlRegisterView)>, Seq<char>> {
    match v {
        TomlValue::Table(t) => file_scan(t@, t@.len()),
        _ => Err(msg_file_tables()),
    }
}

/// An error in a register's entries stays the error of the whole table.
proof fn lemma_register_scan_err(t: Seq<(String, TomlValue)>, n: nat, m: nat)
    requires
        n <= m,
        register_scan(t, n) is Err,
    ensures
        register_scan(t, m) == register_scan(t, n),
    decreases m - n,
{
    if n < m {
        lemma_register_scan_err(t, n, (m - 1) as nat);
    }
}

/// An error in a document's registers stays the error of the whole document.
proof fn lemma_file_scan_err(t: Seq<(String, TomlValue)>, n: nat, m: nat)
    requires
        n <= m,
        file_scan(t, n) is Err,
    ensures
        file_scan(t, m) == file_scan(t, n),
    decreases m - n,
{
    if n < m {
        lemma_file_scan_err(t, n, (m - 1) as nat);
    }
}

impl TomlRegister {
    /// Reads a register from a TOML value, as [`spec_toml_register`] states.
    pub fn try_from(v: &TomlValue) -> (r: Result<TomlRegister, TomlError>)
        ensures
            match r {
                Ok(reg) => spec_toml_register(*v) == Ok::<TomlRegisterView, Seq<char>>(reg@),
                Err(e) => spec_toml_register(*v) == Err::<TomlRegisterView, Seq<char>>(e.message@) && e.span is None
                    && e.file is None,
            },
    {
        match v {
            TomlValue::Table(t) => {
                let mut offset: Option<u64> = None;
                let mut description: Option<String> = None;
                let mut fields = field_map_new();
                assert(field_entries_view(field_entries(fields)) =~= Seq::<(Seq<char>, TomlFieldView)>::empty());
                let mut i: usize = 0;
                while i < t.len()
                    invariant
                        i <= t@.len(),
                        *v == TomlValue::Table(*t),
                        crate::toml_doc::keys_unique(field_entries(fields)),
                        register_scan(t@, i as nat) == Ok::<RegisterDraft, Seq<char>>(RegisterDraft {
                            offset,
                            description: opt_string_view(description),
                            fields: field_entries_view(field_entries(fields)),
                        }),
                    decreases t@.len() - i,
                {
                    let entry = &t[i];
                    let ghost draft = RegisterDraft {
                        offset,
                        description: opt_string_view(description),
                        fields: field_entries_view(field_entries(fields)),
                    };
                    assert(register_scan(t@, (i + 1) as nat) == register_step(draft, entry.0@, entry.1));
                    match &entry.1 {
                        TomlValue::Table(_) => match TomlField::try_from(&entry.1) {
                            Ok(f) => {
                                let ghost before = field_entries(fields);
                                proof {
                                    lemma_entries_insert(before, entry.0@, f);
                                    lemma_insert_entry_view(before, entry.0@, f);
                                }
                                field_map_insert(&mut fields, entry.0.clone(), f);
                            },
                            Err(e) => {
                                proof {
                                    lemma_register_scan_err(t@, (i + 1) as nat, t@.len());
                                }
                                return Err(e);
                            },
                        },
                        TomlValue::String(s) => {
                            if entry.0 == crate::ir::key_description_string() {
                                description = Some(s.clone());
                            }
                        },
                        TomlValue::Integer(n) => {
                            if entry.0 == crate::ir::key_offset_string() {
                                offset = Some(#[verifier::truncate] (*n as u64));
                            }
                        },
                        _ => {
                            proof {
                                lemma_register_scan_err(t@, (i + 1) as nat, t@.len());
                            }
                            return Err(toml_error("Register must contain only keys of type Table, String or Integer"));
                        },
                    }
                    i = i + 1;
                }
                match offset {
                    None => Err(toml_error("Register requires an offset member")),
                    Some(o) => Ok(TomlRegister { offset: o, description, fields }),
                }
            },
            _ => Err(toml_error("Register must be a table")),
        }
    }
}

impl TomlFile {
    /// Reads a document's registers, as [`spec_toml_file`] states.
    pub fn try_from(v: &TomlValue) -> (r: Result<TomlFile, TomlError>)
        ensures
            match r {
                Ok(f) => spec_toml_file(*v) == Ok::<Seq<(Seq<char>, TomlRegisterView)>, Seq<char>>(f@)
                    && crate::toml_doc::keys_unique(register_entries(f.registers)),
                Err(e) => spec_toml_file(*v) == Err::<Seq<(Seq<char>, TomlRegisterView)>, Seq<char>>(e.message@)
                    && e.span is None && e.file is None,
            },
    {
        match v {
            TomlValue::Table(t) => {
                let mut registers = register_map_new();
                assert(register_entries_view(register_entries(registers)) =~= Seq::<(Seq<char>, TomlRegisterView)>::empty());
                let mut i: usize = 0;
                while i < t.len()
                    invariant
                        i <= t@.len(),
                        *v == TomlValue::Table(*t),
                        crate::toml_doc::keys_unique(register_entries(registers)),
                        file_scan(t@, i as nat) == Ok::<Seq<(Seq<char>, TomlRegisterView)>, Seq<char>>(
                            register_entries_view(register_entries(registers)),
                        ),
                    decreases t@.len() - i,
                {
                    let entry = &t[i];
                    assert(file_scan(t@, (i + 1) as nat) == match spec_toml_register(entry.1) {
                        Err(m) => Err(m),
                        Ok(r) => Ok(insert_entry(register_entries_view(register_entries(registers)), entry.0@, r)),
                    });
                    match TomlRegister::try_from(&entry.1) {
                        Ok(reg) => {
                            let ghost before = register_entries(registers);
                            proof {
                                lemma_entries_insert(before, entry.0@, reg);
                                lemma_insert_register_view(before, entry.0@, reg);
                            }
                            register_map_insert(&mut registers, entry.0.clone(), reg);
                        },
                        Err(e) => {
                            proof {
                                lemma_file_scan_err(t@, (i + 1) as nat, t@.len());
                            }
                            return Err(e);
                        },
                    }
                    i = i + 1;
                }
                Ok(TomlFile { registers })
            },
            _ => Err(toml_error("latch-rs toml file may only contain top level tables")),
        }
    }
}

// ---------------------------------------------------------------------------
// Storing what a document describes

/// The field a named TOML field describes.
pub open spec fn field_view_of(name: Seq<char>, f: TomlFieldView) -> FieldView {
    FieldView {
        name,
        bits: f.bits,
        access: f.access,
        description: f.description,
        enum_values: f.enum_values,
    }
}

/// `new` holds every field of `old`, unchanged, and under the fresh,
/// distinct ids `ids` the fields that `entries` describe, in order; no
/// other field.
pub open spec fn fields_added(
    old: Map<u64, Field>,
    new: Map<u64, Field>,
    ids: Seq<FieldId>,
    entries: Seq<(Seq<char>, TomlFieldView)>,
) -> bool {
    &&& ids.len() == entries.len()
    &&& old.submap_of(new)
    &&& new.dom().len() == old.dom().len() + ids.len()
    &&& forall|j: int, l: int| 0 <= j < l < ids.len() ==> (#[trigger] ids[j]) != (#[trigger] ids[l])
    &&& forall|j: int|
        #![trigger ids[j]]
        0 <= j < ids.len() ==> !old.dom().contains(ids[j].0) && new.dom().contains(ids[j].0) && new[ids[j].0]@
            == field_view_of(entries[j].0, entries[j].1)
}

impl TomlField {
    /// Stores the field under the given name and returns its new id.
    pub fn into_field(self, name: String, state: &mut State) -> (id: FieldId)
        requires
            old(state).wf(),
            old(state).field_map().dom().len() < 0xffff_fffe,
        ensures
            final(state).wf(),
            !old(state).field_map().dom().contains(id.0),
            final(state).field_map() == old(state).field_map().insert(id.0, final(state).field_map()[id.0]),
            final(state).field_map()[id.0]@ == field_view_of(name@, self@),
            final(state).field_map().dom().len() == old(state).field_map().dom().len() + 1,
            final(state).regs() == old(state).regs(),
            final(state).reg_locs() == old(state).reg_locs(),
            final(state).field_locs() == old(state).field_locs(),
            final(state).files() == old(state).files(),
    {
        let field = Field {
            name: name,
            bits: self.bits,
            access: self.access,
            description: self.description,
            enum_values: self.enum_values,
        };
        state.insert_field(field)
    }
}

impl TomlRegister {
    /// Stores the register's fields, in order, then the register under the
    /// given name with their ids, and returns its new id.
    pub fn into_reg(self, name: String, state: &mut State) -> (id: RegId)
        requires
            old(state).wf(),
            old(state).regs().dom().len() < 0xffff_fffe,
            old(state).field_map().dom().len() + field_entries(self.fields).len() <= 0xffff_fffe,
        ensures
            final(state).wf(),
            !old(state).regs().dom().contains(id.0),
            final(state).regs() == old(state).regs().insert(id.0, final(state).regs()[id.0]),
            final(state).regs().dom().len() == old(state).regs().dom().len() + 1,
            final(state).regs()[id.0]@.offset == self@.offset,
            final(state).regs()[id.0]@.name == name@,
            final(state).regs()[id.0]@.description == self@.description,
            fields_added(old(state).field_map(), final(state).field_map(), final(state).regs()[id.0]@.fields, self@.fields),
            final(state).reg_locs() == old(state).reg_locs(),
            final(state).field_locs() == old(state).field_locs(),
            final(state).files() == old(state).files(),
    {
        let ghost st0 = *old(state);
        let ghost entries = field_entries(self.fields);
        let ghost views = self@.fields;
        let mut rest = field_map_into_vec(self.fields);
        let mut ids: Vec<FieldId> = Vec::new();
        let n = rest.len();
        while rest.len() > 0
            invariant
                st0 == *old(state),
                state.wf(),
                n == entries.len(),
                views == field_entries_view(entries),
                ids@.len() + rest@.len() == n,
                forall|j: int| 0 <= j < rest@.len() ==> (#[trigger] rest@[j]).0@ == entries[ids@.len() + j].0
                    && rest@[j].1 == entries[ids@.len() + j].1,
                st0.field_map().dom().len() + n <= 0xffff_fffe,
                fields_added(st0.field_map(), state.field_map(), ids@, views.take(ids@.len() as int)),
                state.regs() == st0.regs(),
                state.reg_locs() == st0.reg_locs(),
                state.field_locs() == st0.field_locs(),
                state.files() == st0.files(),
            decreases rest@.len(),
        {
            let ghost mid = *state;
            let ghost k = ids@.len() as int;
            let ghost rest0 = rest@;
            let (f_name, field) = rest.remove(0);
            assert(f_name@ == entries[k].0 && field == entries[k].1);
            let fid = field.into_field(f_name, state);
            ids.push(fid);
            proof {
                let want = views.take(k + 1);
                assert(want[k] == (entries[k].0, entries[k].1@));
                assert forall|j: int| 0 <= j < rest@.len() implies (#[trigger] rest@[j]).0@ == entries[ids@.len() + j].0
                    && rest@[j].1 == entries[ids@.len() + j].1 by {
                    assert(rest@[j] == rest0[j + 1]);
                }
                assert forall|j: int, l: int| 0 <= j < l < ids@.len() implies (#[trigger] ids@[j]) != (#[trigger] ids@[l]) by {
                    if l == k {
                        assert(mid.field_map().dom().contains(ids@[j].0));
                    }
                }
                assert forall|j: int| #![trigger ids@[j]] 0 <= j < ids@.len() implies !st0.field_map().dom().contains(ids@[j].0)
                    && state.field_map().dom().contains(ids@[j].0) && state.field_map()[ids@[j].0]@
                    == field_view_of(want[j].0, want[j].1) by {
                    if j < k {
                        assert(views.take(k)[j] == want[j]);
                        assert(mid.field_map().dom().contains(ids@[j].0));
                    } else {
                        assert(mid.field_map().dom().contains(fid.0) == false);
                        if st0.field_map().dom().contains(fid.0) {
                            assert(mid.field_map().dom().contains(fid.0));
                        }
                    }
                }
                assert(st0.field_map().submap_of(state.field_map())) by {
                    vstd::map_lib::lemma_submap_of_trans(st0.field_map(), mid.field_map(), state.field_map());
                }
            }
        }
        assert(views.take(ids@.len() as int) =~= views);
        let reg = Register::new(self.offset, name, self.description, ids);
        state.insert_reg(reg)
    }
}

/// How many fields the registers describe in all.
pub open spec fn total_fields(regs: Seq<(Seq<char>, TomlRegisterView)>) -> nat
    decreases regs.len(),
{
    if regs.len() == 0 {
        0
    } else {
        total_fields(regs.drop_last()) + regs.last().1.fields.len()
    }
}

proof fn lemma_total_fields_take(regs: Seq<(Seq<char>, TomlRegisterView)>, k: int)
    requires
        0 <= k < regs.len(),
    ensures
        total_fields(regs.take(k + 1)) == total_fields(regs.take(k)) + regs[k].1.fields.len(),
        total_fields(regs.take(k + 1)) <= total_fields(regs),
    decreases regs.len() - k,
{
    assert(regs.take(k + 1).drop_last() =~= regs.take(k));
    if k + 1 < regs.len() {
        lemma_total_fields_take(regs, k + 1);
    } else {
        assert(regs.take(k + 1) =~= regs);
    }
}

/// A stored register as the named TOML register describes it: its offset,
/// name and description, and under fresh ids (not in `old_fields`) the
/// fields it describes, in order.
pub open spec fn register_described(
    old_fields: Map<u64, Field>,
    new_fields: Map<u64, Field>,
    r: RegisterView,
    d: (Seq<char>, TomlRegisterView),
) -> bool {
    &&& r.offset == d.1.offset
    &&& r.name == d.0
    &&& r.description == d.1.description
    &&& r.fields.len() == d.1.fields.len()
    &&& forall|m: int|
        #![trigger r.fields[m]]
        0 <= m < r.fields.len() ==> !old_fields.dom().contains(r.fields[m].0) && new_fields.dom().contains(
            r.fields[m].0,
        ) && new_fields[r.fields[m].0]@ == field_view_of(d.1.fields[m].0, d.1.fields[m].1)
}

/// `new` is `old` with the described registers added: under the fresh,
/// distinct ids `ids`, in order, with their fields; everything `old` held
/// is unchanged, and nothing else was added.
pub open spec fn registers_added(old: State, new: State, ids: Seq<RegId>, regs: Seq<(Seq<char>, TomlRegisterView)>) -> bool {
    &&& ids.len() == regs.len()
    &&& old.regs().submap_of(new.regs())
    &&& old.field_map().submap_of(new.field_map())
    &&& new.regs().dom().len() == old.regs().dom().len() + ids.len()
    &&& new.field_map().dom().len() == old.field_map().dom().len() + total_fields(regs)
    &&& forall|j: int, l: int| 0 <= j < l < ids.len() ==> (#[trigger] ids[j]) != (#[trigger] ids[l])
    &&& forall|j: int|
        #![trigger ids[j]]
        0 <= j < ids.len() ==> !old.regs().dom().contains(ids[j].0) && new.regs().dom().contains(ids[j].0)
            && register_described(old.field_map(), new.field_map(), new.regs()[ids[j].0]@, regs[j])
    &&& new.reg_locs() == old.reg_locs()
    &&& new.field_locs() == old.field_locs()
    &&& new.files() == old.files()
}

/// Whether a state has room for the registers and fields described.
pub open spec fn room_for(st: State, regs: Seq<(Seq<char>, TomlRegisterView)>) -> bool {
    &&& st.regs().dom().len() + regs.len() <= 0xffff_fffe
    &&& st.field_map().dom().len() + total_fields(regs) <= 0xffff_fffe
}

impl TomlFile {
    /// Stores the registers, in order, and returns their new ids.
    pub fn into_regs(self, state: &mut State) -> (ids: Vec<RegId>)
        requires
            old(state).wf(),
            room_for(*old(state), self@),
        ensures
            final(state).wf(),
            registers_added(*old(state), *final(state), ids@, self@),
    {
        let ghost st0 = *old(state);
        let ghost entries = register_entries(self.registers);
        let ghost views = self@;
        let mut rest = register_map_into_vec(self.registers);
        let mut ids: Vec<RegId> = Vec::new();
        let n = rest.len();
        while rest.len() > 0
            invariant
                st0 == *old(state),
                state.wf(),
                n == entries.len() == views.len(),
                views == register_entries_view(entries),
                room_for(st0, views),
                ids@.len() + rest@.len() == n,
                forall|j: int| 0 <= j < rest@.len() ==> (#[trigger] rest@[j]).0@ == entries[ids@.len() + j].0
                    && rest@[j].1 == entries[ids@.len() + j].1,
                registers_added(st0, *state, ids@, views.take(ids@.len() as int)),
            decreases rest@.len(),
        {
            let ghost mid = *state;
            let ghost k = ids@.len() as int;
            let ghost rest0 = rest@;
            let (r_name, reg) = rest.remove(0);
            assert(r_name@ == entries[k].0 && reg == entries[k].1);
            assert(views[k] == (entries[k].0, entries[k].1@));
            proof {
                lemma_total_fields_take(views, k);
                assert(views.take(k + 1)[k] == views[k]);
            }
            let rid = reg.into_reg(r_name, state);
            let ghost ids0 = ids@;
            ids.push(rid);
            proof {
                let want = views.take(k + 1);
                assert(want.take(k) =~= views.take(k));
                vstd::map_lib::lemma_submap_of_trans(st0.regs(), mid.regs(), state.regs());
                vstd::map_lib::lemma_submap_of_trans(st0.field_map(), mid.field_map(), state.field_map());
                assert(mid.field_map().submap_of(state.field_map()));
                assert forall|j: int| 0 <= j < rest@.len() implies (#[trigger] rest@[j]).0@ == entries[ids@.len() + j].0
                    && rest@[j].1 == entries[ids@.len() + j].1 by {
                    assert(rest@[j] == rest0[j + 1]);
                }
                assert forall|j: int, l: int| 0 <= j < l < ids@.len() implies (#[trigger] ids@[j]) != (#[trigger] ids@[l]) by {
                    if l == k {
                        assert(mid.regs().dom().contains(ids@[j].0));
                    }
                }
                assert forall|j: int| #![trigger ids@[j]] 0 <= j < ids@.len() implies !st0.regs().dom().contains(ids@[j].0)
                    && state.regs().dom().contains(ids@[j].0) && register_described(
                    st0.field_map(),
                    state.field_map(),
                    state.regs()[ids@[j].0]@,
                    want[j],
                ) by {
                    if j < k {
                        assert(views.take(k)[j] == want[j]);
                        assert(ids@[j] == ids0[j]);
                        let r = mid.regs()[ids0[j].0]@;
                        assert(mid.regs().dom().contains(ids@[j].0));
                        assert(state.regs()[ids@[j].0] == mid.regs()[ids@[j].0]);
                        assert(register_described(st0.field_map(), mid.field_map(), r, views.take(k)[j]));
                        assert forall|m: int| #![trigger r.fields[m]] 0 <= m < r.fields.len() implies !st0.field_map().dom().contains(
                            r.fields[m].0,
                        ) && state.field_map().dom().contains(r.fields[m].0) && state.field_map()[r.fields[m].0]@
                            == field_view_of(want[j].1.fields[m].0, want[j].1.fields[m].1) by {
                            assert(!st0.field_map().dom().contains(r.fields[m].0));
                            assert(mid.field_map().dom().contains(r.fields[m].0));
                            assert(state.field_map().dom().contains(r.fields[m].0) && state.field_map()[r.fields[m].0]
                                == mid.field_map()[r.fields[m].0]);
                        }
                    } else {
                        let r = state.regs()[rid.0]@;
                        assert(want[j] == (entries[k].0, entries[k].1@));
                        if st0.regs().dom().contains(rid.0) {
                            assert(mid.regs().dom().contains(rid.0));
                        }
                        assert forall|m: int| #![trigger r.fields[m]] 0 <= m < r.fields.len() implies !st0.field_map().dom().contains(
                            r.fields[m].0,
                        ) && state.field_map().dom().contains(r.fields[m].0) && state.field_map()[r.fields[m].0]@
                            == field_view_of(want[j].1.fields[m].0, want[j].1.fields[m].1) by {
                            assert(!mid.field_map().dom().contains(r.fields[m].0));
                            if st0.field_map().dom().contains(r.fields[m].0) {
                                assert(mid.field_map().dom().contains(r.fields[m].0));
                            }
                        }
                    }
                }
            }
        }
        assert(views.take(ids@.len() as int) =~= views);
        ids
    }
}

/// What a text reads as: the registers its TOML document describes, or
/// the error: the parser's message and span, or the message of the first
/// problem in the document's registers.
pub open spec fn spec_read_toml(src: Seq<char>) -> Result<
    Seq<(Seq<char>, TomlRegisterView)>,
    (Seq<char>, Option<(usize, usize)>),
> {
    match toml_document(src) {
        Err(e) => Err(e),
        Ok(v) => match spec_toml_file(v) {
            Err(m) => Err((m, None)),
            Ok(regs) => Ok(regs),
        },
    }
}

/// Whether the registers that a text describes fit into a state; true
/// where the text describes none.
pub open spec fn toml_fits(st: State, src: Seq<char>) -> bool {
    match spec_read_toml(src) {
        Ok(regs) => room_for(st, regs),
        Err(_) => true,
    }
}

/// Reads the registers that a TOML text describes into the state and
/// returns their ids, in document order; on an error the state is
/// unchanged and the error names the file.
pub fn from_toml(state: &mut State, src: &str, file: FileId) -> (r: Result<Vec<RegId>, TomlError>)
    requires
        old(state).wf(),
        toml_fits(*old(state), src@),
    ensures
        final(state).wf(),
        match r {
            Ok(ids) => spec_read_toml(src@) is Ok && registers_added(
                *old(state),
                *final(state),
                ids@,
                spec_read_toml(src@)->Ok_0,
            ),
            Err(e) => spec_read_toml(src@) == Err::<Seq<(Seq<char>, TomlRegisterView)>, (Seq<char>, Option<(usize, usize)>)>(
                (e.message@, e.span),
            ) && e.file == Some(file) && *final(state) == *old(state),
        },
{
    let value = match read_toml_document(src) {
        Ok(v) => v,
        Err(e) => {
            return Err(e.with_file(file));
        },
    };
    let toml_file = match TomlFile::try_from(&value) {
        Ok(f) => f,
        Err(e) => {
            return Err(e.with_file(file));
        },
    };
    Ok(toml_file.into_regs(state))
}

/// Whether the state has room for the registers of a document.
fn has_room(state: &State, f: TomlFile) -> (b: bool)
    ensures
        b == room_for(*state, f@),
{
    let ghost views = f@;
    let ghost entries = register_entries(f.registers);
    let regs = register_map_into_vec(f.registers);
    let have_regs = state.reg_count();
    assert(views.len() == entries.len());
    if have_regs as u64 > 0xffff_fffe || regs.len() as u64 > 0xffff_fffe - have_regs as u64 {
        return false;
    }
    let mut total: u64 = state.field_count() as u64;
    if total > 0xffff_fffe {
        return false;
    }
    let mut i: usize = 0;
    assert(views.take(0) =~= Seq::<(Seq<char>, TomlRegisterView)>::empty());
    while i < regs.len()
        invariant
            i <= regs@.len() == entries.len() == views.len(),
            views == f@,
            views == register_entries_view(entries),
            forall|j: int| 0 <= j < regs@.len() ==> (#[trigger] regs@[j]).0@ == entries[j].0 && regs@[j].1 == entries[j].1,
            total == state.field_map().dom().len() + total_fields(views.take(i as int)),
            total <= 0xffff_fffe,
        decreases regs@.len() - i,
    {
        let count = field_map_len(&regs[i].1.fields);
        proof {
            lemma_total_fields_take(views, i as int);
            assert(views[i as int] == (entries[i as int].0, entries[i as int].1@));
            assert(views[i as int].1.fields.len() == count);
        }
        if count as u64 > 0xffff_fffe - total {
            proof {
                lemma_total_fields_take(views, i as int);
            }
            return false;
        }
        total = total + count as u64;
        i = i + 1;
    }
    assert(views.take(i as int) =~= views);
    true
}

/// [`from_toml`] where the registers the text describes fit into the
/// state; `None`, with the state unchanged, where they do not.
pub fn from_toml_checked(state: &mut State, src: &str, file: FileId) -> (r: Option<Result<Vec<RegId>, TomlError>>)
    requires
        old(state).wf(),
    ensures
        final(state).wf(),
        match r {
            None => !toml_fits(*old(state), src@) && *final(state) == *old(state),
            Some(Ok(ids)) => spec_read_toml(src@) is Ok && registers_added(
                *old(state),
                *final(state),
                ids@,
                spec_read_toml(src@)->Ok_0,
            ),
            Some(Err(e)) => spec_read_toml(src@) == Err::<Seq<(Seq<char>, TomlRegisterView)>, (Seq<char>, Option<(usize, usize)>)>(
                (e.message@, e.span),
            ) && e.file == Some(file) && *final(state) == *old(state),
        },
{
    let fits = match read_toml_document(src) {
        Err(_) => true,
        Ok(v) => match TomlFile::try_from(&v) {
            Err(_) => true,
            Ok(f) => has_room(state, f),
        },
    };
    if fits {
        Some(from_toml(state, src, file))
    } else {
        None
    }
}

// ---------------------------------------------------------------------------
// Describing stored registers

/// A stored field as a TOML field describes it.
pub open spec fn toml_view_of(f: Field) -> TomlFieldView {
    TomlFieldView {
        bits: f.bits,
        access: f.access,
        description: opt_string_view(f.description),
        enum_values: opt_strings_view(f.enum_values),
    }
}

/// The named TOML fields for the first `n` of a register's field ids: each
/// inserted in turn by its name, so a later field of the same name takes
/// the place of an earlier one.
pub open spec fn field_entries_of(fm: Map<u64, Field>, ids: Seq<FieldId>, n: nat) -> Seq<(Seq<char>, TomlFieldView)>
    decreases n,
{
    if n == 0 || n > ids.len() {
        Seq::empty()
    } else {
        insert_entry(
            field_entries_of(fm, ids, (n - 1) as nat),
            fm[ids[n - 1].0].name@,
            toml_view_of(fm[ids[n - 1].0]),
        )
    }
}

/// The TOML description of a stored register.
pub open spec fn toml_register_of(fm: Map<u64, Field>, r: RegisterView) -> TomlRegisterView {
    TomlRegisterView {
        offset: r.offset,
        description: r.description,
        fields: field_entries_of(fm, r.fields, r.fields.len()),
    }
}

/// The named TOML registers for the first `n` registers: each inserted in
/// turn by its name.
pub open spec fn register_entries_of(fm: Map<u64, Field>, regs: Seq<RegisterView>, n: nat) -> Seq<(Seq<char>, TomlRegisterView)>
    decreases n,
{
    if n == 0 || n > regs.len() {
        Seq::empty()
    } else {
        insert_entry(register_entries_of(fm, regs, (n - 1) as nat), regs[n - 1].name, toml_register_of(fm, regs[n - 1]))
    }
}

impl TomlField {
    /// The TOML description of a stored field.
    pub fn from_field(field_id: FieldId, state: &State) -> (r: TomlField)
        requires
            state.field_map().dom().contains(field_id.0),
        ensures
            r@ == toml_view_of(state.field_map()[field_id.0]),
    {
        let field = state.get_field(field_id);
        let description = match &field.description {
            Some(d) => Some(d.clone()),
            None => None,
        };
        let enum_values = match &field.enum_values {
            Some(vs) => Some(clone_strings(vs)),
            None => None,
        };
        TomlField { bits: field.bits, access: field.access, description, enum_values }
    }
}

fn clone_strings(vs: &Vec<String>) -> (r: Vec<String>)
    ensures
        strings_view(r@) == strings_view(vs@),
{
    let mut out: Vec<String> = Vec::new();
    let mut i: usize = 0;
    while i < vs.len()
        invariant
            i <= vs@.len(),
            strings_view(out@) == strings_view(vs@.take(i as int)),
        decreases vs@.len() - i,
    {
        let ghost before = out@;
        out.push(vs[i].clone());
        proof {
            let want = strings_view(vs@.take(i + 1));
            let had = strings_view(vs@.take(i as int));
            assert(strings_view(before).len() == before.len());
            assert(out@.len() == before.len() + 1);
            assert(strings_view(out@).len() == want.len());
            assert forall|j: int| 0 <= j < want.len() implies strings_view(out@)[j] == want[j] by {
                if j < i {
                    assert(strings_view(before)[j] == had[j]);
                }
            }
            assert(strings_view(out@) =~= want);
        }
        i = i + 1;
    }
    assert(vs@.take(i as int) =~= vs@);
    out
}

impl TomlRegister {
    /// The TOML description of a stored register; its fields are named as
    /// stored.
    pub fn from_reg(reg: &Register, state: &State) -> (r: TomlRegister)
        requires
            forall|j: int| 0 <= j < reg@.fields.len() ==> state.field_map().dom().contains(#[trigger] reg@.fields[j].0),
        ensures
            r@ == toml_register_of(state.field_map(), reg@),
    {
        let ids = reg.get_fields();
        let ghost fm = state.field_map();
        let mut fields = field_map_new();
        let mut i: usize = 0;
        assert(field_entries_view(field_entries(fields)) =~= field_entries_of(fm, ids@, 0));
        while i < ids.len()
            invariant
                i <= ids@.len(),
                ids@ == reg@.fields,
                fm == state.field_map(),
                forall|j: int| 0 <= j < ids@.len() ==> fm.dom().contains(#[trigger] ids@[j].0),
                crate::toml_doc::keys_unique(field_entries(fields)),
                field_entries_view(field_entries(fields)) == field_entries_of(fm, ids@, i as nat),
            decreases ids@.len() - i,
        {
            let id = ids[i];
            let name = state.get_field(id).name.clone();
            let f = TomlField::from_field(id, state);
            let ghost before = field_entries(fields);
            proof {
                lemma_entries_insert(before, name@, f);
                lemma_insert_entry_view(before, name@, f);
            }
            field_map_insert(&mut fields, name, f);
            i = i + 1;
        }
        let description = match reg.get_description() {
            Some(d) => Some(d.clone()),
            None => None,
        };
        TomlRegister { offset: reg.get_offset(), description, fields }
    }
}

impl TomlFile {
    /// The TOML description of the given stored registers, by name, in
    /// order.
    pub fn from_regs(regs: &[&Register], state: &State) -> (r: TomlFile)
        requires
            forall|i: int, j: int|
                0 <= i < regs@.len() && 0 <= j < regs@[i]@.fields.len() ==> state.field_map().dom().contains(
                    #[trigger] regs@[i]@.fields[j].0,
                ),
        ensures
            r@ == register_entries_of(state.field_map(), regs@.map_values(|r: &Register| r@), regs@.len()),
    {
        let ghost fm = state.field_map();
        let ghost views = regs@.map_values(|r: &Register| r@);
        let mut registers = register_map_new();
        let mut i: usize = 0;
        assert(register_entries_view(register_entries(registers)) =~= register_entries_of(fm, views, 0));
        while i < regs.len()
            invariant
                i <= regs@.len() == views.len(),
                views == regs@.map_values(|r: &Register| r@),
                fm == state.field_map(),
                forall|i: int, j: int|
                    0 <= i < regs@.len() && 0 <= j < regs@[i]@.fields.len() ==> fm.dom().contains(
                        #[trigger] regs@[i]@.fields[j].0,
                    ),
                crate::toml_doc::keys_unique(register_entries(registers)),
                register_entries_view(register_entries(registers)) == register_entries_of(fm, views, i as nat),
            decreases regs@.len() - i,
        {
            let reg = regs[i];
            assert(views[i as int] == reg@);
            let name = reg.get_name().clone();
            let tr = TomlRegister::from_reg(reg, state);
            let ghost before = register_entries(registers);
            proof {
                lemma_entries_insert(before, name@, tr);
                lemma_insert_register_view(before, name@, tr);
            }
            register_map_insert(&mut registers, name, tr);
            i = i + 1;
        }
        TomlFile { registers }
    }

    /// The TOML description of every stored register, each once, by name,
    /// in the order in which the state hands them out (by increasing slot
    /// index of their ids).
    pub fn from_state(state: &State) -> (r: TomlFile)
        requires
            state.wf(),
            forall|k: u64, j: int|
                state.regs().dom().contains(k) && 0 <= j < state.regs()[k]@.fields.len() ==> state.field_map().dom().contains(
                    #[trigger] state.regs()[k]@.fields[j].0,
                ),
        ensures
            exists|ks: Seq<u64>|
                lists_each_once(state.regs().dom(), ks) && r@ == register_entries_of(
                    state.field_map(),
                    ks.map_values(|k: u64| state.regs()[k]@),
                    ks.len(),
                ),
    {
        let regs = state.get_regs();
        proof {
            assert forall|i: int, j: int|
                0 <= i < regs@.len() && 0 <= j < regs@[i]@.fields.len() implies state.field_map().dom().contains(
                #[trigger] regs@[i]@.fields[j].0,
            ) by {
                let k = choose|k: u64| state.regs().dom().contains(k) && state.regs()[k] == *regs@[i];
                assert(state.regs().values().contains(*regs@[i]));
                assert(state.regs()[k]@.fields[j] == regs@[i]@.fields[j]);
            }
        }
        let r = TomlFile::from_regs(regs.as_slice(), state);
        proof {
            let ks = choose|ks: Seq<u64>|
                lists_each_once(state.regs().dom(), ks) && forall|i: int|
                    0 <= i < regs@.len() ==> *#[trigger] regs@[i] == state.regs()[ks[i]];
            let lhs = ks.map_values(|k: u64| state.regs()[k]@);
            let rhs = regs@.map_values(|r: &Register| r@);
            assert forall|i: int| 0 <= i < rhs.len() implies #[trigger] lhs[i] == rhs[i] by {
                assert(*regs@[i] == state.regs()[ks[i]]);
            }
            assert(lhs =~= rhs);
        }
        r
    }
}

// ---------------------------------------------------------------------------
// Reading back what was stored

/// Keys are distinct among a description's registers and among each
/// register's fields.
pub open spec fn toml_keys_unique(regs: Seq<(Seq<char>, TomlRegisterView)>) -> bool {
    &&& crate::toml_doc::keys_unique(regs)
    &&& forall|j: int| 0 <= j < regs.len() ==> crate::toml_doc::keys_unique(#[trigger] regs[j].1.fields)
}

/// Inserting a key that no entry has appends the entry.
proof fn lemma_insert_new_key<V>(s: Seq<(Seq<char>, V)>, k: Seq<char>, v: V)
    requires
        forall|i: int| 0 <= i < s.len() ==> (#[trigger] s[i]).0 != k,
    ensures
        insert_entry(s, k, v) == s.push((k, v)),
{
    lemma_first_key_from(s, k, 0);
}

proof fn lemma_field_entries_of_stored(
    fm: Map<u64, Field>,
    ids: Seq<FieldId>,
    entries: Seq<(Seq<char>, TomlFieldView)>,
    n: nat,
)
    requires
        n <= ids.len() == entries.len(),
        crate::toml_doc::keys_unique(entries),
        forall|m: int|
            #![trigger ids[m]]
            0 <= m < ids.len() ==> fm.dom().contains(ids[m].0) && fm[ids[m].0]@ == field_view_of(entries[m].0, entries[m].1),
    ensures
        field_entries_of(fm, ids, n) == entries.take(n as int),
    decreases n,
{
    if n == 0 {
        assert(entries.take(0) =~= Seq::<(Seq<char>, TomlFieldView)>::empty());
    } else {
        let k = (n - 1) as int;
        lemma_field_entries_of_stored(fm, ids, entries, (n - 1) as nat);
        let f = fm[ids[k].0];
        assert(f@ == field_view_of(entries[k].0, entries[k].1));
        assert(toml_view_of(f) == entries[k].1);
        assert forall|i: int| 0 <= i < entries.take(k).len() implies (#[trigger] entries.take(k)[i]).0 != entries[k].0 by {
            assert(entries[i].0 != entries[k].0);
        }
        lemma_insert_new_key(entries.take(k), f.name@, toml_view_of(f));
        assert(entries.take(k).push((entries[k].0, entries[k].1)) =~= entries.take(n as int));
    }
}

proof fn lemma_register_entries_of_stored(
    old: State,
    new: State,
    ids: Seq<RegId>,
    regs: Seq<(Seq<char>, TomlRegisterView)>,
    n: nat,
)
    requires
        registers_added(old, new, ids, regs),
        toml_keys_unique(regs),
        n <= ids.len(),
    ensures
        register_entries_of(new.field_map(), ids.map_values(|id: RegId| new.regs()[id.0]@), n) == regs.take(n as int),
    decreases n,
{
    let views = ids.map_values(|id: RegId| new.regs()[id.0]@);
    if n == 0 {
        assert(regs.take(0) =~= Seq::<(Seq<char>, TomlRegisterView)>::empty());
    } else {
        let k = (n - 1) as int;
        lemma_register_entries_of_stored(old, new, ids, regs, (n - 1) as nat);
        let r = views[k];
        assert(r == new.regs()[ids[k].0]@);
        assert(register_described(old.field_map(), new.field_map(), r, regs[k]));
        assert(crate::toml_doc::keys_unique(regs[k].1.fields));
        lemma_field_entries_of_stored(new.field_map(), r.fields, regs[k].1.fields, r.fields.len());
        assert(regs[k].1.fields.take(r.fields.len() as int) =~= regs[k].1.fields);
        assert(toml_register_of(new.field_map(), r) == regs[k].1);
        assert forall|i: int| 0 <= i < regs.take(k).len() implies (#[trigger] regs.take(k)[i]).0 != regs[k].0 by {
            assert(regs[i].0 != regs[k].0);
        }
        lemma_insert_new_key(regs.take(k), r.name, toml_register_of(new.field_map(), r));
        assert(regs.take(k).push((regs[k].0, regs[k].1)) =~= regs.take(n as int));
    }
}

proof fn lemma_register_scan_unique(t: Seq<(String, TomlValue)>, n: nat)
    requires
        register_scan(t, n) is Ok,
    ensures
        crate::toml_doc::keys_unique(register_scan(t, n)->Ok_0.fields),
    decreases n,
{
    if n > 0 {
        lemma_register_scan_unique(t, (n - 1) as nat);
        let d = register_scan(t, (n - 1) as nat)->Ok_0;
        if t[n - 1].1 is Table {
            lemma_entries_insert(d.fields, t[n - 1].0@, spec_toml_field(t[n - 1].1)->Ok_0);
        }
    }
}

proof fn lemma_file_scan_unique(t: Seq<(String, TomlValue)>, n: nat)
    requires
        file_scan(t, n) is Ok,
    ensures
        toml_keys_unique(file_scan(t, n)->Ok_0),
    decreases n,
{
    if n > 0 {
        lemma_file_scan_unique(t, (n - 1) as nat);
        let rs = file_scan(t, (n - 1) as nat)->Ok_0;
        let v = t[n - 1].1;
        let r = spec_toml_register(v)->Ok_0;
        lemma_entries_insert(rs, t[n - 1].0@, r);
        let tb = v->Table_0;
        lemma_register_scan_unique(tb@, tb@.len());
        let w = insert_entry(rs, t[n - 1].0@, r);
        lemma_first_key_from(rs, t[n - 1].0@, 0);
        assert forall|j: int| 0 <= j < w.len() implies crate::toml_doc::keys_unique(#[trigger] w[j].1.fields) by {
            if w[j].1 != r {
                assert(w[j] == rs[j]);
            }
        }
    }
}

/// What a TOML text describes has distinct register names, and distinct
/// field names within each register.
pub proof fn lemma_read_toml_keys_unique(src: Seq<char>)
    requires
        spec_read_toml(src) is Ok,
    ensures
        toml_keys_unique(spec_read_toml(src)->Ok_0),
{
    let v = toml_document(src)->Ok_0;
    let t = v->Table_0;
    lemma_file_scan_unique(t@, t@.len());
}

/// Reading back what [`from_toml`] stored: the stored registers, described
/// again in the order they were stored, give the description that the text
/// holds.
pub proof fn lemma_from_toml_round_trip(old: State, new: State, ids: Seq<RegId>, src: Seq<char>)
    requires
        spec_read_toml(src) is Ok,
        registers_added(old, new, ids, spec_read_toml(src)->Ok_0),
    ensures
        register_entries_of(new.field_map(), ids.map_values(|id: RegId| new.regs()[id.0]@), ids.len())
            == spec_read_toml(src)->Ok_0,
{
    let regs = spec_read_toml(src)->Ok_0;
    lemma_read_toml_keys_unique(src);
    lemma_register_entries_of_stored(old, new, ids, regs, ids.len());
    assert(regs.take(ids.len() as int) =~= regs);
}

// ---------------------------------------------------------------------------
// Writing bit ranges back

/// The text a bit range is written as: `"n"`, or `"lo:hi"`, in decimal.
pub open spec fn bits_text(b: BitRange) -> Seq<char> {
    match b {
        BitRange::Single(n) => nat_text(n as nat),
        BitRange::Span(lo, hi) => nat_text(lo as nat) + seq![':'] + nat_text(hi as nat),
    }
}

proof fn lemma_nat_text(n: nat)
    ensures
        nat_text(n).len() >= 1,
        forall|i: int| 0 <= i < nat_text(n).len() ==> is_dec_digit(#[trigger] nat_text(n)[i]),
        digits_value(nat_text(n), 10) == n,
    decreases n,
{
    let d = (n % 10) as int;
    assert(digit_value(digit_char(d)) == d);
    if n >= 10 {
        lemma_nat_text(n / 10);
        let t = nat_text(n);
        assert(t.drop_last() =~= nat_text(n / 10));
        assert(t.last() == digit_char(d));
        assert(digits_value(t, 10) == digits_value(t.drop_last(), 10) * 10 + digit_value(t.last()));
        assert(digits_value(t.drop_last(), 10) == n / 10);
        assert(n == (n / 10) * 10 + d);
    } else {
        let t = nat_text(n);
        assert(t.drop_last() =~= Seq::<char>::empty());
        assert(digits_value(t, 10) == digits_value(t.drop_last(), 10) * 10 + digit_value(t.last()));
        assert(digits_value(Seq::<char>::empty(), 10) == 0);
    }
}

/// A decimal text of a `u64` reads back as that number.
proof fn lemma_parse_nat_text(n: u64)
    ensures
        spec_parse_u64(nat_text(n as nat)) == Ok::<u64, Seq<char>>(n),
        run_end(nat_text(n as nat), 0, colon_free_pred()) == nat_text(n as nat).len(),
{
    let t = nat_text(n as nat);
    lemma_nat_text(n as nat);
    lemma_run_end(t, 0, dec_pred());
    lemma_run_end(t, 0, colon_free_pred());
    let p = run_end(t, 0, dec_pred());
    if p < t.len() {
        assert(is_dec_digit(t[p]));
    }
    assert(t.take(p) =~= t);
    let c = run_end(t, 0, colon_free_pred());
    if c < t.len() {
        assert(is_dec_digit(t[c]));
    }
}

fn digit_char_exec(d: u64) -> (c: char)
    requires
        d < 10,
    ensures
        c == digit_char(d as int),
{
    if d == 0 {
        '0'
    } else if d == 1 {
        '1'
    } else if d == 2 {
        '2'
    } else if d == 3 {
        '3'
    } else if d == 4 {
        '4'
    } else if d == 5 {
        '5'
    } else if d == 6 {
        '6'
    } else if d == 7 {
        '7'
    } else if d == 8 {
        '8'
    } else {
        '9'
    }
}

/// Appends the decimal digits of `n`.
fn push_nat_text(n: u64, out: &mut Vec<char>)
    ensures
        final(out)@ == old(out)@ + nat_text(n as nat),
    decreases n,
{
    let ghost before = out@;
    if n >= 10 {
        push_nat_text(n / 10, out);
    }
    let d: u64 = n % 10;
    out.push(digit_char_exec(d));
    assert(out@ =~= before + nat_text(n as nat));
}

/// The text a bit range is written as, as [`bits_text`] states.
pub fn bits_string(b: BitRange) -> (r: String)
    ensures
        r@ == bits_text(b),
{
    let mut out: Vec<char> = Vec::new();
    match b {
        BitRange::Single(n) => {
            push_nat_text(n, &mut out);
        },
        BitRange::Span(lo, hi) => {
            push_nat_text(lo, &mut out);
            out.push(':');
            push_nat_text(hi, &mut out);
        },
    }
    assert(out@ =~= bits_text(b));
    let n = out.len();
    let r = chars_to_string(out.as_slice(), 0, n);
    assert(out@.subrange(0, n as int) =~= out@);
    r
}

/// A bit range written as [`bits_text`] reads back as the same bit range.
pub proof fn lemma_bits_text_round_trip(b: BitRange)
    ensures
        spec_bits_from_str(bits_text(b)) == Ok::<BitRange, Seq<char>>(b),
{
    match b {
        BitRange::Single(n) => {
            lemma_parse_nat_text(n);
        },
        BitRange::Span(lo, hi) => {
            lemma_parse_nat_text(lo);
            lemma_parse_nat_text(hi);
            let a = nat_text(lo as nat);
            let t = bits_text(b);
            lemma_run_end(t, 0, colon_free_pred());
            lemma_run_end(a, 0, colon_free_pred());
            let c = run_end(t, 0, colon_free_pred());
            assert forall|i: int| 0 <= i < a.len() implies (colon_free_pred())(#[trigger] t[i]) by {
                assert(t[i] == a[i]);
            }
            assert(t[a.len() as int] == ':');
            if c < a.len() {
                assert((colon_free_pred())(t[c]));
            }
            assert(c == a.len());
            assert(t.take(c) =~= a);
            assert(t.skip(c + 1) =~= nat_text(hi as nat));
        },
    }
}

/// The digits of a `u64` text: the text after an optional leading `+`.
pub open spec fn unsigned_digits(s: Seq<char>) -> Seq<char> {
    if s.len() > 0 && s[0] == '+' {
        s.skip(1)
    } else {
        s
    }
}

/// Whether a text is a decimal `u64`: an optional `+`, then one or more
/// decimal digits whose value fits in 64 bits.
pub open spec fn is_decimal_u64(s: Seq<char>) -> bool {
    let ds = unsigned_digits(s);
    &&& ds.len() > 0
    &&& all_digits(ds, 10)
    &&& fits_u64(digits_value(ds, 10))
}

/// A text reads as a `u64` exactly when it is a decimal `u64`, and then as
/// the value of its digits.
pub proof fn lemma_parse_u64_accepts(s: Seq<char>)
    ensures
        spec_parse_u64(s) is Ok <==> is_decimal_u64(s),
        is_decimal_u64(s) ==> spec_parse_u64(s) == Ok::<u64, Seq<char>>(digits_value(unsigned_digits(s), 10) as u64),
{
    let ds = unsigned_digits(s);
    if s.len() > 0 {
        assert(ds =~= (if s[0] == '+' { s.skip(1) } else { s }));
        lemma_run_end(ds, 0, dec_pred());
        let p = run_end(ds, 0, dec_pred());
        if all_digits(ds, 10) {
            if p < ds.len() {
                assert(is_digit_of(ds[p], 10));
            }
            assert(ds.take(p) =~= ds);
        } else if p == ds.len() {
            assert forall|i: int| 0 <= i < ds.len() implies is_digit_of(#[trigger] ds[i], 10) by {
                assert((dec_pred())(ds[i]));
            }
        }
    }
}

/// A bit range text is refused exactly when its number, or one of the two
/// numbers around its first `:`, is not a decimal `u64`.
pub proof fn lemma_bits_from_str_refuses(s: Seq<char>)
    ensures
        spec_bits_from_str(s) is Err <==> ({
            let c = run_end(s, 0, colon_free_pred());
            if c >= s.len() {
                !is_decimal_u64(s)
            } else {
                !is_decimal_u64(s.take(c)) || !is_decimal_u64(s.skip(c + 1))
            }
        }),
{
    let c = run_end(s, 0, colon_free_pred());
    lemma_parse_u64_accepts(s);
    lemma_parse_u64_accepts(s.take(c));
    lemma_parse_u64_accepts(s.skip(c + 1));
}

} // verus!
