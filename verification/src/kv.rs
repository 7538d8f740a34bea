//! The key/value grammar of an annotation line.
//!
//! After `@reg` or `@field` an annotation holds a list of `key=value` pairs,
//! separated by spaces or tabs. A value is one of:
//! - a quoted, comma separated list: `"fast,slow,idle"`;
//! - an access mode: `RW`, `RO` or `WO`;
//! - a bit range: a number, or two numbers joined by `:`; a number is
//!   decimal, `0x` followed by hex digits, or `0b` followed by binary digits;
//! - a bare word, made of any characters but whitespace, `"`, `=`, `:` and `,`.
use vstd::prelude::*;
use crate::text::{chars_to_string, lemma_run_end, run_end, split_on, split_to_strings, strings_view};

verus! {

/// Access mode of a register field.
#[derive(Debug, Clone, Copy, PartialEq, Eq, Structural)]
pub enum Access {
    RW,
    RO,
    WO,
}

impl Access {
    /// Whether the access mode is `RO`.
    pub fn is_read_only(&self) -> (r: bool)
        ensures
            r == (*self == Access::RO),
    {
        match self {
            Access::RO => true,
            _ => false,
        }
    }
}

/// A single bit index or an inclusive span of bit indices.
#[derive(Debug, Clone, Copy, PartialEq, Eq, Structural)]
pub enum BitRange {
    Single(u64),
    Span(u64, u64),
}

/// A value on the right of `=` in an annotation.
#[derive(Debug, Clone)]
pub enum Value {
    BitRange(BitRange),
    Access(Access),
    QuotedCSV(Vec<String>),
    Bare(String),
}

/// The mathematical content of a [`Value`].
pub enum ValueView {
    BitRange(BitRange),
    Access(Access),
    QuotedCSV(Seq<Seq<char>>),
    Bare(Seq<char>),
}

impl View for Value {
    type V = ValueView;

    open spec fn view(&self) -> ValueView {
        match self {
            Value::BitRange(b) => ValueView::BitRange(*b),
            Value::Access(a) => ValueView::Access(*a),
            Value::QuotedCSV(v) => ValueView::QuotedCSV(strings_view(v@)),
            Value::Bare(s) => ValueView::Bare(s@),
        }
    }
}

impl ValueView {
    pub open spec fn bit_range(self) -> Option<BitRange> {
        match self {
            ValueView::BitRange(b) => Some(b),
            _ => None,
        }
    }

    pub open spec fn access(self) -> Option<Access> {
        match self {
            ValueView::Access(a) => Some(a),
            _ => None,
        }
    }

    pub open spec fn number(self) -> Option<u64> {
        match self {
            ValueView::BitRange(BitRange::Single(n)) => Some(n),
            _ => None,
        }
    }

    pub open spec fn string(self) -> Option<Seq<char>> {
        match self {
            ValueView::Bare(s) => Some(s),
            _ => None,
        }
    }

    pub open spec fn strings(self) -> Option<Seq<Seq<char>>> {
        match self {
            ValueView::QuotedCSV(v) => Some(v),
            _ => None,
        }
    }
}

impl Value {
    pub fn as_bit_range(&self) -> (r: Option<BitRange>)
        ensures
            r == self@.bit_range(),
    {
        match self {
            Value::BitRange(b) => Some(*b),
            _ => None,
        }
    }

    pub fn as_access(&self) -> (r: Option<Access>)
        ensures
            r == self@.access(),
    {
        match self {
            Value::Access(a) => Some(*a),
            _ => None,
        }
    }

    pub fn as_u64(&self) -> (r: Option<u64>)
        ensures
            r == self@.number(),
    {
        match self {
            Value::BitRange(BitRange::Single(n)) => Some(*n),
            _ => None,
        }
    }

    pub fn as_string(&self) -> (r: Option<&String>)
        ensures
            match r {
                Some(s) => self@.string() == Some(s@),
                None => self@.string() is None,
            },
    {
        match self {
            Value::Bare(s) => Some(s),
            _ => None,
        }
    }

    pub fn as_vec_string(&self) -> (r: Option<&Vec<String>>)
        ensures
            match r {
                Some(v) => self@.strings() == Some(strings_view(v@)),
                None => self@.strings() is None,
            },
    {
        match self {
            Value::QuotedCSV(v) => Some(v),
            _ => None,
        }
    }
}

/// One `key=value` pair.
#[derive(Debug, Clone)]
pub struct KvPair {
    pub key: String,
    pub value: Value,
}

/// The mathematical content of a [`KvPair`].
pub struct KvPairView {
    pub key: Seq<char>,
    pub value: ValueView,
}

impl View for KvPair {
    type V = KvPairView;

    open spec fn view(&self) -> KvPairView {
        KvPairView { key: self.key@, value: self.value@ }
    }
}

pub open spec fn pairs_view(v: Seq<KvPair>) -> Seq<KvPairView> {
    v.map_values(|p: KvPair| p@)
}

/// What went wrong in an annotation's key/value list.
#[derive(Debug, Clone, Copy, PartialEq, Eq, Structural)]
pub enum KvErrorKind {
    ExpectedKey,
    ExpectedEquals,
    ExpectedValue,
    ExpectedWhitespace,
    UnterminatedQuote,
    InvalidBitRange,
    NumberTooLarge,
    InvalidValue,
}

/// A syntax error, with the character positions `start..end` it covers in
/// the text that was parsed.
#[derive(Debug, Clone, Copy, PartialEq, Eq, Structural)]
pub struct KvError {
    pub kind: KvErrorKind,
    pub start: usize,
    pub end: usize,
}

/// The message that reports a syntax error of each kind.
pub open spec fn kv_message(kind: KvErrorKind) -> Seq<char> {
    match kind {
        KvErrorKind::ExpectedKey => "expected a key"@,
        KvErrorKind::ExpectedEquals => "expected `=` after the key"@,
        KvErrorKind::ExpectedValue => "expected a value after `=`"@,
        KvErrorKind::ExpectedWhitespace => "expected whitespace between key/value pairs"@,
        KvErrorKind::UnterminatedQuote => "unterminated quoted list"@,
        KvErrorKind::InvalidBitRange => "invalid bit range"@,
        KvErrorKind::NumberTooLarge => "number does not fit in 64 bits"@,
        KvErrorKind::InvalidValue => "invalid value"@,
    }
}

impl KvErrorKind {
    /// The message that reports this kind of syntax error.
    pub fn message(&self) -> (r: String)
        ensures
            r@ == kv_message(*self),
    {
        match self {
            KvErrorKind::ExpectedKey => String::from_str("expected a key"),
            KvErrorKind::ExpectedEquals => String::from_str("expected `=` after the key"),
            KvErrorKind::ExpectedValue => String::from_str("expected a value after `=`"),
            KvErrorKind::ExpectedWhitespace => String::from_str("expected whitespace between key/value pairs"),
            KvErrorKind::UnterminatedQuote => String::from_str("unterminated quoted list"),
            KvErrorKind::InvalidBitRange => String::from_str("invalid bit range"),
            KvErrorKind::NumberTooLarge => String::from_str("number does not fit in 64 bits"),
            KvErrorKind::InvalidValue => String::from_str("invalid value"),
        }
    }
}

/// The spec form of a syntax error: kind and positions.
pub open spec fn kv_err(kind: KvErrorKind, start: int, end: int) -> (KvErrorKind, int, int) {
    (kind, start, end)
}

pub open spec fn error_view(e: KvError) -> (KvErrorKind, int, int) {
    (e.kind, e.start as int, e.end as int)
}

// ---------------------------------------------------------------------------
// Character classes

pub open spec fn is_ws(c: char) -> bool {
    c == ' ' || c == '\t'
}

pub open spec fn is_alpha(c: char) -> bool {
    ('a' <= c && c <= 'z') || ('A' <= c && c <= 'Z')
}

pub open spec fn is_dec_digit(c: char) -> bool {
    '0' <= c && c <= '9'
}

pub open spec fn is_hex_digit(c: char) -> bool {
    is_dec_digit(c) || ('a' <= c && c <= 'f') || ('A' <= c && c <= 'F')
}

pub open spec fn is_bin_digit(c: char) -> bool {
    c == '0' || c == '1'
}

pub open spec fn is_key_start(c: char) -> bool {
    is_alpha(c) || c == '_'
}

pub open spec fn is_key_char(c: char) -> bool {
    is_key_start(c) || is_dec_digit(c)
}

pub open spec fn is_bare_char(c: char) -> bool {
    !is_ws(c) && c != '"' && c != '=' && c != ':' && c != ','
}

pub open spec fn ws_pred() -> spec_fn(char) -> bool {
    |c: char| is_ws(c)
}

pub open spec fn key_pred() -> spec_fn(char) -> bool {
    |c: char| is_key_char(c)
}

pub open spec fn token_pred() -> spec_fn(char) -> bool {
    |c: char| !is_ws(c)
}

pub open spec fn unquote_pred() -> spec_fn(char) -> bool {
    |c: char| c != '"'
}

pub open spec fn colon_free_pred() -> spec_fn(char) -> bool {
    |c: char| c != ':'
}

// ---------------------------------------------------------------------------
// Numbers

pub open spec fn digit_value(c: char) -> nat {
    if is_dec_digit(c) {
        (c as nat - '0' as nat) as nat
    } else if 'a' <= c && c <= 'f' {
        (c as nat - 'a' as nat + 10) as nat
    } else if 'A' <= c && c <= 'F' {
        (c as nat - 'A' as nat + 10) as nat
    } else {
        0
    }
}

pub open spec fn is_digit_of(c: char, radix: nat) -> bool {
    if radix == 2 {
        is_bin_digit(c)
    } else if radix == 16 {
        is_hex_digit(c)
    } else {
        is_dec_digit(c)
    }
}

pub open spec fn all_digits(ds: Seq<char>, radix: nat) -> bool {
    forall|i: int| 0 <= i < ds.len() ==> is_digit_of(#[trigger] ds[i], radix)
}

/// The number that a sequence of digits denotes in a radix.
pub open spec fn digits_value(ds: Seq<char>, radix: nat) -> nat
    decreases ds.len(),
{
    if ds.len() == 0 {
        0
    } else {
        digits_value(ds.drop_last(), radix) * radix + digit_value(ds.last())
    }
}

/// The radix and digits of a number literal, or `None` if `t` is not one.
pub open spec fn number_syntax(t: Seq<char>) -> Option<(nat, Seq<char>)> {
    if t.len() > 2 && t[0] == '0' && t[1] == 'x' && all_digits(t.skip(2), 16) {
        Some((16, t.skip(2)))
    } else if t.len() > 2 && t[0] == '0' && t[1] == 'b' && all_digits(t.skip(2), 2) {
        Some((2, t.skip(2)))
    } else if t.len() > 0 && all_digits(t, 10) {
        Some((10, t))
    } else {
        None
    }
}

/// The value of a number literal, as a mathematical number.
pub open spec fn number_value(t: Seq<char>) -> nat {
    digits_value(number_syntax(t).unwrap().1, number_syntax(t).unwrap().0)
}

pub open spec fn fits_u64(n: nat) -> bool {
    n <= u64::MAX
}

/// Digits have their usual values: `'0'`..`'9'` are 0..9, and the letters
/// `'a'`..`'f'` and `'A'`..`'F'` alike are 10..15.
pub proof fn lemma_digit_values(k: int)
    ensures
        0 <= k < 10 ==> digit_value(('0' as int + k) as char) == k,
        0 <= k < 6 ==> digit_value(('a' as int + k) as char) == 10 + k,
        0 <= k < 6 ==> digit_value(('A' as int + k) as char) == 10 + k,
{
}

/// A hexadecimal literal `0x` followed by digits denotes, case aside, the
/// base-16 number those digits write: appending a digit multiplies the value
/// by 16 and adds the digit's value, and a letter digit counts the same in
/// upper and lower case.
pub proof fn lemma_hex_literal_value(ds: Seq<char>, k: int, upper: bool)
    requires
        ds.len() > 0,
        all_digits(ds, 16),
        0 <= k < 6,
    ensures
        number_syntax(seq!['0', 'x'] + ds) == Some((16nat, ds)),
        ({
            let d = if upper { ('A' as int + k) as char } else { ('a' as int + k) as char };
            number_value(seq!['0', 'x'] + ds.push(d)) == number_value(seq!['0', 'x'] + ds) * 16 + 10 + k
        }),
{
    let t = seq!['0', 'x'] + ds;
    assert(t.skip(2) =~= ds);
    let d = if upper { ('A' as int + k) as char } else { ('a' as int + k) as char };
    let e = ds.push(d);
    let u = seq!['0', 'x'] + e;
    assert(u.skip(2) =~= e);
    assert(is_hex_digit(d));
    assert(all_digits(e, 16));
    assert(e.drop_last() =~= ds);
    lemma_digit_values(k);
}

// ---------------------------------------------------------------------------
// Values

/// The value that a token (a run of non-whitespace characters) denotes.
pub open spec fn classify(t: Seq<char>) -> Result<ValueView, KvErrorKind> {
    let colon = run_end(t, 0, colon_free_pred());
    if t == seq!['R', 'W'] {
        Ok(ValueView::Access(Access::RW))
    } else if t == seq!['R', 'O'] {
        Ok(ValueView::Access(Access::RO))
    } else if t == seq!['W', 'O'] {
        Ok(ValueView::Access(Access::WO))
    } else if colon < t.len() {
        let lo = t.subrange(0, colon);
        let hi = t.subrange(colon + 1, t.len() as int);
        if number_syntax(lo) is Some && number_syntax(hi) is Some {
            if fits_u64(number_value(lo)) && fits_u64(number_value(hi)) {
                Ok(ValueView::BitRange(BitRange::Span(number_value(lo) as u64, number_value(hi) as u64)))
            } else {
                Err(KvErrorKind::NumberTooLarge)
            }
        } else {
            Err(KvErrorKind::InvalidBitRange)
        }
    } else if number_syntax(t) is Some {
        if fits_u64(number_value(t)) {
            Ok(ValueView::BitRange(BitRange::Single(number_value(t) as u64)))
        } else {
            Err(KvErrorKind::NumberTooLarge)
        }
    } else if forall|i: int| 0 <= i < t.len() ==> is_bare_char(#[trigger] t[i]) {
        Ok(ValueView::Bare(t))
    } else {
        Err(KvErrorKind::InvalidValue)
    }
}

/// The value that starts at position `v` of `s`, and the position after it.
pub open spec fn spec_parse_value(s: Seq<char>, v: int) -> Result<(ValueView, int), (KvErrorKind, int, int)> {
    if v >= s.len() || is_ws(s[v]) {
        Err(kv_err(KvErrorKind::ExpectedValue, v, v + 1))
    } else if s[v] == '"' {
        let q = run_end(s, v + 1, unquote_pred());
        if q >= s.len() {
            Err(kv_err(KvErrorKind::UnterminatedQuote, v, s.len() as int))
        } else {
            Ok((ValueView::QuotedCSV(split_on(s.subrange(v + 1, q), ',')), q + 1))
        }
    } else {
        let e = run_end(s, v, token_pred());
        match classify(s.subrange(v, e)) {
            Ok(val) => Ok((val, e)),
            Err(kind) => Err(kv_err(kind, v, e)),
        }
    }
}

/// The pair that starts at position `p` of `s`, and the position after it.
pub open spec fn spec_parse_pair(s: Seq<char>, p: int) -> Result<(KvPairView, int), (KvErrorKind, int, int)> {
    if !is_key_start(s[p]) {
        Err(kv_err(KvErrorKind::ExpectedKey, p, p + 1))
    } else {
        let k = run_end(s, p, key_pred());
        if k >= s.len() || s[k] != '=' {
            Err(kv_err(KvErrorKind::ExpectedEquals, k, k + 1))
        } else {
            match spec_parse_value(s, k + 1) {
                Ok((val, e)) => Ok((KvPairView { key: s.subrange(p, k), value: val }, e)),
                Err(err) => Err(err),
            }
        }
    }
}

/// The pairs of `s` from position `pos` on, after the pairs `acc` already read.
pub open spec fn spec_parse_pairs_from(s: Seq<char>, pos: int, acc: Seq<KvPairView>) -> Result<Seq<KvPairView>, (KvErrorKind, int, int)>
    decreases s.len() - pos,
{
    let p = run_end(s, pos, ws_pred());
    if p >= s.len() {
        Ok(acc)
    } else if acc.len() > 0 && p == pos {
        Err(kv_err(KvErrorKind::ExpectedWhitespace, pos, pos + 1))
    } else {
        match spec_parse_pair(s, p) {
            Ok((pair, e)) => if pos < e <= s.len() {
                spec_parse_pairs_from(s, e, acc.push(pair))
            } else {
                Ok(acc)
            },
            Err(err) => Err(err),
        }
    }
}

/// The key/value pairs of an annotation's text, or the first syntax error.
pub open spec fn spec_parse_kv(s: Seq<char>) -> Result<Seq<KvPairView>, (KvErrorKind, int, int)> {
    spec_parse_pairs_from(s, 0, Seq::empty())
}

// ---------------------------------------------------------------------------
// The parser

/// The character classes the scanner runs over.
#[derive(Clone, Copy)]
pub enum CharClass {
    Ws,
    Key,
    Token,
    Unquote,
    ColonFree,
}

pub open spec fn class_pred(k: CharClass) -> spec_fn(char) -> bool {
    match k {
        CharClass::Ws => ws_pred(),
        CharClass::Key => key_pred(),
        CharClass::Token => token_pred(),
        CharClass::Unquote => unquote_pred(),
        CharClass::ColonFree => colon_free_pred(),
    }
}

fn is_alpha_exec(c: char) -> (b: bool)
    ensures
        b == is_alpha(c),
{
    ('a' <= c && c <= 'z') || ('A' <= c && c <= 'Z')
}

fn is_dec_exec(c: char) -> (b: bool)
    ensures
        b == is_dec_digit(c),
{
    '0' <= c && c <= '9'
}

fn in_class(c: char, k: CharClass) -> (b: bool)
    ensures
        b == class_pred(k)(c),
{
    match k {
        CharClass::Ws => c == ' ' || c == '\t',
        CharClass::Key => is_alpha_exec(c) || c == '_' || is_dec_exec(c),
        CharClass::Token => !(c == ' ' || c == '\t'),
        CharClass::Unquote => c != '"',
        CharClass::ColonFree => c != ':',
    }
}

/// The first position at or after `pos` that is not in class `k`.
fn scan_run(s: &[char], pos: usize, k: CharClass) -> (r: usize)
    requires
        pos <= s@.len(),
    ensures
        r == run_end(s@, pos as int, class_pred(k)),
        pos <= r <= s@.len(),
{
    let mut i: usize = pos;
    while i < s.len() && in_class(s[i], k)
        invariant
            pos <= i <= s@.len(),
            run_end(s@, i as int, class_pred(k)) == run_end(s@, pos as int, class_pred(k)),
        decreases s@.len() - i,
    {
        i = i + 1;
    }
    i
}

fn copy_range(s: &[char], a: usize, b: usize) -> (r: Vec<char>)
    requires
        a <= b <= s@.len(),
    ensures
        r@ == s@.subrange(a as int, b as int),
{
    let mut out: Vec<char> = Vec::new();
    let mut i: usize = a;
    while i < b
        invariant
            a <= i <= b <= s@.len(),
            out@ == s@.subrange(a as int, i as int),
        decreases b - i,
    {
        out.push(s[i]);
        i = i + 1;
        assert(out@ =~= s@.subrange(a as int, i as int));
    }
    out
}

fn is_digit_of_exec(c: char, radix: u64) -> (b: bool)
    requires
        radix == 2 || radix == 10 || radix == 16,
    ensures
        b == is_digit_of(c, radix as nat),
{
    if radix == 2 {
        c == '0' || c == '1'
    } else if radix == 16 {
        is_dec_exec(c) || ('a' <= c && c <= 'f') || ('A' <= c && c <= 'F')
    } else {
        is_dec_exec(c)
    }
}

fn digit_value_exec(c: char) -> (d: u64)
    ensures
        d == digit_value(c),
        d < 16,
{
    if is_dec_exec(c) {
        (c as u32 - '0' as u32) as u64
    } else if 'a' <= c && c <= 'f' {
        (c as u32 - 'a' as u32 + 10) as u64
    } else if 'A' <= c && c <= 'F' {
        (c as u32 - 'A' as u32 + 10) as u64
    } else {
        0
    }
}

fn all_digits_in(t: &[char], a: usize, b: usize, radix: u64) -> (r: bool)
    requires
        a <= b <= t@.len(),
        radix == 2 || radix == 10 || radix == 16,
    ensures
        r == all_digits(t@.subrange(a as int, b as int), radix as nat),
{
    let mut i: usize = a;
    while i < b
        invariant
            a <= i <= b <= t@.len(),
            radix == 2 || radix == 10 || radix == 16,
            forall|j: int| a <= j < i ==> is_digit_of(#[trigger] t@[j], radix as nat),
        decreases b - i,
    {
        if !is_digit_of_exec(t[i], radix) {
            assert(t@.subrange(a as int, b as int)[i - a] == t@[i as int]);
            return false;
        }
        i = i + 1;
    }
    assert forall|j: int| 0 <= j < t@.subrange(a as int, b as int).len() implies is_digit_of(
        #[trigger] t@.subrange(a as int, b as int)[j],
        radix as nat,
    ) by {
        assert(t@.subrange(a as int, b as int)[j] == t@[a + j]);
    }
    true
}

pub proof fn lemma_digits_value_prefix(ds: Seq<char>, k: int, radix: nat)
    requires
        0 <= k <= ds.len(),
        radix == 2 || radix == 10 || radix == 16,
    ensures
        digits_value(ds.take(k), radix) <= digits_value(ds, radix),
    decreases ds.len(),
{
    if k == ds.len() {
        assert(ds.take(k) =~= ds);
    } else {
        let init = ds.drop_last();
        lemma_digits_value_prefix(init, k, radix);
        assert(init.take(k) =~= ds.take(k));
        let x = digits_value(init, radix);
        assert(x * radix >= x) by (nonlinear_arith)
            requires
                radix >= 1,
        ;
    }
}

/// The outcome of reading a number literal.
pub enum NumParse {
    NotNumber,
    TooLarge,
    Number(u64),
}

/// The value of the digits `t[a..b]`, or `None` if it exceeds `u64::MAX`.
fn digits_value_exec(t: &[char], a: usize, b: usize, radix: u64) -> (r: Option<u64>)
    requires
        a <= b <= t@.len(),
        radix == 2 || radix == 10 || radix == 16,
    ensures
        match r {
            Some(v) => v == digits_value(t@.subrange(a as int, b as int), radix as nat),
            None => !fits_u64(digits_value(t@.subrange(a as int, b as int), radix as nat)),
        },
{
    let mut acc: u64 = 0;
    let mut i: usize = a;
    assert(t@.subrange(a as int, a as int) =~= Seq::<char>::empty());
    while i < b
        invariant
            a <= i <= b <= t@.len(),
            radix == 2 || radix == 10 || radix == 16,
            acc == digits_value(t@.subrange(a as int, i as int), radix as nat),
        decreases b - i,
    {
        let ghost next = t@.subrange(a as int, i + 1);
        assert(next.drop_last() =~= t@.subrange(a as int, i as int));
        assert(next.last() == t@[i as int]);
        assert(t@.subrange(a as int, b as int).take(i + 1 - a) =~= next);
        let d = digit_value_exec(t[i]);
        proof {
            lemma_digits_value_prefix(t@.subrange(a as int, b as int), i + 1 - a, radix as nat);
        }
        match acc.checked_mul(radix) {
            None => {
                assert(digits_value(next, radix as nat) >= acc * radix);
                return None;
            },
            Some(m) => match m.checked_add(d) {
                None => {
                    return None;
                },
                Some(n) => {
                    acc = n;
                },
            },
        }
        i = i + 1;
    }
    Some(acc)
}

/// Reads the number literal `t[a..b]`.
fn parse_number(t: &[char], a: usize, b: usize) -> (r: NumParse)
    requires
        a <= b <= t@.len(),
    ensures
        match r {
            NumParse::NotNumber => number_syntax(t@.subrange(a as int, b as int)) is None,
            NumParse::TooLarge => number_syntax(t@.subrange(a as int, b as int)) is Some
                && !fits_u64(number_value(t@.subrange(a as int, b as int))),
            NumParse::Number(v) => number_syntax(t@.subrange(a as int, b as int)) is Some
                && v == number_value(t@.subrange(a as int, b as int)),
        },
{
    let ghost tt = t@.subrange(a as int, b as int);
    let len = b - a;
    if len > 2 && t[a] == '0' && t[a + 1] == 'x' && all_digits_in(t, a + 2, b, 16) {
        assert(tt.skip(2) =~= t@.subrange(a + 2, b as int));
        match digits_value_exec(t, a + 2, b, 16) {
            Some(v) => NumParse::Number(v),
            None => NumParse::TooLarge,
        }
    } else if len > 2 && t[a] == '0' && t[a + 1] == 'b' && all_digits_in(t, a + 2, b, 2) {
        assert(tt.skip(2) =~= t@.subrange(a + 2, b as int));
        assert(!(tt.len() > 2 && tt[0] == '0' && tt[1] == 'x'));
        match digits_value_exec(t, a + 2, b, 2) {
            Some(v) => NumParse::Number(v),
            None => NumParse::TooLarge,
        }
    } else if len > 0 && all_digits_in(t, a, b, 10) {
        proof {
            if tt.len() > 2 && tt[0] == '0' && (tt[1] == 'x' || tt[1] == 'b') {
                assert(!is_digit_of(tt[1], 10));
            }
        }
        match digits_value_exec(t, a, b, 10) {
            Some(v) => NumParse::Number(v),
            None => NumParse::TooLarge,
        }
    } else {
        proof {
            if tt.len() > 2 && tt[0] == '0' && tt[1] == 'x' {
                assert(tt.skip(2) =~= t@.subrange(a + 2, b as int));
            }
            if tt.len() > 2 && tt[0] == '0' && tt[1] == 'b' {
                assert(tt.skip(2) =~= t@.subrange(a + 2, b as int));
            }
        }
        NumParse::NotNumber
    }
}

fn all_bare(t: &[char]) -> (r: bool)
    ensures
        r == (forall|i: int| 0 <= i < t@.len() ==> is_bare_char(#[trigger] t@[i])),
{
    let mut i: usize = 0;
    while i < t.len()
        invariant
            i <= t@.len(),
            forall|j: int| 0 <= j < i ==> is_bare_char(#[trigger] t@[j]),
        decreases t@.len() - i,
    {
        let c = t[i];
        if c == ' ' || c == '\t' || c == '"' || c == '=' || c == ':' || c == ',' {
            return false;
        }
        i = i + 1;
    }
    true
}

/// The value a token denotes, as [`classify`] states.
fn classify_token(t: &[char]) -> (r: Result<Value, KvErrorKind>)
    ensures
        match r {
            Ok(v) => classify(t@) == Ok::<ValueView, KvErrorKind>(v@),
            Err(k) => classify(t@) == Err::<ValueView, KvErrorKind>(k),
        },
{
    let n = t.len();
    if n == 2 && t[0] == 'R' && t[1] == 'W' {
        assert(t@ =~= seq!['R', 'W']);
        return Ok(Value::Access(Access::RW));
    }
    if n == 2 && t[0] == 'R' && t[1] == 'O' {
        assert(t@ =~= seq!['R', 'O']);
        return Ok(Value::Access(Access::RO));
    }
    if n == 2 && t[0] == 'W' && t[1] == 'O' {
        assert(t@ =~= seq!['W', 'O']);
        return Ok(Value::Access(Access::WO));
    }
    assert(t@ != seq!['R', 'W'] && t@ != seq!['R', 'O'] && t@ != seq!['W', 'O']) by {
        if t@.len() == 2 {
            assert(seq!['R', 'W'][0] == 'R' && seq!['R', 'W'][1] == 'W');
            assert(seq!['R', 'O'][0] == 'R' && seq!['R', 'O'][1] == 'O');
            assert(seq!['W', 'O'][0] == 'W' && seq!['W', 'O'][1] == 'O');
        }
    }
    let colon = scan_run(t, 0, CharClass::ColonFree);
    if colon < n {
        let lo = parse_number(t, 0, colon);
        let hi = parse_number(t, colon + 1, n);
        match (lo, hi) {
            (NumParse::Number(a), NumParse::Number(b)) => Ok(Value::BitRange(BitRange::Span(a, b))),
            (NumParse::NotNumber, _) => Err(KvErrorKind::InvalidBitRange),
            (_, NumParse::NotNumber) => Err(KvErrorKind::InvalidBitRange),
            _ => Err(KvErrorKind::NumberTooLarge),
        }
    } else {
        assert(t@.subrange(0, n as int) =~= t@);
        match parse_number(t, 0, n) {
            NumParse::Number(v) => Ok(Value::BitRange(BitRange::Single(v))),
            NumParse::TooLarge => Err(KvErrorKind::NumberTooLarge),
            NumParse::NotNumber => {
                if all_bare(t) {
                    Ok(Value::Bare(chars_to_string(t, 0, n)))
                } else {
                    Err(KvErrorKind::InvalidValue)
                }
            },
        }
    }
}

/// Reads the value at position `v`, as [`spec_parse_value`] states.
fn parse_value(s: &[char], v: usize) -> (r: Result<(Value, usize), KvError>)
    requires
        v <= s@.len() < usize::MAX,
    ensures
        match r {
            Ok((val, e)) => spec_parse_value(s@, v as int) == Ok::<(ValueView, int), (KvErrorKind, int, int)>((val@, e as int))
                && v < e <= s@.len(),
            Err(err) => spec_parse_value(s@, v as int) == Err::<(ValueView, int), (KvErrorKind, int, int)>(error_view(err))
                && err.start <= err.end <= s@.len() + 1,
        },
{
    if v >= s.len() || s[v] == ' ' || s[v] == '\t' {
        return Err(KvError { kind: KvErrorKind::ExpectedValue, start: v, end: v + 1 });
    }
    if s[v] == '"' {
        let q = scan_run(s, v + 1, CharClass::Unquote);
        if q >= s.len() {
            return Err(KvError { kind: KvErrorKind::UnterminatedQuote, start: v, end: s.len() });
        }
        let items = split_to_strings(s, v + 1, q, ',');
        Ok((Value::QuotedCSV(items), q + 1))
    } else {
        let e = scan_run(s, v, CharClass::Token);
        proof {
            lemma_run_end(s@, v as int, token_pred());
        }
        let tok = copy_range(s, v, e);
        match classify_token(tok.as_slice()) {
            Ok(val) => Ok((val, e)),
            Err(kind) => Err(KvError { kind, start: v, end: e }),
        }
    }
}

/// Reads the pair at position `p`, as [`spec_parse_pair`] states.
fn parse_pair(s: &[char], p: usize) -> (r: Result<(KvPair, usize), KvError>)
    requires
        p < s@.len() < usize::MAX,
    ensures
        match r {
            Ok((pair, e)) => spec_parse_pair(s@, p as int) == Ok::<(KvPairView, int), (KvErrorKind, int, int)>((pair@, e as int))
                && p < e <= s@.len(),
            Err(err) => spec_parse_pair(s@, p as int) == Err::<(KvPairView, int), (KvErrorKind, int, int)>(error_view(err))
                && err.start <= err.end <= s@.len() + 1,
        },
{
    let c = s[p];
    if !(is_alpha_exec(c) || c == '_') {
        return Err(KvError { kind: KvErrorKind::ExpectedKey, start: p, end: p + 1 });
    }
    let k = scan_run(s, p, CharClass::Key);
    if k >= s.len() || s[k] != '=' {
        return Err(KvError { kind: KvErrorKind::ExpectedEquals, start: k, end: k + 1 });
    }
    let key = chars_to_string(s, p, k);
    match parse_value(s, k + 1) {
        Ok((value, e)) => Ok((KvPair { key, value }, e)),
        Err(err) => Err(err),
    }
}

/// Reads the key/value pairs of an annotation's text.
pub fn parse_kv_pairs(s: &[char]) -> (r: Result<Vec<KvPair>, KvError>)
    requires
        s@.len() < usize::MAX,
    ensures
        match r {
            Ok(ps) => spec_parse_kv(s@) == Ok::<Seq<KvPairView>, (KvErrorKind, int, int)>(pairs_view(ps@)),
            Err(e) => spec_parse_kv(s@) == Err::<Seq<KvPairView>, (KvErrorKind, int, int)>(error_view(e))
                && e.start <= e.end <= s@.len() + 1,
        },
{
    let mut pairs: Vec<KvPair> = Vec::new();
    let mut pos: usize = 0;
    assert(pairs_view(pairs@) =~= Seq::<KvPairView>::empty());
    loop
        invariant
            pos <= s@.len() < usize::MAX,
            spec_parse_pairs_from(s@, pos as int, pairs_view(pairs@)) == spec_parse_kv(s@),
        decreases s@.len() - pos,
    {
        let p = scan_run(s, pos, CharClass::Ws);
        if p >= s.len() {
            return Ok(pairs);
        }
        if pairs.len() > 0 && p == pos {
            return Err(KvError { kind: KvErrorKind::ExpectedWhitespace, start: pos, end: pos + 1 });
        }
        match parse_pair(s, p) {
            Ok((pair, e)) => {
                let ghost before = pairs_view(pairs@);
                pairs.push(pair);
                assert(pairs_view(pairs@) =~= before.push(pair@));
                pos = e;
            },
            Err(err) => {
                return Err(err);
            },
        }
    }
}

} // verus!
