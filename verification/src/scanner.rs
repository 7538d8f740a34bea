//! Finding the annotation lines of a VHDL or Verilog source.
//!
//! An annotation is a line that starts with a comment opener, `-- ` (VHDL)
//! or `// ` (Verilog), directly followed by `@reg` or `@field`. Every other
//! line is ignored. Lines are numbered from 0.
use vstd::prelude::*;
use crate::text::split_on;

verus! {

/// Whether an annotation opens a register or adds a field to it.
#[derive(Debug, Clone, Copy, PartialEq, Eq, Structural)]
pub enum AnnotationKind {
    Reg,
    Field,
}

/// An annotation line: its index, its kind, and the text after the keyword.
#[derive(Debug, Clone)]
pub struct RawAnnotation {
    pub line: usize,
    pub kind: AnnotationKind,
    pub content: Vec<char>,
}

/// The mathematical content of a [`RawAnnotation`].
pub struct RawAnnotationView {
    pub line: int,
    pub kind: AnnotationKind,
    pub content: Seq<char>,
}

impl View for RawAnnotation {
    type V = RawAnnotationView;

    open spec fn view(&self) -> RawAnnotationView {
        RawAnnotationView { line: self.line as int, kind: self.kind, content: self.content@ }
    }
}

pub open spec fn annotations_view(v: Seq<RawAnnotation>) -> Seq<RawAnnotationView> {
    v.map_values(|a: RawAnnotation| a@)
}

/// Length of the text before the key/value list of an annotation: the
/// comment opener and the keyword.
pub open spec fn spec_pre_offset(kind: AnnotationKind) -> int {
    match kind {
        AnnotationKind::Reg => 7,
        AnnotationKind::Field => 9,
    }
}

impl RawAnnotation {
    /// The column at which the annotation's key/value list starts.
    pub fn pre_offset(&self) -> (r: usize)
        ensures
            r == spec_pre_offset(self.kind),
    {
        match self.kind {
            AnnotationKind::Reg => 7,
            AnnotationKind::Field => 9,
        }
    }
}

pub open spec fn starts_with(s: Seq<char>, p: Seq<char>) -> bool {
    s.len() >= p.len() && s.subrange(0, p.len() as int) == p
}

pub open spec fn strip_cr(l: Seq<char>) -> Seq<char> {
    if l.len() > 0 && l.last() == '\r' {
        l.drop_last()
    } else {
        l
    }
}

/// The lines of a text as `str::lines` gives them: split at `\n`, a `\r`
/// before the `\n` removed, and no empty line after a final `\n`.
pub open spec fn spec_lines(s: Seq<char>) -> Seq<Seq<char>> {
    let parts = split_on(s, '\n');
    let n: int = if parts.last().len() == 0 { parts.len() - 1 } else { parts.len() as int };
    Seq::new(
        n as nat,
        |i: int|
            if i < parts.len() - 1 {
                strip_cr(parts[i])
            } else {
                parts[i]
            },
    )
}

/// A line ends at the first `\n` of the text, and a `\r` right before that
/// `\n` is not part of it (as `str::lines` has it); the lines after it are
/// those of the rest of the text.
pub proof fn lemma_lines_split_at_newline(a: Seq<char>, b: Seq<char>)
    requires
        forall|i: int| 0 <= i < a.len() ==> a[i] != '\n',
    ensures
        spec_lines(a + seq!['\n'] + b) == seq![
            if a.len() > 0 && a.last() == '\r' {
                a.drop_last()
            } else {
                a
            },
        ] + spec_lines(b),
{
    crate::text::lemma_split_on_first(a, b, '\n');
    crate::text::lemma_split_on_len(b, '\n');
    let whole = spec_lines(a + seq!['\n'] + b);
    let want = seq![strip_cr(a)] + spec_lines(b);
    assert(whole.len() == want.len());
    assert forall|i: int| 0 <= i < whole.len() implies whole[i] == want[i] by {
        if i > 0 {
            assert(want[i] == spec_lines(b)[i - 1]);
        }
    }
    assert(whole =~= want);
}

/// A text with no `\n` is one line as it stands (a final `\r` stays, as no
/// `\n` follows it), or no line at all when it is empty.
pub proof fn lemma_lines_without_newline(a: Seq<char>)
    requires
        forall|i: int| 0 <= i < a.len() ==> a[i] != '\n',
    ensures
        spec_lines(a) == (if a.len() == 0 {
            Seq::<Seq<char>>::empty()
        } else {
            seq![a]
        }),
{
    crate::text::lemma_split_on_no_sep(a, '\n');
    if a.len() == 0 {
        assert(spec_lines(a) =~= Seq::<Seq<char>>::empty());
    } else {
        assert(spec_lines(a) =~= seq![a]);
    }
}

/// The text of a line after its comment opener, if it has one.
pub open spec fn strip_comment(l: Seq<char>) -> Option<Seq<char>> {
    if starts_with(l, seq!['-', '-', ' ']) || starts_with(l, seq!['/', '/', ' ']) {
        Some(l.skip(3))
    } else {
        None
    }
}

/// The kind and content of an annotation line, or `None` for another line.
pub open spec fn line_annotation(l: Seq<char>) -> Option<(AnnotationKind, Seq<char>)> {
    match strip_comment(l) {
        Some(r) => if starts_with(r, seq!['@', 'r', 'e', 'g']) {
            Some((AnnotationKind::Reg, r.skip(4)))
        } else if starts_with(r, seq!['@', 'f', 'i', 'e', 'l', 'd']) {
            Some((AnnotationKind::Field, r.skip(6)))
        } else {
            None
        },
        None => None,
    }
}

/// The annotations among `lines`, in order, each with its line index.
pub open spec fn spec_scan_lines(lines: Seq<Seq<char>>) -> Seq<RawAnnotationView>
    decreases lines.len(),
{
    if lines.len() == 0 {
        Seq::empty()
    } else {
        let init = spec_scan_lines(lines.drop_last());
        match line_annotation(lines.last()) {
            Some((kind, content)) => init.push(
                RawAnnotationView { line: lines.len() - 1, kind, content },
            ),
            None => init,
        }
    }
}

/// The annotations of a source text.
pub open spec fn spec_scan(s: Seq<char>) -> Seq<RawAnnotationView> {
    spec_scan_lines(spec_lines(s))
}

/// A text has at most one line more than characters, and no line is longer
/// than the text; so no annotation's content is.
pub proof fn lemma_scan_bounds(s: Seq<char>)
    ensures
        spec_lines(s).len() <= s.len() + 1,
        forall|i: int| 0 <= i < spec_lines(s).len() ==> (#[trigger] spec_lines(s)[i]).len() <= s.len(),
        forall|i: int| 0 <= i < spec_scan(s).len() ==> (#[trigger] spec_scan(s)[i]).content.len() <= s.len()
            && 0 <= spec_scan(s)[i].line < spec_lines(s).len(),
{
    crate::text::lemma_split_on_bounds(s, '\n');
    crate::text::lemma_split_on_len(s, '\n');
    lemma_scan_lines_bounds(spec_lines(s), s.len() as int);
}

proof fn lemma_scan_lines_bounds(lines: Seq<Seq<char>>, n: int)
    requires
        forall|i: int| 0 <= i < lines.len() ==> (#[trigger] lines[i]).len() <= n,
    ensures
        forall|i: int| 0 <= i < spec_scan_lines(lines).len() ==> (#[trigger] spec_scan_lines(lines)[i]).content.len() <= n
            && 0 <= spec_scan_lines(lines)[i].line < lines.len(),
    decreases lines.len(),
{
    if lines.len() > 0 {
        let init = lines.drop_last();
        lemma_scan_lines_bounds(init, n);
        assert(lines.last() == lines[lines.len() - 1]);
    }
}

/// Where an annotation's content starts: on its line, after the comment
/// opener and the keyword, at the column [`spec_pre_offset`] gives, for
/// `-- ` and `// ` comments alike.
pub proof fn lemma_pre_offset_is_content_column(s: Seq<char>, i: int)
    requires
        0 <= i < spec_scan(s).len(),
    ensures
        0 <= spec_scan(s)[i].line < spec_lines(s).len(),
        spec_pre_offset(spec_scan(s)[i].kind) <= spec_lines(s)[spec_scan(s)[i].line].len(),
        spec_lines(s)[spec_scan(s)[i].line].skip(spec_pre_offset(spec_scan(s)[i].kind)) == spec_scan(s)[i].content,
{
    lemma_scan_lines_content(spec_lines(s), i);
}

proof fn lemma_scan_lines_content(lines: Seq<Seq<char>>, i: int)
    requires
        0 <= i < spec_scan_lines(lines).len(),
    ensures
        0 <= spec_scan_lines(lines)[i].line < lines.len(),
        spec_pre_offset(spec_scan_lines(lines)[i].kind) <= lines[spec_scan_lines(lines)[i].line].len(),
        lines[spec_scan_lines(lines)[i].line].skip(spec_pre_offset(spec_scan_lines(lines)[i].kind))
            == spec_scan_lines(lines)[i].content,
    decreases lines.len(),
{
    let init = lines.drop_last();
    lemma_scan_lines_len(init);
    if i < spec_scan_lines(init).len() {
        lemma_scan_lines_content(init, i);
        assert(spec_scan_lines(lines)[i] == spec_scan_lines(init)[i]);
        assert(lines[spec_scan_lines(init)[i].line] == init[spec_scan_lines(init)[i].line]);
    } else {
        let l = lines.last();
        let r = l.skip(3);
        assert(lines[lines.len() - 1] == l);
        match line_annotation(l) {
            Some((kind, content)) => {
                if starts_with(r, seq!['@', 'r', 'e', 'g']) {
                    assert(l.skip(7) =~= r.skip(4));
                } else {
                    assert(l.skip(9) =~= r.skip(6));
                }
            },
            None => {},
        }
    }
}

/// There are no more annotations than lines.
pub proof fn lemma_scan_len(s: Seq<char>)
    ensures
        spec_scan(s).len() <= spec_lines(s).len(),
{
    lemma_scan_lines_len(spec_lines(s));
}

proof fn lemma_scan_lines_len(lines: Seq<Seq<char>>)
    ensures
        spec_scan_lines(lines).len() <= lines.len(),
    decreases lines.len(),
{
    if lines.len() > 0 {
        lemma_scan_lines_len(lines.drop_last());
    }
}

pub open spec fn ranges_view(s: Seq<char>, r: Seq<(usize, usize)>) -> Seq<Seq<char>> {
    r.map_values(|p: (usize, usize)| s.subrange(p.0 as int, p.1 as int))
}

/// The position ranges of the pieces of `s` between the separators `sep`.
fn split_ranges(s: &[char], sep: char) -> (r: Vec<(usize, usize)>)
    ensures
        ranges_view(s@, r@) == split_on(s@, sep),
        forall|i: int| 0 <= i < r@.len() ==> (#[trigger] r@[i]).0 <= r@[i].1 <= s@.len(),
{
    let mut out: Vec<(usize, usize)> = Vec::new();
    let mut piece_start: usize = 0;
    let mut i: usize = 0;
    assert(s@.subrange(0, 0) =~= Seq::<char>::empty());
    assert(ranges_view(s@, out@) =~= Seq::<Seq<char>>::empty());
    while i < s.len()
        invariant
            piece_start <= i <= s@.len(),
            ranges_view(s@, out@).push(s@.subrange(piece_start as int, i as int)) == split_on(
                s@.subrange(0, i as int),
                sep,
            ),
            forall|j: int| 0 <= j < out@.len() ==> (#[trigger] out@[j]).0 <= out@[j].1 <= s@.len(),
        decreases s@.len() - i,
    {
        let ghost prev = s@.subrange(0, i as int);
        let ghost next = s@.subrange(0, i + 1);
        let ghost old_views = ranges_view(s@, out@);
        assert(next.drop_last() =~= prev);
        assert(next.last() == s@[i as int]);
        proof {
            crate::text::lemma_split_on_len(prev, sep);
        }
        if s[i] == sep {
            out.push((piece_start, i));
            assert(ranges_view(s@, out@) =~= old_views.push(s@.subrange(piece_start as int, i as int)));
            assert(s@.subrange(i + 1, i + 1) =~= Seq::<char>::empty());
            assert(split_on(next, sep) == split_on(prev, sep).push(Seq::<char>::empty()));
            assert(ranges_view(s@, out@).push(s@.subrange(i + 1, i + 1)) =~= split_on(next, sep));
            piece_start = i + 1;
        } else {
            assert(s@.subrange(piece_start as int, i + 1) =~= s@.subrange(piece_start as int, i as int).push(s@[i as int]));
            assert(ranges_view(s@, out@).push(s@.subrange(piece_start as int, i + 1)) =~= split_on(next, sep));
        }
        i = i + 1;
    }
    let ghost old_views = ranges_view(s@, out@);
    out.push((piece_start, s.len()));
    assert(ranges_view(s@, out@) =~= old_views.push(s@.subrange(piece_start as int, s@.len() as int)));
    assert(s@.subrange(0, s@.len() as int) =~= s@);
    out
}

fn copy_range(s: &[char], a: usize, b: usize) -> (r: Vec<char>)
    requires
        a <= b <= s@.len(),
    ensures
        r@ == s@.subrange(a as int, b as int),
{
    let mut out: Vec<char> = Vec::new();
    let mut i: usize = a;
    while i < b
        invariant
            a <= i <= b <= s@.len(),
            out@ == s@.subrange(a as int, i as int),
        decreases b - i,
    {
        out.push(s[i]);
        i = i + 1;
        assert(out@ =~= s@.subrange(a as int, i as int));
    }
    out
}

pub open spec fn lines_view(v: Seq<Vec<char>>) -> Seq<Seq<char>> {
    v.map_values(|l: Vec<char>| l@)
}

/// The lines of a text, as [`spec_lines`] states.
pub fn split_lines(s: &[char]) -> (r: Vec<Vec<char>>)
    ensures
        lines_view(r@) == spec_lines(s@),
{
    let ranges = split_ranges(s, '\n');
    let ghost parts = split_on(s@, '\n');
    proof {
        crate::text::lemma_split_on_len(s@, '\n');
    }
    let n = ranges.len();
    let mut out: Vec<Vec<char>> = Vec::new();
    let mut i: usize = 0;
    assert(lines_view(out@) =~= spec_lines(s@).take(0));
    while i + 1 < n
        invariant
            n == ranges@.len() == parts.len() >= 1,
            parts == ranges_view(s@, ranges@),
            parts == split_on(s@, '\n'),
            forall|j: int| 0 <= j < ranges@.len() ==> (#[trigger] ranges@[j]).0 <= ranges@[j].1 <= s@.len(),
            i + 1 <= n,
            lines_view(out@) == spec_lines(s@).take(i as int),
        decreases n - i,
    {
        let (a, b) = ranges[i];
        assert(parts[i as int] == s@.subrange(a as int, b as int));
        let line = if b > a && s[b - 1] == '\r' {
            assert(s@.subrange(a as int, b - 1) =~= s@.subrange(a as int, b as int).drop_last());
            copy_range(s, a, b - 1)
        } else {
            copy_range(s, a, b)
        };
        let ghost old_views = lines_view(out@);
        out.push(line);
        assert(lines_view(out@) =~= old_views.push(line@));
        i = i + 1;
        assert(spec_lines(s@).take(i as int) =~= spec_lines(s@).take(i - 1).push(spec_lines(s@)[i - 1]));
    }
    let (a, b) = ranges[n - 1];
    assert(parts[n - 1] == s@.subrange(a as int, b as int));
    if b > a {
        let line = copy_range(s, a, b);
        let ghost old_views = lines_view(out@);
        out.push(line);
        assert(lines_view(out@) =~= old_views.push(line@));
        assert(spec_lines(s@) =~= spec_lines(s@).take(n - 1).push(spec_lines(s@)[n - 1]));
    } else {
        assert(spec_lines(s@) =~= spec_lines(s@).take(n - 1));
    }
    out
}

fn starts_with_exec(l: &[char], p: &[char]) -> (r: bool)
    ensures
        r == starts_with(l@, p@),
{
    if l.len() < p.len() {
        return false;
    }
    let mut i: usize = 0;
    while i < p.len()
        invariant
            i <= p@.len() <= l@.len(),
            forall|j: int| 0 <= j < i ==> l@[j] == p@[j],
        decreases p@.len() - i,
    {
        if l[i] != p[i] {
            assert(l@.subrange(0, p@.len() as int)[i as int] != p@[i as int]);
            return false;
        }
        i = i + 1;
    }
    assert(l@.subrange(0, p@.len() as int) =~= p@);
    true
}

fn starts_with_at(l: &[char], at: usize, p: &[char]) -> (r: bool)
    requires
        at <= l@.len(),
    ensures
        r == starts_with(l@.skip(at as int), p@),
{
    let n = l.len();
    if n - at < p.len() {
        return false;
    }
    let mut i: usize = 0;
    while i < p.len()
        invariant
            n == l@.len(),
            at <= l@.len(),
            i <= p@.len(),
            at + p@.len() <= l@.len(),
            forall|j: int| 0 <= j < i ==> l@[at + j] == p@[j],
        decreases p@.len() - i,
    {
        if l[at + i] != p[i] {
            assert(l@.skip(at as int).subrange(0, p@.len() as int)[i as int] != p@[i as int]);
            return false;
        }
        i = i + 1;
    }
    assert(l@.skip(at as int).subrange(0, p@.len() as int) =~= p@);
    true
}

/// The kind and content of an annotation line, as [`line_annotation`] states.
fn annotation_of_line(l: &[char]) -> (r: Option<(AnnotationKind, Vec<char>)>)
    ensures
        match r {
            Some((kind, content)) => line_annotation(l@) == Some((kind, content@)),
            None => line_annotation(l@) is None,
        },
{
    let vhdl = ['-', '-', ' '];
    let verilog = ['/', '/', ' '];
    let reg = ['@', 'r', 'e', 'g'];
    let field = ['@', 'f', 'i', 'e', 'l', 'd'];
    assert(vhdl@ =~= seq!['-', '-', ' ']);
    assert(verilog@ =~= seq!['/', '/', ' ']);
    assert(reg@ =~= seq!['@', 'r', 'e', 'g']);
    assert(field@ =~= seq!['@', 'f', 'i', 'e', 'l', 'd']);
    if !(starts_with_exec(l, &vhdl) || starts_with_exec(l, &verilog)) {
        return None;
    }
    assert(l@.len() >= 3);
    if starts_with_at(l, 3, &reg) {
        assert(l@.skip(3).skip(4) =~= l@.skip(7));
        let content = copy_range(l, 7, l.len());
        assert(content@ =~= l@.skip(7));
        Some((AnnotationKind::Reg, content))
    } else if starts_with_at(l, 3, &field) {
        assert(l@.skip(3).skip(6) =~= l@.skip(9));
        let content = copy_range(l, 9, l.len());
        assert(content@ =~= l@.skip(9));
        Some((AnnotationKind::Field, content))
    } else {
        None
    }
}

/// The annotations of a source text, in order, as [`spec_scan`] states.
pub fn scan(input: &[char]) -> (r: Vec<RawAnnotation>)
    ensures
        annotations_view(r@) == spec_scan(input@),
        forall|i: int| 0 <= i < r@.len() ==> (#[trigger] r@[i]).line < spec_lines(input@).len(),
{
    let lines = split_lines(input);
    let ghost ls = spec_lines(input@);
    let mut out: Vec<RawAnnotation> = Vec::new();
    let mut idx: usize = 0;
    assert(ls.take(0) =~= Seq::<Seq<char>>::empty());
    assert(annotations_view(out@) =~= Seq::<RawAnnotationView>::empty());
    while idx < lines.len()
        invariant
            lines_view(lines@) == ls,
            ls == spec_lines(input@),
            idx <= lines@.len(),
            annotations_view(out@) == spec_scan_lines(ls.take(idx as int)),
            forall|i: int| 0 <= i < out@.len() ==> (#[trigger] out@[i]).line < idx,
        decreases lines@.len() - idx,
    {
        let ghost prefix = ls.take(idx + 1);
        assert(prefix.drop_last() =~= ls.take(idx as int));
        assert(prefix.last() == lines@[idx as int]@);
        let ghost old_views = annotations_view(out@);
        match annotation_of_line(lines[idx].as_slice()) {
            Some((kind, content)) => {
                out.push(RawAnnotation { line: idx, kind, content });
                assert(annotations_view(out@) =~= old_views.push(out@[out@.len() - 1]@));
            },
            None => {},
        }
        idx = idx + 1;
    }
    assert(ls.take(lines@.len() as int) =~= ls);
    out
}

} // verus!
