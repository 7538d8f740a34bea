//! Character-sequence helpers shared by the scanner and the key/value grammar.
use vstd::prelude::*;

verus! {

/// The first position at or after `pos` whose character does not satisfy `p`
/// (or the length of `s`).
pub open spec fn run_end(s: Seq<char>, pos: int, p: spec_fn(char) -> bool) -> int
    decreases s.len() - pos,
{
    if 0 <= pos < s.len() && p(s[pos]) {
        run_end(s, pos + 1, p)
    } else {
        pos
    }
}

pub proof fn lemma_run_end(s: Seq<char>, pos: int, p: spec_fn(char) -> bool)
    requires
        0 <= pos <= s.len(),
    ensures
        pos <= run_end(s, pos, p) <= s.len(),
        forall|i: int| pos <= i < run_end(s, pos, p) ==> p(#[trigger] s[i]),
        run_end(s, pos, p) < s.len() ==> !p(s[run_end(s, pos, p)]),
    decreases s.len() - pos,
{
    if pos < s.len() && p(s[pos]) {
        lemma_run_end(s, pos + 1, p);
    }
}

/// `s` split at every `sep`, as `str::split` does: `n` separators give
/// `n + 1` pieces, empty ones included.
pub open spec fn split_on(s: Seq<char>, sep: char) -> Seq<Seq<char>>
    decreases s.len(),
{
    if s.len() == 0 {
        seq![Seq::<char>::empty()]
    } else {
        let init = split_on(s.drop_last(), sep);
        if s.last() == sep {
            init.push(Seq::<char>::empty())
        } else {
            init.update(init.len() - 1, init.last().push(s.last()))
        }
    }
}

pub proof fn lemma_split_on_len(s: Seq<char>, sep: char)
    ensures
        split_on(s, sep).len() >= 1,
    decreases s.len(),
{
    if s.len() > 0 {
        lemma_split_on_len(s.drop_last(), sep);
    }
}

/// A text without the separator is a single piece.
pub proof fn lemma_split_on_no_sep(a: Seq<char>, sep: char)
    requires
        forall|i: int| 0 <= i < a.len() ==> a[i] != sep,
    ensures
        split_on(a, sep) == seq![a],
    decreases a.len(),
{
    if a.len() > 0 {
        lemma_split_on_no_sep(a.drop_last(), sep);
        assert(a.drop_last().push(a.last()) =~= a);
    } else {
        assert(a =~= Seq::<char>::empty());
    }
}

/// The first piece of a split ends at the first separator; the pieces
/// after it are those of the rest of the text.
pub proof fn lemma_split_on_first(a: Seq<char>, b: Seq<char>, sep: char)
    requires
        forall|i: int| 0 <= i < a.len() ==> a[i] != sep,
    ensures
        split_on(a + seq![sep] + b, sep) == seq![a] + split_on(b, sep),
    decreases b.len(),
{
    let s = a + seq![sep] + b;
    if b.len() == 0 {
        assert(s.drop_last() =~= a);
        lemma_split_on_no_sep(a, sep);
        assert(seq![a].push(Seq::<char>::empty()) =~= seq![a] + split_on(b, sep));
    } else {
        lemma_split_on_first(a, b.drop_last(), sep);
        assert(s.drop_last() =~= a + seq![sep] + b.drop_last());
        assert(s.last() == b.last());
        lemma_split_on_len(b.drop_last(), sep);
        let x = split_on(b.drop_last(), sep);
        let y = seq![a] + x;
        if b.last() == sep {
            assert(y.push(Seq::<char>::empty()) =~= seq![a] + x.push(Seq::<char>::empty()));
        } else {
            assert(y.update(y.len() - 1, y.last().push(b.last())) =~= seq![a] + x.update(
                x.len() - 1,
                x.last().push(b.last()),
            ));
        }
    }
}

/// No piece of a split is longer than the text, and there is at most one
/// piece more than there are characters.
pub proof fn lemma_split_on_bounds(s: Seq<char>, sep: char)
    ensures
        split_on(s, sep).len() <= s.len() + 1,
        forall|i: int| 0 <= i < split_on(s, sep).len() ==> (#[trigger] split_on(s, sep)[i]).len() <= s.len(),
    decreases s.len(),
{
    if s.len() > 0 {
        lemma_split_on_bounds(s.drop_last(), sep);
        lemma_split_on_len(s.drop_last(), sep);
    }
}

/// The character content of each string of a vector.
pub open spec fn strings_view(v: Seq<String>) -> Seq<Seq<char>> {
    v.map_values(|s: String| s@)
}

/// A `String` holding the characters `start..end` of `cs`.
///
/// Calls std's `FromIterator<char>` for `String`, which appends the
/// characters in order; the contract states exactly that.
#[verifier::external_body]
pub(crate) fn chars_to_string(cs: &[char], start: usize, end: usize) -> (r: String)
    requires
        start <= end <= cs@.len(),
    ensures
        r@ == cs@.subrange(start as int, end as int),
{
    cs[start..end].iter().collect()
}

/// The characters of a string slice, in order.
pub(crate) fn str_to_chars(s: &str) -> (r: Vec<char>)
    ensures
        r@ == s@,
{
    broadcast use vstd::string::axiom_spec_iter;
    let mut out: Vec<char> = Vec::new();
    for c in it: s.chars()
        invariant
            it.seq() == s@,
            out@ == it.seq().take(it.index() as int),
    {
        out.push(c);
        assert(out@ =~= it.seq().take(it.index() + 1));
    }
    assert(out@ =~= s@);
    out
}

/// The pieces of `cs[start..end]` between the separators `sep`, each as a
/// `String`, as `str::split` gives them.
pub fn split_to_strings(cs: &[char], start: usize, end: usize, sep: char) -> (r: Vec<String>)
    requires
        start <= end <= cs@.len(),
    ensures
        strings_view(r@) == split_on(cs@.subrange(start as int, end as int), sep),
{
    let mut out: Vec<String> = Vec::new();
    let mut piece_start: usize = start;
    let mut i: usize = start;
    assert(cs@.subrange(start as int, start as int) =~= Seq::<char>::empty());
    assert(strings_view(out@) =~= Seq::<Seq<char>>::empty());
    while i < end
        invariant
            start <= piece_start <= i <= end <= cs@.len(),
            strings_view(out@).push(cs@.subrange(piece_start as int, i as int))
                == split_on(cs@.subrange(start as int, i as int), sep),
        decreases end - i,
    {
        let ghost prev = cs@.subrange(start as int, i as int);
        let ghost next = cs@.subrange(start as int, i + 1);
        assert(next.drop_last() =~= prev);
        proof {
            lemma_split_on_len(prev, sep);
        }
        let ghost old_views = strings_view(out@);
        assert(next.last() == cs@[i as int]);
        if cs[i] == sep {
            let piece = chars_to_string(cs, piece_start, i);
            out.push(piece);
            assert(strings_view(out@) =~= old_views.push(cs@.subrange(piece_start as int, i as int)));
            assert(cs@.subrange(i + 1, i + 1) =~= Seq::<char>::empty());
            assert(split_on(next, sep) == split_on(prev, sep).push(Seq::<char>::empty()));
            assert(strings_view(out@).push(cs@.subrange(i + 1, i + 1)) =~= split_on(next, sep));
            piece_start = i + 1;
        } else {
            assert(cs@.subrange(piece_start as int, i + 1) =~= cs@.subrange(piece_start as int, i as int).push(cs@[i as int]));
            assert(strings_view(out@).push(cs@.subrange(piece_start as int, i + 1)) =~= split_on(next, sep));
        }
        i = i + 1;
    }
    let last = chars_to_string(cs, piece_start, end);
    out.push(last);
    assert(strings_view(out@) =~= split_on(cs@.subrange(start as int, end as int), sep));
    out
}

} // verus!
