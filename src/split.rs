//! Splitting text into the units that are counted.
use vstd::prelude::*;
use vstd::string::*;

use crate::opts::CountUnit;

verus! {

/// Whether a character has Unicode's White_Space property.
pub uninterp spec fn white_space(c: char) -> bool;

/// Relies on `char::is_whitespace`: whether `c` has the White_Space property.
#[verifier::external_body]
fn is_space(c: char) -> (r: bool)
    ensures
        r == white_space(c),
{
    c.is_whitespace()
}

/// The views of a sequence of strings.
pub open spec fn views(v: Seq<String>) -> Seq<Seq<char>> {
    v.map_values(|s: String| s@)
}

/// One single-character string per character of `s`.
pub open spec fn chars_of(s: Seq<char>) -> Seq<Seq<char>> {
    Seq::new(s.len(), |i: int| seq![s[i]])
}

/// `cur` as a list of at most one word: nothing when it is empty.
pub open spec fn pending(cur: Seq<char>) -> Seq<Seq<char>> {
    if cur.len() > 0 {
        seq![cur]
    } else {
        seq![]
    }
}

/// The maximal runs of unmarked characters of `s` from position `i` on, where
/// `cur` is the run already begun before `i` (`m[j]` marks `s[j]` as a separator).
pub open spec fn runs_from(s: Seq<char>, m: Seq<bool>, i: nat, cur: Seq<char>) -> Seq<Seq<char>>
    decreases s.len() - i,
{
    if i >= s.len() {
        pending(cur)
    } else if m[i as int] {
        pending(cur) + runs_from(s, m, i + 1, seq![])
    } else {
        runs_from(s, m, i + 1, cur.push(s[i as int]))
    }
}

/// The maximal runs of unmarked characters of `s`, in order.
pub open spec fn runs(s: Seq<char>, m: Seq<bool>) -> Seq<Seq<char>> {
    runs_from(s, m, 0, seq![])
}

/// The words of `s`: its maximal runs of non-whitespace characters.
pub open spec fn words_of(s: Seq<char>) -> Seq<Seq<char>> {
    runs(s, s.map_values(|c: char| white_space(c)))
}

/// A line without the carriage return that ended it before its line feed.
pub open spec fn strip_cr(l: Seq<char>) -> Seq<char> {
    if l.len() > 0 && l.last() == '\r' {
        l.drop_last()
    } else {
        l
    }
}

/// The lines of `s` from position `i` on, where `cur` is the part of the current
/// line before `i`. A line ends at `\n` (or `\r\n`); the last line needs no terminator,
/// and nothing follows a final terminator.
pub open spec fn lines_from(s: Seq<char>, i: nat, cur: Seq<char>) -> Seq<Seq<char>>
    decreases s.len() - i,
{
    if i >= s.len() {
        pending(cur)
    } else if s[i as int] == '\n' {
        seq![strip_cr(cur)] + lines_from(s, i + 1, seq![])
    } else {
        lines_from(s, i + 1, cur.push(s[i as int]))
    }
}

/// The lines of `s`, in order.
pub open spec fn lines_of(s: Seq<char>) -> Seq<Seq<char>> {
    lines_from(s, 0, seq![])
}

/// The units of `s` for a counting unit.
pub open spec fn units_of(s: Seq<char>, unit: CountUnit) -> Seq<Seq<char>> {
    match unit {
        CountUnit::Char => chars_of(s),
        CountUnit::Word => words_of(s),
        CountUnit::Line => lines_of(s),
    }
}

/// An owned copy of the characters `from..to` of `text`.
fn slice_chars(text: &str, from: usize, to: usize) -> (r: String)
    requires
        from <= to <= text@.len(),
    ensures
        r@ == text@.subrange(from as int, to as int),
{
    String::from_str(text.substring_char(from, to))
}

/// Splits `text` into one string per character.
pub fn split_chars(text: &str) -> (r: Vec<String>)
    ensures
        views(r@) == chars_of(text@),
{
    let n = text.unicode_len();
    let mut r: Vec<String> = Vec::new();
    let mut i: usize = 0;
    while i < n
        invariant
            n == text@.len(),
            i <= n,
            views(r@) =~= chars_of(text@).take(i as int),
        decreases n - i,
    {
        let ghost before = views(r@);
        let s = slice_chars(text, i, i + 1);
        assert(s@ =~= seq![text@[i as int]]);
        r.push(s);
        assert(views(r@) =~= before.push(s@));
        i = i + 1;
        assert(views(r@) =~= chars_of(text@).take(i as int));
    }
    assert(chars_of(text@).take(n as int) =~= chars_of(text@));
    r
}

/// Splits `text` into its maximal runs of characters whose mark is false;
/// `marks[i]` tells whether the `i`-th character separates runs.
pub fn split_marked(text: &str, marks: &Vec<bool>) -> (r: Vec<String>)
    requires
        marks@.len() == text@.len(),
    ensures
        views(r@) == runs(text@, marks@),
{
    let n = text.unicode_len();
    let mut r: Vec<String> = Vec::new();
    let mut start: usize = 0;
    let mut i: usize = 0;
    assert(views(r@) =~= Seq::<Seq<char>>::empty());
    assert(text@.subrange(0, 0) =~= Seq::<char>::empty());
    while i < n
        invariant
            n == text@.len(),
            marks@.len() == n,
            start <= i <= n,
            views(r@) + runs_from(text@, marks@, i as nat, text@.subrange(start as int, i as int))
                == runs(text@, marks@),
        decreases n - i,
    {
        let ghost cur = text@.subrange(start as int, i as int);
        let ghost before = views(r@);
        if marks[i] {
            if start < i {
                let w = slice_chars(text, start, i);
                r.push(w);
            }
            assert(views(r@) =~= before + pending(cur));
            i = i + 1;
            start = i;
            assert(text@.subrange(start as int, i as int) =~= Seq::<char>::empty());
            assert(before + pending(cur) + runs_from(text@, marks@, i as nat, seq![])
                =~= before + (pending(cur) + runs_from(text@, marks@, i as nat, seq![])));
        } else {
            i = i + 1;
            assert(text@.subrange(start as int, i as int) =~= cur.push(text@[i - 1]));
        }
    }
    let ghost before = views(r@);
    let ghost cur = text@.subrange(start as int, i as int);
    if start < n {
        let w = slice_chars(text, start, n);
        r.push(w);
    }
    assert(views(r@) =~= before + pending(cur));
    r
}

/// Splits `text` into its words: the maximal runs of non-whitespace characters.
pub fn split_words(text: &str) -> (r: Vec<String>)
    ensures
        views(r@) == words_of(text@),
{
    let n = text.unicode_len();
    let ghost all = text@.map_values(|c: char| white_space(c));
    let mut marks: Vec<bool> = Vec::new();
    let mut i: usize = 0;
    while i < n
        invariant
            n == text@.len(),
            all == text@.map_values(|c: char| white_space(c)),
            i <= n,
            marks@ =~= all.take(i as int),
        decreases n - i,
    {
        let space = is_space(text.get_char(i));
        marks.push(space);
        i = i + 1;
        assert(marks@ =~= all.take(i as int));
    }
    assert(all.take(n as int) =~= all);
    split_marked(text, &marks)
}

/// Splits `text` into its lines, without their `\n` or `\r\n` terminators.
pub fn split_lines(text: &str) -> (r: Vec<String>)
    ensures
        views(r@) == lines_of(text@),
{
    let n = text.unicode_len();
    let mut r: Vec<String> = Vec::new();
    let mut start: usize = 0;
    let mut i: usize = 0;
    assert(views(r@) =~= Seq::<Seq<char>>::empty());
    assert(text@.subrange(0, 0) =~= Seq::<char>::empty());
    while i < n
        invariant
            n == text@.len(),
            start <= i <= n,
            views(r@) + lines_from(text@, i as nat, text@.subrange(start as int, i as int))
                == lines_of(text@),
        decreases n - i,
    {
        let ghost cur = text@.subrange(start as int, i as int);
        let ghost before = views(r@);
        let c = text.get_char(i);
        if c == '\n' {
            let mut end: usize = i;
            if start < i {
                let last = text.get_char(i - 1);
                if last == '\r' {
                    end = i - 1;
                }
            }
            let w = slice_chars(text, start, end);
            assert(w@ =~= strip_cr(cur));
            r.push(w);
            assert(views(r@) =~= before + seq![strip_cr(cur)]);
            i = i + 1;
            start = i;
            assert(text@.subrange(start as int, i as int) =~= Seq::<char>::empty());
            assert(before + seq![strip_cr(cur)] + lines_from(text@, i as nat, seq![])
                =~= before + (seq![strip_cr(cur)] + lines_from(text@, i as nat, seq![])));
        } else {
            i = i + 1;
            assert(text@.subrange(start as int, i as int) =~= cur.push(text@[i - 1]));
        }
    }
    let ghost before = views(r@);
    let ghost cur = text@.subrange(start as int, i as int);
    if start < n {
        let w = slice_chars(text, start, n);
        r.push(w);
    }
    assert(views(r@) =~= before + pending(cur));
    r
}

/// Splits `text` into the units of `unit`.
pub fn split_units(text: &str, unit: CountUnit) -> (r: Vec<String>)
    ensures
        views(r@) == units_of(text@, unit),
{
    match unit {
        CountUnit::Char => split_chars(text),
        CountUnit::Word => split_words(text),
        CountUnit::Line => split_lines(text),
    }
}

} // verus!
