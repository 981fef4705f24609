//! Rendering a frequency table as a histogram.
use vstd::prelude::*;
use vstd::string::*;

use crate::freqs::{distinct_keys, listing, pairs_view};

verus! {

/// `a` comes strictly before `b` in lexicographic order of their characters.
pub open spec fn lex_less(a: Seq<char>, b: Seq<char>) -> bool
    decreases a.len(),
{
    if a.len() == 0 {
        b.len() > 0
    } else if b.len() == 0 {
        false
    } else if a[0] != b[0] {
        (a[0] as int) < (b[0] as int)
    } else {
        lex_less(a.drop_first(), b.drop_first())
    }
}

/// Row `p` is shown before row `q`: by count, largest first, and then by unit in
/// lexicographic order.
pub open spec fn before(p: (Seq<char>, nat), q: (Seq<char>, nat)) -> bool {
    p.1 > q.1 || (p.1 == q.1 && lex_less(p.0, q.0))
}

/// The rows are in display order.
pub open spec fn in_order(s: Seq<(Seq<char>, nat)>) -> bool {
    forall|i: int, j: int| 0 <= i < j < s.len() ==> before(#[trigger] s[i], #[trigger] s[j])
}

proof fn lemma_lex_transitive(a: Seq<char>, b: Seq<char>, c: Seq<char>)
    requires
        lex_less(a, b),
        lex_less(b, c),
    ensures
        lex_less(a, c),
    decreases a.len(),
{
    if a.len() > 0 && b.len() > 0 && c.len() > 0 && a[0] == b[0] && b[0] == c[0] {
        lemma_lex_transitive(a.drop_first(), b.drop_first(), c.drop_first());
    }
}

proof fn lemma_lex_total(a: Seq<char>, b: Seq<char>)
    requires
        a != b,
    ensures
        lex_less(a, b) || lex_less(b, a),
    decreases a.len(),
{
    if a.len() == 0 {
        assert(b.len() != 0) by {
            if b.len() == 0 {
                assert(a =~= b);
            }
        }
    } else if b.len() == 0 {
    } else if a[0] != b[0] {
    } else {
        assert(a =~= seq![a[0]] + a.drop_first());
        assert(b =~= seq![b[0]] + b.drop_first());
        lemma_lex_total(a.drop_first(), b.drop_first());
    }
}

proof fn lemma_before_transitive(p: (Seq<char>, nat), q: (Seq<char>, nat), r: (Seq<char>, nat))
    requires
        before(p, q),
        before(q, r),
    ensures
        before(p, r),
{
    if p.1 == q.1 && q.1 == r.1 {
        lemma_lex_transitive(p.0, q.0, r.0);
    }
}

proof fn lemma_before_total(p: (Seq<char>, nat), q: (Seq<char>, nat))
    requires
        p.0 != q.0,
    ensures
        before(p, q) || before(q, p),
{
    lemma_lex_total(p.0, q.0);
}

proof fn lemma_lex_asymmetric(a: Seq<char>, b: Seq<char>)
    requires
        lex_less(a, b),
    ensures
        !lex_less(b, a),
    decreases a.len(),
{
    if a.len() > 0 && b.len() > 0 && a[0] == b[0] {
        lemma_lex_asymmetric(a.drop_first(), b.drop_first());
    }
}

proof fn lemma_before_asymmetric(p: (Seq<char>, nat), q: (Seq<char>, nat))
    requires
        before(p, q),
    ensures
        !before(q, p),
{
    if p.1 == q.1 {
        lemma_lex_asymmetric(p.0, q.0);
    }
}

/// There is one display order of a set of rows: two sequences in display order
/// that hold the same rows are equal.
pub proof fn lemma_display_order_unique(a: Seq<(Seq<char>, nat)>, b: Seq<(Seq<char>, nat)>)
    requires
        in_order(a),
        in_order(b),
        same_rows(a, b),
    ensures
        a == b,
    decreases a.len(),
{
    if a.len() == 0 {
        if b.len() > 0 {
            assert(a.contains(b[0]));
        }
        assert(a =~= b);
    } else {
        if b.len() == 0 {
            assert(b.contains(a[0]));
        }
        assert(b.contains(a[0]));
        assert(a.contains(b[0]));
        let j = choose|j: int| 0 <= j < b.len() && b[j] == a[0];
        let i = choose|i: int| 0 <= i < a.len() && a[i] == b[0];
        if j > 0 && i > 0 {
            assert(before(b[0], b[j]));
            assert(before(a[0], a[i]));
            lemma_before_asymmetric(a[0], b[0]);
        } else if j > 0 {
            assert(before(b[0], b[j]));
            lemma_before_asymmetric(b[0], b[0]);
        } else if i > 0 {
            assert(before(a[0], a[i]));
            lemma_before_asymmetric(a[0], a[0]);
        }
        assert(a[0] == b[0]);
        let a1 = a.drop_first();
        let b1 = b.drop_first();
        assert forall|t: int| 0 <= t < a1.len() implies b1.contains(#[trigger] a1[t]) by {
            assert(a[t + 1] == a1[t]);
            assert(b.contains(a[t + 1]));
            let l = choose|l: int| 0 <= l < b.len() && b[l] == a[t + 1];
            if l == 0 {
                assert(before(a[0], a[t + 1]));
                lemma_before_asymmetric(a[0], a[0]);
            }
            assert(b1[l - 1] == a1[t]);
        }
        assert forall|l: int| 0 <= l < b1.len() implies a1.contains(#[trigger] b1[l]) by {
            assert(b[l + 1] == b1[l]);
            assert(a.contains(b[l + 1]));
            let t = choose|t: int| 0 <= t < a.len() && a[t] == b[l + 1];
            if t == 0 {
                assert(before(b[0], b[l + 1]));
                lemma_before_asymmetric(b[0], b[0]);
            }
            assert(a1[t - 1] == b1[l]);
        }
        assert(in_order(a1)) by {
            assert forall|x: int, y: int| 0 <= x < y < a1.len() implies before(#[trigger] a1[x], #[trigger] a1[y]) by {
                assert(a1[x] == a[x + 1] && a1[y] == a[y + 1]);
            }
        }
        assert(in_order(b1)) by {
            assert forall|x: int, y: int| 0 <= x < y < b1.len() implies before(#[trigger] b1[x], #[trigger] b1[y]) by {
                assert(b1[x] == b[x + 1] && b1[y] == b[y + 1]);
            }
        }
        lemma_display_order_unique(a1, b1);
        assert(a =~= seq![a[0]] + a1);
        assert(b =~= seq![b[0]] + b1);
    }
}

/// Two listings of one table in display order are equal, so the histogram of a table
/// is determined by the table.
pub proof fn lemma_listing_order_unique(a: Seq<(Seq<char>, nat)>, b: Seq<(Seq<char>, nat)>, m: Map<Seq<char>, nat>)
    requires
        listing(a, m),
        listing(b, m),
        in_order(a),
        in_order(b),
    ensures
        a == b,
{
    assert forall|t: int| 0 <= t < a.len() implies b.contains(#[trigger] a[t]) by {
        assert(m.contains_key(a[t].0));
        let l = choose|l: int| 0 <= l < b.len() && b[l].0 == a[t].0;
        assert(m.contains_key(b[l].0));
        assert(b[l] == a[t]);
    }
    assert forall|l: int| 0 <= l < b.len() implies a.contains(#[trigger] b[l]) by {
        assert(m.contains_key(b[l].0));
        let t = choose|t: int| 0 <= t < a.len() && a[t].0 == b[l].0;
        assert(m.contains_key(a[t].0));
        assert(a[t] == b[l]);
    }
    lemma_display_order_unique(a, b);
}

/// Whether `a` comes strictly before `b` in lexicographic order of their characters.
pub fn key_less(a: &str, b: &str) -> (r: bool)
    ensures
        r == lex_less(a@, b@),
{
    let na = a.unicode_len();
    let nb = b.unicode_len();
    let mut i: usize = 0;
    assert(a@.skip(0) =~= a@);
    assert(b@.skip(0) =~= b@);
    while i < na && i < nb
        invariant
            na == a@.len(),
            nb == b@.len(),
            i <= na,
            i <= nb,
            lex_less(a@, b@) == lex_less(a@.skip(i as int), b@.skip(i as int)),
        decreases na - i,
    {
        let ca = a.get_char(i);
        let cb = b.get_char(i);
        assert(a@.skip(i as int)[0] == ca);
        assert(b@.skip(i as int)[0] == cb);
        if ca != cb {
            return (ca as u32) < (cb as u32);
        }
        assert(a@.skip(i as int).drop_first() =~= a@.skip(i + 1));
        assert(b@.skip(i as int).drop_first() =~= b@.skip(i + 1));
        i = i + 1;
    }
    i < nb && i == na
}

/// The two sequences hold the same rows.
pub open spec fn same_rows(a: Seq<(Seq<char>, nat)>, b: Seq<(Seq<char>, nat)>) -> bool {
    &&& forall|t: int| 0 <= t < a.len() ==> b.contains(#[trigger] a[t])
    &&& forall|l: int| 0 <= l < b.len() ==> a.contains(#[trigger] b[l])
}

/// Whether row `p` comes before row `q` in display order.
fn row_before(p: &(String, u32), q: &(String, u32)) -> (r: bool)
    ensures
        r == before((p.0@, p.1 as nat), (q.0@, q.1 as nat)),
{
    if p.1 != q.1 {
        p.1 > q.1
    } else {
        key_less(p.0.as_str(), q.0.as_str())
    }
}

/// Inserting a row where the scan stopped keeps the rows in order and their units distinct.
proof fn lemma_insert_in_order(ov: Seq<(Seq<char>, nat)>, pos: int, xv: (Seq<char>, nat))
    requires
        0 <= pos <= ov.len(),
        in_order(ov),
        distinct_keys(ov),
        forall|t: int| 0 <= t < ov.len() ==> (#[trigger] ov[t]).0 != xv.0,
        forall|t: int| 0 <= t < pos ==> before(#[trigger] ov[t], xv),
        pos < ov.len() ==> before(xv, ov[pos]),
    ensures
        in_order(ov.insert(pos, xv)),
        distinct_keys(ov.insert(pos, xv)),
{
    let nv = ov.insert(pos, xv);
    assert forall|a: int, b: int| 0 <= a < b < nv.len() implies before(
        #[trigger] nv[a],
        #[trigger] nv[b],
    ) by {
        if b < pos {
        } else if b == pos {
        } else if a < pos {
            assert(nv[b] == ov[b - 1]);
            lemma_before_transitive(ov[a], xv, ov[pos]);
            if b - 1 > pos {
                lemma_before_transitive(ov[a], ov[pos], ov[b - 1]);
            }
        } else if a == pos {
            if b - 1 > pos {
                lemma_before_transitive(xv, ov[pos], ov[b - 1]);
            }
        } else {
            assert(nv[a] == ov[a - 1] && nv[b] == ov[b - 1]);
        }
    }
    assert forall|a: int, b: int| 0 <= a < b < nv.len() implies nv[a].0 != nv[b].0 by {
        if b < pos {
        } else if b == pos {
            assert(nv[a] == ov[a]);
        } else if a < pos {
            assert(nv[b] == ov[b - 1]);
        } else if a == pos {
            assert(nv[b] == ov[b - 1]);
        } else {
            assert(nv[a] == ov[a - 1] && nv[b] == ov[b - 1]);
        }
    }
}

/// `ov` holds exactly the first `i` rows of `pv`, in some order.
#[verifier::opaque]
spec fn taken(ov: Seq<(Seq<char>, nat)>, pv: Seq<(Seq<char>, nat)>, i: int) -> bool {
    &&& forall|t: int| 0 <= t < ov.len() ==> exists|l: int| 0 <= l < i && #[trigger] ov[t] == pv[l]
    &&& forall|l: int| 0 <= l < i ==> exists|t: int| 0 <= t < ov.len() && ov[t] == #[trigger] pv[l]
}

/// Inserting the next of the rows `pv` keeps `ov` holding exactly the rows taken so far.
proof fn lemma_insert_taken(ov: Seq<(Seq<char>, nat)>, pv: Seq<(Seq<char>, nat)>, i: int, pos: int)
    requires
        distinct_keys(pv),
        0 <= i < pv.len(),
        0 <= pos <= ov.len(),
        taken(ov, pv, i),
    ensures
        taken(ov.insert(pos, pv[i]), pv, i + 1),
        forall|t: int| 0 <= t < ov.len() ==> (#[trigger] ov[t]).0 != pv[i].0,
{
    reveal(taken);
    assert forall|t: int| 0 <= t < ov.len() implies (#[trigger] ov[t]).0 != pv[i].0 by {
        let l = choose|l: int| 0 <= l < i && ov[t] == pv[l];
    }
    let nv = ov.insert(pos, pv[i]);
    assert forall|t: int| 0 <= t < nv.len() implies exists|l: int|
        0 <= l < i + 1 && #[trigger] nv[t] == pv[l] by {
        if t < pos {
            let l = choose|l: int| 0 <= l < i && ov[t] == pv[l];
        } else if t == pos {
            assert(nv[t] == pv[i]);
        } else {
            assert(nv[t] == ov[t - 1]);
            let l = choose|l: int| 0 <= l < i && ov[t - 1] == pv[l];
        }
    }
    assert forall|l: int| 0 <= l < i + 1 implies exists|t: int|
        0 <= t < nv.len() && nv[t] == #[trigger] pv[l] by {
        if l == i {
            assert(nv[pos] == pv[l]);
        } else {
            let t = choose|t: int| 0 <= t < ov.len() && ov[t] == pv[l];
            if t < pos {
                assert(nv[t] == pv[l]);
            } else {
                assert(nv[t + 1] == pv[l]);
            }
        }
    }
}

/// The rows, with distinct units, put in display order.
pub fn sort_rows(rows: &[(String, u32)]) -> (r: Vec<(String, u32)>)
    requires
        distinct_keys(pairs_view(rows@)),
    ensures
        in_order(pairs_view(r@)),
        distinct_keys(pairs_view(r@)),
        same_rows(pairs_view(r@), pairs_view(rows@)),
{
    let ghost pv = pairs_view(rows@);
    let mut out: Vec<(String, u32)> = Vec::new();
    let n = rows.len();
    let mut i: usize = 0;
    proof {
        reveal(taken);
    }
    while i < n
        invariant
            n == rows@.len(),
            i <= n,
            pv == pairs_view(rows@),
            distinct_keys(pv),
            in_order(pairs_view(out@)),
            distinct_keys(pairs_view(out@)),
            taken(pairs_view(out@), pv, i as int),
        decreases n - i,
    {
        let x = (rows[i].0.clone(), rows[i].1);
        let ghost xv = (x.0@, x.1 as nat);
        let ghost ov = pairs_view(out@);
        assert(xv == pv[i as int]);
        proof {
            lemma_insert_taken(ov, pv, i as int, 0);
        }
        let pos = find_slot(&out, &x);
        out.insert(pos, x);
        proof {
            assert(pairs_view(out@) =~= ov.insert(pos as int, xv));
            lemma_insert_in_order(ov, pos as int, xv);
            lemma_insert_taken(ov, pv, i as int, pos as int);
        }
        i = i + 1;
    }
    proof {
        reveal(taken);
        let ov = pairs_view(out@);
        assert(ov.len() == out@.len());
        assert(pv.len() == rows@.len());
        assert forall|t: int| 0 <= t < ov.len() implies pv.contains(#[trigger] ov[t]) by {
            let l = choose|l: int| 0 <= l < i && #[trigger] ov[t] == pv[l];
            assert(pv[l] == ov[t]);
        }
        assert forall|l: int| 0 <= l < pv.len() implies ov.contains(#[trigger] pv[l]) by {
            let t = choose|t: int| 0 <= t < ov.len() && ov[t] == #[trigger] pv[l];
            assert(ov[t] == pv[l]);
        }
    }
    out
}

/// Where row `x` goes among rows in display order whose units all differ from its own.
fn find_slot(out: &Vec<(String, u32)>, x: &(String, u32)) -> (pos: usize)
    requires
        forall|t: int| 0 <= t < out@.len() ==> (#[trigger] pairs_view(out@)[t]).0 != x.0@,
    ensures
        pos <= out@.len(),
        forall|t: int| 0 <= t < pos ==> before(#[trigger] pairs_view(out@)[t], (x.0@, x.1 as nat)),
        pos < out@.len() ==> before((x.0@, x.1 as nat), pairs_view(out@)[pos as int]),
{
    let ghost ov = pairs_view(out@);
    let ghost xv = (x.0@, x.1 as nat);
    let mut pos: usize = 0;
    while pos < out.len() && !row_before(x, &out[pos])
        invariant
            pos <= out@.len(),
            ov == pairs_view(out@),
            xv == (x.0@, x.1 as nat),
            forall|t: int| 0 <= t < ov.len() ==> (#[trigger] ov[t]).0 != xv.0,
            forall|t: int| 0 <= t < pos ==> before(#[trigger] ov[t], xv),
        decreases out@.len() - pos,
    {
        proof {
            lemma_before_total(xv, ov[pos as int]);
        }
        pos = pos + 1;
    }
    pos
}

/// The most characters that a unit of the rows has; zero for no rows.
pub open spec fn longest(s: Seq<(Seq<char>, nat)>) -> nat
    decreases s.len(),
{
    if s.len() == 0 {
        0
    } else if s.last().0.len() > longest(s.drop_last()) {
        s.last().0.len()
    } else {
        longest(s.drop_last())
    }
}

/// The width of the unit column: the longest unit, or 10 when there are no rows.
pub open spec fn width_of(s: Seq<(Seq<char>, nat)>) -> nat {
    if s.len() == 0 {
        10
    } else {
        longest(s)
    }
}

/// `k` right-aligned in a column of `w` characters, with spaces on its left.
pub open spec fn padded(k: Seq<char>, w: nat) -> Seq<char> {
    if k.len() < w {
        Seq::new((w - k.len()) as nat, |_i: int| ' ') + k
    } else {
        k
    }
}

/// A bar of `c` asterisks.
pub open spec fn stars(c: nat) -> Seq<char> {
    Seq::new(c, |_i: int| '*')
}

/// The line of one row: its unit in the column, a colon, and its bar.
pub open spec fn row_text(p: (Seq<char>, nat), w: nat) -> Seq<char> {
    padded(p.0, w) + seq![':'] + stars(p.1)
}

/// The lines of the rows joined by single line feeds, with none after the last.
pub open spec fn render(s: Seq<(Seq<char>, nat)>, w: nat) -> Seq<char>
    decreases s.len(),
{
    if s.len() == 0 {
        seq![]
    } else if s.len() == 1 {
        row_text(s[0], w)
    } else {
        render(s.drop_last(), w) + seq!['\n'] + row_text(s.last(), w)
    }
}

/// The histogram of rows, in the order given.
pub open spec fn histogram(s: Seq<(Seq<char>, nat)>) -> Seq<char> {
    render(s, width_of(s))
}

/// Rows with the same entries, in some order, list the same table.
pub proof fn lemma_same_rows_listing(a: Seq<(Seq<char>, nat)>, b: Seq<(Seq<char>, nat)>, m: Map<Seq<char>, nat>)
    requires
        listing(a, m),
        same_rows(b, a),
        distinct_keys(b),
    ensures
        listing(b, m),
{
    assert forall|t: int| 0 <= t < b.len() implies #[trigger] m.contains_key(b[t].0) && m[b[t].0] == b[t].1 by {
        assert(a.contains(b[t]));
        let l = choose|l: int| 0 <= l < a.len() && a[l] == b[t];
        assert(m.contains_key(a[l].0));
    }
    assert forall|k: Seq<char>| #[trigger] m.contains_key(k) implies exists|t: int| 0 <= t < b.len() && b[t].0 == k by {
        let l = choose|l: int| 0 <= l < a.len() && a[l].0 == k;
        assert(b.contains(a[l]));
        let t = choose|t: int| 0 <= t < b.len() && b[t] == a[l];
    }
}

/// The width of the unit column for the rows.
fn column_width(rows: &[(String, u32)]) -> (w: usize)
    ensures
        w == width_of(pairs_view(rows@)),
{
    let n = rows.len();
    if n == 0 {
        return 10;
    }
    let ghost pv = pairs_view(rows@);
    let mut w: usize = 0;
    let mut i: usize = 0;
    assert(pv.take(0) =~= Seq::<(Seq<char>, nat)>::empty());
    while i < n
        invariant
            n == rows@.len(),
            pv == pairs_view(rows@),
            i <= n,
            w == longest(pv.take(i as int)),
        decreases n - i,
    {
        let l = rows[i].0.as_str().unicode_len();
        assert(pv.take(i + 1).drop_last() =~= pv.take(i as int));
        if l > w {
            w = l;
        }
        i = i + 1;
    }
    assert(pv.take(n as int) =~= pv);
    w
}

/// Appends `n` copies of the one-character string `piece`.
fn push_repeated(out: &mut String, piece: &str, n: usize)
    requires
        piece@.len() == 1,
    ensures
        final(out)@ == old(out)@ + Seq::new(n as nat, |_i: int| piece@[0]),
{
    let mut i: usize = 0;
    while i < n
        invariant
            piece@.len() == 1,
            i <= n,
            out@ == old(out)@ + Seq::new(i as nat, |_i: int| piece@[0]),
        decreases n - i,
    {
        out.append(piece);
        i = i + 1;
        assert(out@ =~= old(out)@ + Seq::new(i as nat, |_i: int| piece@[0]));
    }
}

/// Appends the line of the row `(key, count)` for a column of `width` characters.
fn push_row(out: &mut String, key: &String, count: u32, width: usize)
    ensures
        final(out)@ == old(out)@ + row_text((key@, count as nat), width as nat),
{
    proof {
        reveal_strlit(" ");
        reveal_strlit(":");
        reveal_strlit("*");
    }
    let len = key.as_str().unicode_len();
    if len < width {
        push_repeated(out, " ", width - len);
    }
    out.append(key.as_str());
    out.append(":");
    push_repeated(out, "*", count as usize);
    assert(out@ =~= old(out)@ + row_text((key@, count as nat), width as nat));
}

/// The histogram of the rows, in the order given.
pub fn render_rows(rows: &[(String, u32)]) -> (r: String)
    ensures
        r@ == histogram(pairs_view(rows@)),
{
    let ghost pv = pairs_view(rows@);
    let width = column_width(rows);
    let mut out = String::new();
    let n = rows.len();
    let mut i: usize = 0;
    assert(pv.take(0) =~= Seq::<(Seq<char>, nat)>::empty());
    while i < n
        invariant
            n == rows@.len(),
            pv == pairs_view(rows@),
            width == width_of(pv),
            i <= n,
            out@ == render(pv.take(i as int), width as nat),
        decreases n - i,
    {
        let ghost before = out@;
        proof {
            reveal_strlit("\n");
        }
        if i > 0 {
            out.append("\n");
            assert(out@ =~= before + seq!['\n']);
        }
        push_row(&mut out, &rows[i].0, rows[i].1, width);
        let ghost next = pv.take(i + 1);
        assert(next.drop_last() =~= pv.take(i as int));
        assert(next.last() == pv[i as int]);
        if i == 0 {
            assert(before =~= Seq::<char>::empty());
            assert(out@ =~= render(next, width as nat));
        } else {
            assert(next.len() > 1);
            assert(render(next, width as nat) == render(pv.take(i as int), width as nat) + seq!['\n']
                + row_text(pv[i as int], width as nat));
            assert(out@ =~= render(next, width as nat));
        }
        i = i + 1;
    }
    assert(pv.take(n as int) =~= pv);
    out
}

} // verus!
