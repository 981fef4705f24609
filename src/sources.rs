//! Counting over several sources of lines, some of which may have failed to be read.
use vstd::prelude::*;

use crate::freqs::{absorb, lemma_listing_tally, ones, pairs_view, tally, Frequency};
use crate::opts::CountUnit;
use crate::split::units_of;

verus! {

/// The table of a sequence of lines: the tables of the lines merged in order.
pub open spec fn lines_tally(lines: Seq<Seq<char>>, unit: CountUnit) -> Map<Seq<char>, nat>
    decreases lines.len(),
{
    if lines.len() == 0 {
        Map::empty()
    } else {
        absorb(lines_tally(lines.drop_last(), unit), tally(ones(units_of(lines.last(), unit))))
    }
}

/// The table of the sources merged in order; a source that could not be read
/// (`None`) adds nothing.
pub open spec fn sources_tally(sources: Seq<Option<Seq<Seq<char>>>>, unit: CountUnit) -> Map<
    Seq<char>,
    nat,
>
    decreases sources.len(),
{
    if sources.len() == 0 {
        Map::empty()
    } else {
        match sources.last() {
            None => sources_tally(sources.drop_last(), unit),
            Some(lines) => absorb(sources_tally(sources.drop_last(), unit), lines_tally(lines, unit)),
        }
    }
}

/// The views of the sources.
pub open spec fn sources_view(sources: Seq<Option<Vec<String>>>) -> Seq<Option<Seq<Seq<char>>>> {
    sources.map_values(
        |o: Option<Vec<String>>|
            match o {
                None => None,
                Some(v) => Some(v@.map_values(|s: String| s@)),
            },
    )
}

/// Merges the table of `other` into `acc`.
fn merge_table(acc: &mut Frequency, other: Frequency)
    requires
        old(acc).wf(),
        other.wf(),
    ensures
        final(acc).wf(),
        final(acc)@ == absorb(old(acc)@, other@),
{
    let ghost m = other@;
    proof {
        other.lemma_table();
    }
    let pairs = other.into_inner();
    proof {
        lemma_listing_tally(pairs_view(pairs@), m);
    }
    acc.merge(pairs.as_slice());
}

/// The table of the lines of one source, each line split by `unit`.
pub fn count_lines(lines: &[String], unit: CountUnit) -> (r: Frequency)
    ensures
        r.wf(),
        r@ == lines_tally(lines@.map_values(|s: String| s@), unit),
{
    let ghost lv = lines@.map_values(|s: String| s@);
    let mut acc = Frequency::new();
    let n = lines.len();
    let mut i: usize = 0;
    assert(lv.take(0) =~= Seq::<Seq<char>>::empty());
    while i < n
        invariant
            n == lines@.len(),
            lv == lines@.map_values(|s: String| s@),
            i <= n,
            acc.wf(),
            acc@ == lines_tally(lv.take(i as int), unit),
        decreases n - i,
    {
        let f = Frequency::builder(lines[i].clone()).by_unit(unit);
        merge_table(&mut acc, f);
        assert(lv.take(i + 1).drop_last() =~= lv.take(i as int));
        i = i + 1;
    }
    assert(lv.take(n as int) =~= lv);
    acc
}

/// The table of all the sources, in order: the table of each source that was read
/// merged into a running total, and nothing from a source that was not (`None`).
pub fn count_sources(sources: &[Option<Vec<String>>], unit: CountUnit) -> (r: Frequency)
    ensures
        r.wf(),
        r@ == sources_tally(sources_view(sources@), unit),
{
    let ghost sv = sources_view(sources@);
    let mut total = Frequency::new();
    let n = sources.len();
    let mut i: usize = 0;
    assert(sv.take(0) =~= Seq::<Option<Seq<Seq<char>>>>::empty());
    while i < n
        invariant
            n == sources@.len(),
            sv == sources_view(sources@),
            i <= n,
            total.wf(),
            total@ == sources_tally(sv.take(i as int), unit),
        decreases n - i,
    {
        assert(sv.take(i + 1).drop_last() =~= sv.take(i as int));
        match &sources[i] {
            None => {},
            Some(lines) => {
                let per_source = count_lines(lines.as_slice(), unit);
                merge_table(&mut total, per_source);
            },
        }
        i = i + 1;
    }
    assert(sv.take(n as int) =~= sv);
    total
}

} // verus!
