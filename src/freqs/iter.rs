//! Walking through the entries of a table.
use vstd::prelude::*;

use super::pairs_view;

verus! {

/// The entries of a table that are still to come, each unit with its count.
pub struct FrequencyIter {
    items: Vec<(String, u32)>,
    pos: usize,
}

impl View for FrequencyIter {
    type V = Seq<(Seq<char>, nat)>;

    closed spec fn view(&self) -> Seq<(Seq<char>, nat)> {
        pairs_view(self.items@).skip(self.pos as int)
    }
}

impl FrequencyIter {
    /// The position lies within the entries.
    pub closed spec fn wf(&self) -> bool {
        self.pos <= self.items@.len()
    }

    /// An iterator over `items`, from the first on.
    pub(crate) fn from_pairs(items: Vec<(String, u32)>) -> (r: FrequencyIter)
        ensures
            r.wf(),
            r@ == pairs_view(items@),
    {
        let r = FrequencyIter { items, pos: 0 };
        assert(r@ =~= pairs_view(items@));
        r
    }

    /// The next entry, or `None` once all of them have come.
    pub fn next(&mut self) -> (r: Option<(String, u32)>)
        requires
            old(self).wf(),
        ensures
            final(self).wf(),
            match r {
                None => old(self)@.len() == 0 && final(self)@ == old(self)@,
                Some(p) => old(self)@.len() > 0 && (p.0@, p.1 as nat) == old(self)@[0]
                    && final(self)@ == old(self)@.drop_first(),
            },
    {
        if self.pos < self.items.len() {
            let k = self.items[self.pos].0.clone();
            let c = self.items[self.pos].1;
            self.pos = self.pos + 1;
            assert(self@ =~= old(self)@.drop_first());
            Some((k, c))
        } else {
            None
        }
    }
}

} // verus!
