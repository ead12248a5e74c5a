//! A histogram of symbol counts that always knows its total.
use vstd::prelude::*;
use crate::bit_cost::{lemma_sum_prefix, sum_counts};

verus! {

/// Symbol counts indexed by symbol, with their sum kept alongside.
pub struct Histogram {
    data: Vec<u32>,
    total_count: usize,
}

impl View for Histogram {
    type V = Seq<u32>;

    closed spec fn view(&self) -> Seq<u32> {
        self.data@
    }
}

impl Histogram {
    #[verifier::type_invariant]
    spec fn consistent(self) -> bool {
        &&& self.total_count == sum_counts(self.data@)
        &&& self.data@.len() <= u32::MAX
    }

    /// Builds a histogram from its counts. Fails when the alphabet has more
    /// than `u32::MAX` symbols or the total does not fit a `usize`.
    pub fn from_counts(counts: Vec<u32>) -> (h: Option<Histogram>)
        ensures
            h is Some <==> counts@.len() <= u32::MAX && sum_counts(counts@) <= usize::MAX,
            h is Some ==> h->Some_0@ == counts@,
    {
        let len = counts.len();
        if len > u32::MAX as usize {
            return None;
        }
        let mut total: usize = 0;
        let mut i: usize = 0;
        proof {
            assert(counts@.take(0).len() == 0);
        }
        while i < len
            invariant
                i <= len == counts@.len(),
                total == sum_counts(counts@.take(i as int)),
            decreases len - i,
        {
            proof {
                assert(counts@.take(i + 1).drop_last() == counts@.take(i as int));
                lemma_sum_prefix(counts@, i + 1);
            }
            match total.checked_add(counts[i] as usize) {
                Some(next) => {
                    total = next;
                },
                None => {
                    return None;
                },
            }
            i += 1;
        }
        proof {
            assert(counts@.take(len as int) == counts@);
        }
        Some(Histogram { data: counts, total_count: total })
    }

    /// The counts, indexed by symbol.
    pub fn slice(&self) -> (counts: &[u32])
        ensures
            counts@ == self@,
            counts@.len() <= u32::MAX,
    {
        proof {
            use_type_invariant(self);
        }
        self.data.as_slice()
    }

    /// The sum of all counts.
    pub fn total_count(&self) -> (total: usize)
        ensures
            total == sum_counts(self@),
    {
        proof {
            use_type_invariant(self);
        }
        self.total_count
    }
}

} // verus!
