//! A scripted challenger that hands out pre-loaded replies in order.
use crate::polynomial::all_elems;
use crate::prover::{RoundConfig, RoundDraws};
use vstd::prelude::*;

verus! {

/// Replays pre-loaded field elements and index bits, in order.
#[derive(Debug)]
pub struct MockChallenger {
    field_replies: Vec<u32>,
    bit_replies: Vec<usize>,
    field_pos: usize,
    bit_pos: usize,
}

impl MockChallenger {
    /// The field replies not handed out yet.
    pub closed spec fn field_left(&self) -> Seq<u32> {
        self.field_replies@.subrange(self.field_pos as int, self.field_replies@.len() as int)
    }

    /// The index replies not handed out yet.
    pub closed spec fn bits_left(&self) -> Seq<usize> {
        self.bit_replies@.subrange(self.bit_pos as int, self.bit_replies@.len() as int)
    }

    pub closed spec fn wf(&self) -> bool {
        &&& self.field_pos <= self.field_replies@.len()
        &&& self.bit_pos <= self.bit_replies@.len()
        &&& all_elems(self.field_replies@)
    }

    pub fn new(field_replies: Vec<u32>, bit_replies: Vec<usize>) -> (r: MockChallenger)
        requires
            all_elems(field_replies@),
        ensures
            r.wf(),
            r.field_left() == field_replies@,
            r.bits_left() == bit_replies@,
    {
        let r = MockChallenger { field_replies, bit_replies, field_pos: 0, bit_pos: 0 };
        assert(r.field_replies@.subrange(0, r.field_replies@.len() as int) == r.field_replies@);
        assert(r.bit_replies@.subrange(0, r.bit_replies@.len() as int) == r.bit_replies@);
        r
    }

    /// The next field reply, or nothing once they have all been handed out.
    pub fn sample_field_element(&mut self) -> (r: Option<u32>)
        requires
            old(self).wf(),
        ensures
            final(self).wf(),
            old(self).field_left().len() == 0 ==> r.is_none() && *final(self) == *old(self),
            old(self).field_left().len() > 0 ==> r == Some(old(self).field_left()[0])
                && final(self).field_left() == old(self).field_left().drop_first()
                && final(self).bits_left() == old(self).bits_left(),
    {
        if self.field_pos < self.field_replies.len() {
            let x = self.field_replies[self.field_pos];
            self.field_pos = self.field_pos + 1;
            assert(self.field_left() =~= old(self).field_left().drop_first());
            Some(x)
        } else {
            None
        }
    }

    /// The next index reply, or nothing once they have all been handed out.
    pub fn sample_bits(&mut self) -> (r: Option<usize>)
        requires
            old(self).wf(),
        ensures
            final(self).wf(),
            old(self).bits_left().len() == 0 ==> r.is_none() && *final(self) == *old(self),
            old(self).bits_left().len() > 0 ==> r == Some(old(self).bits_left()[0])
                && final(self).bits_left() == old(self).bits_left().drop_first()
                && final(self).field_left() == old(self).field_left(),
    {
        if self.bit_pos < self.bit_replies.len() {
            let x = self.bit_replies[self.bit_pos];
            self.bit_pos = self.bit_pos + 1;
            assert(self.bits_left() =~= old(self).bits_left().drop_first());
            Some(x)
        } else {
            None
        }
    }
}

/// Draws a round's randomness in the fixed order: the out-of-domain samples, the combination
/// randomness, the next folding randomness, then the query indices. Nothing when the replies
/// run out.
pub fn draw_round(challenger: &mut MockChallenger, config: &RoundConfig) -> (r: Option<RoundDraws>)
    requires
        old(challenger).wf(),
    ensures
        final(challenger).wf(),
        ({
            let f = old(challenger).field_left();
            let b = old(challenger).bits_left();
            let nf = config.num_ood_samples + 2;
            let nb = config.num_queries as int;
            match r {
                Some(d) => {
                    &&& f.len() >= nf
                    &&& b.len() >= nb
                    &&& d.ood_samples@ == f.subrange(0, config.num_ood_samples as int)
                    &&& d.comb_randomness == f[config.num_ood_samples as int]
                    &&& d.folding_randomness == f[config.num_ood_samples + 1]
                    &&& d.query_indices@ == b.subrange(0, nb)
                    &&& all_elems(d.ood_samples@)
                    &&& crate::field::is_elem(d.comb_randomness)
                    &&& crate::field::is_elem(d.folding_randomness)
                    &&& final(challenger).field_left() == f.subrange(nf, f.len() as int)
                    &&& final(challenger).bits_left() == b.subrange(nb, b.len() as int)
                },
                None => f.len() < nf || b.len() < nb,
            }
        }),
{
    let ghost f = challenger.field_left();
    let ghost b = challenger.bits_left();
    let mut ood: Vec<u32> = Vec::new();
    let mut i: usize = 0;
    while i < config.num_ood_samples
        invariant
            challenger.wf(),
            f == old(challenger).field_left(),
            b == old(challenger).bits_left(),
            i <= config.num_ood_samples,
            i <= f.len(),
            ood@ == f.subrange(0, i as int),
            challenger.field_left() == f.subrange(i as int, f.len() as int),
            challenger.bits_left() == b,
        decreases config.num_ood_samples - i,
    {
        match challenger.sample_field_element() {
            Some(x) => {
                ood.push(x);
            },
            None => {
                assert(f.subrange(i as int, f.len() as int).len() == 0);
                return None;
            },
        }
        i = i + 1;
    }
    let comb = match challenger.sample_field_element() {
        Some(x) => x,
        None => {
            return None;
        },
    };
    let folding = match challenger.sample_field_element() {
        Some(x) => x,
        None => {
            return None;
        },
    };
    let mut queries: Vec<usize> = Vec::new();
    i = 0;
    while i < config.num_queries
        invariant
            challenger.wf(),
            f == old(challenger).field_left(),
            b == old(challenger).bits_left(),
            i <= config.num_queries,
            i <= b.len(),
            queries@ == b.subrange(0, i as int),
            f.len() >= config.num_ood_samples + 2,
            ood@ == f.subrange(0, config.num_ood_samples as int),
            all_elems(f),
            comb == f[config.num_ood_samples as int],
            folding == f[config.num_ood_samples + 1],
            challenger.bits_left() == b.subrange(i as int, b.len() as int),
            challenger.field_left() == f.subrange(config.num_ood_samples + 2, f.len() as int),
        decreases config.num_queries - i,
    {
        match challenger.sample_bits() {
            Some(x) => {
                queries.push(x);
            },
            None => {
                assert(b.subrange(i as int, b.len() as int).len() == 0);
                return None;
            },
        }
        i = i + 1;
    }
    Some(RoundDraws { ood_samples: ood, comb_randomness: comb, folding_randomness: folding, query_indices: queries })
}

} // verus!
