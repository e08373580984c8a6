use bit_vec::BitVec;
use vstd::prelude::*;

use crate::bits::{bits_fill, bits_from_elem, bits_get, bits_len, bits_none, bits_of, bits_set, count_true};

verus! {

/// The frequency of each catalog entry, in catalog order.
pub open spec fn weights_of<T>(catalog: Seq<(T, usize)>) -> Seq<usize> {
    catalog.map_values(|p: (T, usize)| p.1)
}

/// The weights whose mask bit is set, in order.
pub open spec fn masked_weights(w: Seq<usize>, m: Seq<bool>) -> Seq<usize>
    decreases w.len(),
{
    if w.len() == 0 {
        seq![]
    } else {
        let rest = masked_weights(w.drop_last(), m);
        if m[w.len() - 1] {
            rest.push(w.last())
        } else {
            rest
        }
    }
}

/// Sum of the first `n` weights whose mask bit is set.
pub open spec fn masked_total(w: Seq<usize>, m: Seq<bool>, n: int) -> int
    decreases n,
{
    if n <= 0 {
        0
    } else {
        masked_total(w, m, n - 1) + if m[n - 1] { w[n - 1] as int } else { 0 }
    }
}

/// `c` is the entry that a weighted draw of `d` lands on: the draw falls in
/// the interval that the masked weights before `c` leave to it.
pub open spec fn picks(w: Seq<usize>, m: Seq<bool>, d: int, c: int) -> bool {
    &&& 0 <= c < w.len()
    &&& m[c]
    &&& masked_total(w, m, c) <= d < masked_total(w, m, c + 1)
}

/// `n` bits, of which only the one at `c` is set.
pub open spec fn single_bit(n: nat, c: int) -> Seq<bool> {
    Seq::new(n, |i: int| i == c)
}

/// What the uncertainty of a cell that is not in contradiction comes to.
#[derive(Clone, Debug, PartialEq, Eq)]
pub enum Entropy {
    /// Exactly one state is left: the entropy is zero.
    Zero,
    /// Two or more states are left; these are their frequencies, in catalog
    /// order. The entropy is that of the distribution they give.
    Positive(Vec<usize>),
}

proof fn lemma_masked_total_monotone(w: Seq<usize>, m: Seq<bool>, i: int, j: int)
    requires
        0 <= i <= j,
    ensures
        masked_total(w, m, i) <= masked_total(w, m, j),
    decreases j - i,
{
    if i < j {
        lemma_masked_total_monotone(w, m, i, j - 1);
    }
}

proof fn lemma_count_single(n: nat, c: int)
    requires
        0 <= c < n,
    ensures
        count_true(single_bit(n, c)) == 1,
    decreases n,
{
    let s = single_bit(n, c);
    if n - 1 == c {
        lemma_count_none((n - 1) as nat);
        assert(s.drop_last() =~= Seq::new((n - 1) as nat, |i: int| false));
    } else {
        lemma_count_single((n - 1) as nat, c);
        assert(s.drop_last() =~= single_bit((n - 1) as nat, c));
    }
}

proof fn lemma_count_none(n: nat)
    ensures
        count_true(Seq::new(n, |i: int| false)) == 0,
    decreases n,
{
    if n > 0 {
        lemma_count_none((n - 1) as nat);
        assert(Seq::new(n, |i: int| false).drop_last() =~= Seq::new((n - 1) as nat, |i: int| false));
    }
}

proof fn lemma_count_zero(s: Seq<bool>)
    ensures
        count_true(s) == 0 <==> forall|i: int| 0 <= i < s.len() ==> !s[i],
    decreases s.len(),
{
    if s.len() > 0 {
        lemma_count_zero(s.drop_last());
        if count_true(s) == 0 {
            assert forall|i: int| 0 <= i < s.len() implies !s[i] by {
                if i < s.len() - 1 {
                    assert(s.drop_last()[i] == s[i]);
                }
            }
        }
        if forall|i: int| 0 <= i < s.len() ==> !s[i] {
            assert forall|i: int| 0 <= i < s.drop_last().len() implies !s.drop_last()[i] by {
                assert(s.drop_last()[i] == s[i]);
            }
        }
    }
}

/// Counts the set bits of `b`.
fn count_set(b: &BitVec) -> (r: usize)
    ensures
        r == count_true(bits_of(*b)),
{
    let n = bits_len(b);
    let mut count: usize = 0;
    let mut i: usize = 0;
    while i < n
        invariant
            n == bits_of(*b).len(),
            i <= n,
            count == count_true(bits_of(*b).take(i as int)),
            count <= i,
        decreases n - i,
    {
        let ghost s = bits_of(*b);
        assert(s.take(i as int + 1).drop_last() =~= s.take(i as int));
        if let Some(true) = bits_get(b, i) {
            count = count + 1;
        }
        i = i + 1;
    }
    assert(bits_of(*b).take(n as int) =~= bits_of(*b));
    count
}


/// The constraint state of one output cell: which palette colors and which
/// catalog patterns are still possible there.
pub struct UncertainCell {
    possible_colors: BitVec,
    possible_states: BitVec,
}

impl UncertainCell {
    /// Which palette colors are still possible, by palette index.
    pub closed spec fn colors(&self) -> Seq<bool> {
        bits_of(self.possible_colors)
    }

    /// Which catalog patterns are still possible, by catalog index.
    pub closed spec fn states(&self) -> Seq<bool> {
        bits_of(self.possible_states)
    }

    /// A cell with every color and every state possible.
    pub fn new(num_colors: usize, num_states: usize) -> (r: UncertainCell)
        ensures
            r.colors() == Seq::new(num_colors as nat, |i: int| true),
            r.states() == Seq::new(num_states as nat, |i: int| true),
    {
        UncertainCell {
            possible_colors: bits_from_elem(num_colors, true),
            possible_states: bits_from_elem(num_states, true),
        }
    }

    /// Whether the color with the given palette index is still possible here.
    pub fn valid_color(&self, palette_index: usize) -> (r: bool)
        requires
            palette_index < self.colors().len(),
        ensures
            r == self.colors()[palette_index as int],
    {
        match bits_get(&self.possible_colors, palette_index) {
            Some(b) => b,
            None => false,
        }
    }

    /// Marks the color with the given palette index as no longer possible.
    pub fn forbid_color(&mut self, palette_index: usize)
        requires
            palette_index < old(self).colors().len(),
        ensures
            final(self).colors() == old(self).colors().update(palette_index as int, false),
            final(self).states() == old(self).states(),
    {
        bits_set(&mut self.possible_colors, palette_index, false);
    }

    /// Marks the catalog state with the given index as no longer possible.
    pub fn forbid_state(&mut self, state_index: usize)
        requires
            state_index < old(self).states().len(),
        ensures
            final(self).states() == old(self).states().update(state_index as int, false),
            final(self).colors() == old(self).colors(),
    {
        bits_set(&mut self.possible_states, state_index, false);
    }

    /// Whether the catalog state with the given index is still possible here.
    pub fn valid_state(&self, state_index: usize) -> (r: bool)
        requires
            state_index < self.states().len(),
        ensures
            r == self.states()[state_index as int],
    {
        match bits_get(&self.possible_states, state_index) {
            Some(b) => b,
            None => false,
        }
    }

    /// The entropy of the cell over the catalog `concrete_states`: `None` when
    /// no state is possible (a contradiction), `Zero` when exactly one is, and
    /// otherwise the frequencies of the states that are still possible.
    pub fn entropy<T>(&self, concrete_states: &[(T, usize)]) -> (r: Option<Entropy>)
        requires
            self.states().len() == concrete_states@.len(),
        ensures
            r is None <==> count_true(self.states()) == 0,
            r is None <==> forall|i: int| 0 <= i < self.states().len() ==> !self.states()[i],
            r == Some(Entropy::Zero) <==> count_true(self.states()) == 1,
            r matches Some(Entropy::Positive(w)) ==> {
                &&& count_true(self.states()) >= 2
                &&& w@ == masked_weights(weights_of(concrete_states@), self.states())
            },
    {
        proof {
            lemma_count_zero(self.states());
        }
        if bits_none(&self.possible_states) {
            return None;
        }
        if count_set(&self.possible_states) == 1 {
            return Some(Entropy::Zero);
        }
        let n = concrete_states.len();
        let mut weights: Vec<usize> = Vec::new();
        let mut i: usize = 0;
        while i < n
            invariant
                n == concrete_states@.len(),
                n == self.states().len(),
                i <= n,
                weights@ == masked_weights(weights_of(concrete_states@).take(i as int), self.states()),
            decreases n - i,
        {
            let ghost w = weights_of(concrete_states@);
            assert(w.take(i as int + 1).drop_last() =~= w.take(i as int));
            if let Some(true) = bits_get(&self.possible_states, i) {
                weights.push(concrete_states[i].1);
            }
            i = i + 1;
        }
        assert(weights_of(concrete_states@).take(n as int) =~= weights_of(concrete_states@));
        Some(Entropy::Positive(weights))
    }

    /// The state that a weighted draw of `draw` picks: the states still
    /// possible, each with its frequency as weight, laid end to end; `draw`,
    /// taken modulo their total, falls within the picked one.
    pub fn choose_state<T>(&self, concrete_states: &[(T, usize)], draw: usize) -> (r: usize)
        requires
            self.states().len() == concrete_states@.len(),
            masked_total(weights_of(concrete_states@), self.states(), concrete_states@.len() as int) > 0,
            masked_total(weights_of(concrete_states@), self.states(), concrete_states@.len() as int)
                <= usize::MAX,
        ensures
            picks(
                weights_of(concrete_states@),
                self.states(),
                draw as int % masked_total(weights_of(concrete_states@), self.states(), concrete_states@.len() as int),
                r as int,
            ),
    {
        let n = concrete_states.len();
        let ghost w = weights_of(concrete_states@);
        let ghost m = self.states();
        let mut total: usize = 0;
        let mut i: usize = 0;
        while i < n
            invariant
                n == w.len(),
                n == m.len(),
                w == weights_of(concrete_states@),
                m == self.states(),
                i <= n,
                total == masked_total(w, m, i as int),
                masked_total(w, m, n as int) <= usize::MAX,
            decreases n - i,
        {
            proof {
                lemma_masked_total_monotone(w, m, i as int + 1, n as int);
            }
            if let Some(true) = bits_get(&self.possible_states, i) {
                total = total + concrete_states[i].1;
            }
            i = i + 1;
        }
        let d = draw % total;
        let mut acc: usize = 0;
        let mut j: usize = 0;
        while j < n
            invariant
                n == w.len(),
                n == m.len(),
                w == weights_of(concrete_states@),
                m == self.states(),
                j <= n,
                total == masked_total(w, m, n as int),
                acc == masked_total(w, m, j as int),
                acc <= d,
                d < total,
                d == draw % total,
            decreases n - j,
        {
            proof {
                lemma_masked_total_monotone(w, m, j as int + 1, n as int);
            }
            assert(w[j as int] == concrete_states@[j as int].1);
            assert(masked_total(w, m, j as int + 1) == masked_total(w, m, j as int) + if m[j as int] { w[j as int] as int } else { 0 });
            if let Some(true) = bits_get(&self.possible_states, j) {
                if d < acc + concrete_states[j].1 {
                    return j;
                }
                acc = acc + concrete_states[j].1;
            }
            j = j + 1;
        }
        0
    }

    /// Resolves the cell: of the states still possible, keeps only the one
    /// that the weighted draw `draw` picks (see `choose_state`).
    pub fn collapse<T>(&mut self, concrete_states: &[(T, usize)], draw: usize)
        requires
            old(self).states().len() == concrete_states@.len(),
            masked_total(weights_of(concrete_states@), old(self).states(), concrete_states@.len() as int) > 0,
            masked_total(weights_of(concrete_states@), old(self).states(), concrete_states@.len() as int)
                <= usize::MAX,
        ensures
            final(self).colors() == old(self).colors(),
            exists|c: int|
                picks(
                    weights_of(concrete_states@),
                    old(self).states(),
                    draw as int % masked_total(weights_of(concrete_states@), old(self).states(), concrete_states@.len() as int),
                    c,
                ) && final(self).states() == single_bit(old(self).states().len(), c),
            count_true(final(self).states()) == 1,
            final(self).states().len() == old(self).states().len(),
            forall|i: int| 0 <= i < final(self).states().len() && final(self).states()[i]
                ==> old(self).states()[i],
    {
        let chosen = self.choose_state(concrete_states, draw);
        bits_fill(&mut self.possible_states, false);
        bits_set(&mut self.possible_states, chosen, true);
        proof {
            let n = old(self).states().len();
            assert(self.states() =~= single_bit(n, chosen as int));
            lemma_count_single(n, chosen as int);
        }
    }
}

} // verus!
