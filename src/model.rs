use vstd::prelude::*;

use crate::catalog::{
    build_block_frequency_map, is_catalog_of, lemma_grid_index, lemma_split_index, num_windows,
    total_frequency, SeedImage,
};
use crate::cell::{masked_total, picks, single_bit, weights_of, Entropy, UncertainCell};
use crate::color::{build_color_palette, find_color, strictly_sorted, Rgb};

verus! {

/// Why no cell could be selected for collapse.
#[derive(Clone, Copy, Debug, PartialEq, Eq)]
pub enum ModelError {
    /// The cell at this (row, column) has no possible state left.
    NoValidStates((usize, usize)),
    /// The entropy of the cell at this (row, column) is not a number.
    UnexpectedNaN((usize, usize)),
    /// Every cell is resolved: the synthesis is complete.
    AllStatesDecided,
}

/// The entropy of one cell, as the selection of the next cell sees it.
#[derive(Clone, Copy, Debug, PartialEq, Eq, Structural)]
pub enum CellEntropy {
    /// No state is possible.
    Contradiction,
    /// Exactly one state is possible: the entropy is zero.
    Decided,
    /// The entropy is positive; the key orders cells as their entropies do.
    Undecided(u64),
    /// The entropy computation produced no number.
    NotANumber,
}

/// (row, column) of the `k`-th cell of a grid `width` cells wide, row after row.
pub open spec fn coord_of(k: int, width: int) -> (usize, usize) {
    ((k / width) as usize, (k % width) as usize)
}

/// Neither a contradiction nor a missing number.
pub open spec fn is_clean(e: CellEntropy) -> bool {
    e is Decided || e is Undecided
}

/// `k` is the cell that the lowest-entropy selection picks from `s`: of the
/// cells with positive entropy, one with the least key, the last such one in
/// scan order.
pub open spec fn lowest_last(s: Seq<CellEntropy>, k: int) -> bool {
    &&& 0 <= k < s.len()
    &&& s[k] is Undecided
    &&& forall|j: int| 0 <= j < s.len() && #[trigger] s[j] is Undecided ==> s[k]->Undecided_0 <= s[j]->Undecided_0
    &&& forall|j: int| k < j < s.len() && #[trigger] s[j] is Undecided ==> s[k]->Undecided_0 < s[j]->Undecided_0
}

/// What scanning the entropies `s` of a grid `width` cells wide, row after
/// row, for the next cell to collapse gives.
pub open spec fn selection(s: Seq<CellEntropy>, width: int, r: Result<(usize, usize), ModelError>) -> bool {
    match r {
        Err(ModelError::NoValidStates(c)) => exists|k: int|
            0 <= k < s.len() && s[k] is Contradiction && c == coord_of(k, width)
                && forall|j: int| 0 <= j < k ==> is_clean(#[trigger] s[j]),
        Err(ModelError::UnexpectedNaN(c)) => exists|k: int|
            0 <= k < s.len() && s[k] is NotANumber && c == coord_of(k, width)
                && forall|j: int| 0 <= j < k ==> is_clean(#[trigger] s[j]),
        Err(ModelError::AllStatesDecided) => forall|j: int| 0 <= j < s.len() ==> #[trigger] s[j] is Decided,
        Ok(c) => (forall|j: int| 0 <= j < s.len() ==> is_clean(#[trigger] s[j]))
            && exists|k: int| lowest_last(s, k) && c == coord_of(k, width),
    }
}

/// The output grid of constraint cells, with the palette and the pattern
/// catalog of the seed image it was built from.
pub struct OverlappingModel {
    model: Vec<UncertainCell>,
    width: usize,
    height: usize,
    palette: Vec<Rgb>,
    states: Vec<(Vec<Rgb>, usize)>,
    state_size: usize,
}

impl OverlappingModel {
    /// The cells, row after row.
    pub closed spec fn cells(&self) -> Seq<UncertainCell> {
        self.model@
    }

    /// Number of columns of the grid.
    pub closed spec fn width(&self) -> int {
        self.width as int
    }

    /// Number of rows of the grid.
    pub closed spec fn height(&self) -> int {
        self.height as int
    }

    /// The colors of the seed image, sorted, each once.
    pub closed spec fn palette(&self) -> Seq<Rgb> {
        self.palette@
    }

    /// The patterns of the seed image, each with its frequency.
    pub closed spec fn catalog(&self) -> Seq<(Vec<Rgb>, usize)> {
        self.states@
    }

    /// The side length of the patterns.
    pub closed spec fn state_size(&self) -> int {
        self.state_size as int
    }

    /// The cell at row `y`, column `x`.
    pub open spec fn cell(&self, y: int, x: int) -> UncertainCell {
        self.cells()[y * self.width() + x]
    }

    /// Row `y`, column `x` lies on the grid.
    pub open spec fn in_bounds(&self, y: int, x: int) -> bool {
        0 <= y < self.height() && 0 <= x < self.width()
    }

    /// One cell per grid position, each sized to the palette and the
    /// catalog; a sorted palette that holds every color of every pattern.
    pub open spec fn wf(&self) -> bool {
        &&& self.cells().len() == self.width() * self.height()
        &&& self.state_size() >= 1
        &&& strictly_sorted(self.palette())
        &&& forall|i: int| 0 <= i < self.cells().len() ==> {
            &&& (#[trigger] self.cells()[i]).colors().len() == self.palette().len()
            &&& self.cells()[i].states().len() == self.catalog().len()
        }
        &&& forall|s: int| 0 <= s < self.catalog().len()
            ==> (#[trigger] self.catalog()[s]).0@.len() == self.state_size() * self.state_size()
        &&& forall|s: int, t: int| 0 <= s < self.catalog().len() && 0 <= t < self.catalog()[s].0@.len()
            ==> self.palette().contains(#[trigger] self.catalog()[s].0@[t])
    }

    /// Pixel `t` of pattern `s` (read row after row) allows the pattern at
    /// `(py, px)`: it falls off the grid, or its color is still possible in
    /// the cell it falls on.
    pub open spec fn pixel_allows(&self, s: int, py: int, px: int, t: int) -> bool {
        let n = self.state_size();
        let y = py + t / n;
        let x = px + t % n;
        self.in_bounds(y, x) ==> forall|ci: int|
            0 <= ci < self.palette().len() && self.palette()[ci] == self.catalog()[s].0@[t]
                ==> #[trigger] self.cell(y, x).colors()[ci]
    }

    /// Pattern `s` may stand with its top left corner at `(py, px)`.
    pub open spec fn eligible(&self, s: int, py: int, px: int) -> bool {
        forall|t: int| 0 <= t < self.catalog()[s].0@.len() ==> #[trigger] self.pixel_allows(s, py, px, t)
    }

    /// Builds the palette and the pattern catalog of the seed image, and an
    /// output grid of `output_dims` = (width, height) cells, every one of them
    /// with every color and every pattern possible.
    pub fn from_seed_image(seed_image: SeedImage, output_dims: (usize, usize), block_size: usize) -> (r:
        OverlappingModel)
        requires
            seed_image.wf(),
            block_size >= 1,
            output_dims.0 * output_dims.1 <= usize::MAX,
        ensures
            r.wf(),
            r.width() == output_dims.0,
            r.height() == output_dims.1,
            r.state_size() == block_size,
            strictly_sorted(r.palette()),
            forall|c: Rgb| r.palette().contains(c) <==> seed_image.image_data@.contains(c),
            is_catalog_of(r.catalog(), seed_image, block_size as int),
            total_frequency(r.catalog()) == num_windows(
                seed_image.width as int,
                seed_image.height as int,
                block_size as int,
            ),
            forall|i: int| 0 <= i < r.cells().len() ==> {
                &&& (#[trigger] r.cells()[i]).colors() == Seq::new(r.palette().len(), |j: int| true)
                &&& r.cells()[i].states() == Seq::new(r.catalog().len(), |j: int| true)
            },
    {
        let palette = build_color_palette(&seed_image.image_data);
        let states = build_block_frequency_map(&seed_image, block_size);
        let num_colors = palette.len();
        let num_states = states.len();
        let (x, y) = output_dims;
        let total = x * y;
        let mut model_data: Vec<UncertainCell> = Vec::new();
        let mut i: usize = 0;
        while i < total
            invariant
                i <= total,
                model_data@.len() == i,
                forall|j: int| 0 <= j < i ==> {
                    &&& (#[trigger] model_data@[j]).colors() == Seq::new(num_colors as nat, |c: int| true)
                    &&& model_data@[j].states() == Seq::new(num_states as nat, |c: int| true)
                },
            decreases total - i,
        {
            model_data.push(UncertainCell::new(num_colors, num_states));
            i = i + 1;
        }
        let r = OverlappingModel {
            model: model_data,
            width: x,
            height: y,
            palette,
            states,
            state_size: block_size,
        };
        proof {
            assert(x * y == y * x) by (nonlinear_arith);
        }
        r
    }

    /// The palette, sorted, each color once.
    pub fn palette_colors(&self) -> (r: &Vec<Rgb>)
        ensures
            r@ == self.palette(),
    {
        &self.palette
    }

    /// The pattern catalog: each pattern with its frequency.
    pub fn patterns(&self) -> (r: &Vec<(Vec<Rgb>, usize)>)
        ensures
            r@ == self.catalog(),
    {
        &self.states
    }

    /// The grid size as (width, height).
    pub fn dims(&self) -> (r: (usize, usize))
        ensures
            r.0 == self.width(),
            r.1 == self.height(),
    {
        (self.width, self.height)
    }

    /// The cell at `position` = (row, column).
    pub fn cell_at(&self, position: (usize, usize)) -> (r: &UncertainCell)
        requires
            self.wf(),
            self.in_bounds(position.0 as int, position.1 as int),
        ensures
            *r == self.cell(position.0 as int, position.1 as int),
    {
        proof {
            lemma_grid_index(position.0 as int, position.1 as int, self.height as int, self.width as int);
        }
        let cells = self.model.len();
        assert(position.0 * self.width + position.1 < cells);
        &self.model[position.0 * self.width + position.1]
    }

    /// Whether `coord` = (row, column) lies on the grid.
    pub fn valid_coordinate(&self, coord: (usize, usize)) -> (r: bool)
        ensures
            r == self.in_bounds(coord.0 as int, coord.1 as int),
    {
        let (y, x) = coord;
        y < self.height && x < self.width
    }

    /// The palette index of a color of the palette.
    pub fn color_to_index(&self, color: &Rgb) -> (r: usize)
        requires
            self.wf(),
            self.palette().contains(*color),
        ensures
            r < self.palette().len(),
            self.palette()[r as int] == *color,
    {
        match find_color(&self.palette, *color) {
            Ok(i) => i,
            Err(_) => 0,
        }
    }

    /// Whether pixel `t` of pattern `s` allows the pattern at `position`.
    fn pixel_fits(&self, s: usize, position: (usize, usize), t: usize) -> (r: bool)
        requires
            self.wf(),
            s < self.catalog().len(),
            t < self.catalog()[s as int].0@.len(),
        ensures
            r == self.pixel_allows(s as int, position.0 as int, position.1 as int, t as int),
    {
        let n = self.state_size;
        proof {
            lemma_split_index(t as int, n as int, n as int);
        }
        let dy = t / n;
        let dx = t % n;
        let (py, px) = position;
        if py >= self.height || dy >= self.height - py || px >= self.width || dx >= self.width - px {
            return true;
        }
        let y = py + dy;
        let x = px + dx;
        proof {
            lemma_grid_index(y as int, x as int, self.height as int, self.width as int);
            assert(self.palette().contains(self.catalog()[s as int].0@[t as int]));
        }
        let ci = self.color_to_index(&self.states[s].0[t]);
        let cells = self.model.len();
        assert(y * self.width + x < cells);
        let ok = self.model[y * self.width + x].valid_color(ci);
        proof {
            assert(self.cell(y as int, x as int) == self.model@[y * self.width + x]);
            if !ok {
                assert(!self.cell(y as int, x as int).colors()[ci as int]);
                assert(!self.pixel_allows(s as int, py as int, px as int, t as int));
            }
            if ok {
                assert forall|cj: int| 0 <= cj < self.palette().len()
                    && self.palette()[cj] == self.catalog()[s as int].0@[t as int]
                    implies #[trigger] self.cell(y as int, x as int).colors()[cj] by {
                    if cj != ci {
                        if cj < ci {
                            assert(crate::color::color_key(self.palette()[cj]) < crate::color::color_key(self.palette()[ci as int]));
                        } else {
                            assert(crate::color::color_key(self.palette()[ci as int]) < crate::color::color_key(self.palette()[cj]));
                        }
                    }
                }
            }
        }
        ok
    }

    /// The indices, in increasing order, of the catalog patterns that may
    /// stand with their top left corner at `position` = (row, column): every
    /// pixel of the pattern that falls on the grid has a color that is still
    /// possible in the cell it falls on. Pixels that fall off the grid are
    /// ignored.
    pub fn valid_states_at_position(&self, position: (usize, usize)) -> (r: Vec<usize>)
        requires
            self.wf(),
        ensures
            forall|a: int, b: int| 0 <= a < b < r@.len() ==> r@[a] < r@[b],
            forall|a: int| 0 <= a < r@.len() ==> (#[trigger] r@[a]) < self.catalog().len()
                && self.eligible(r@[a] as int, position.0 as int, position.1 as int),
            forall|s: int| 0 <= s < self.catalog().len()
                && self.eligible(s, position.0 as int, position.1 as int) ==> r@.contains(s as usize),
    {
        let mut valid: Vec<usize> = Vec::new();
        let mut s: usize = 0;
        while s < self.states.len()
            invariant
                self.wf(),
                s <= self.catalog().len(),
                forall|a: int, b: int| 0 <= a < b < valid@.len() ==> valid@[a] < valid@[b],
                forall|a: int| 0 <= a < valid@.len() ==> (#[trigger] valid@[a]) < s
                    && self.eligible(valid@[a] as int, position.0 as int, position.1 as int),
                forall|q: int| 0 <= q < s
                    && self.eligible(q, position.0 as int, position.1 as int) ==> valid@.contains(q as usize),
            decreases self.catalog().len() - s,
        {
            let len = self.states[s].0.len();
            let mut fits = true;
            let mut t: usize = 0;
            while t < len && fits
                invariant
                    self.wf(),
                    s < self.catalog().len(),
                    len == self.catalog()[s as int].0@.len(),
                    t <= len,
                    fits ==> forall|u: int| 0 <= u < t ==> #[trigger] self.pixel_allows(s as int, position.0 as int, position.1 as int, u),
                    !fits ==> !self.eligible(s as int, position.0 as int, position.1 as int),
                decreases len - t,
            {
                if !self.pixel_fits(s, position, t) {
                    fits = false;
                }
                t = t + 1;
            }
            let ghost before = valid@;
            if fits {
                valid.push(s);
                proof {
                    assert(valid@[valid@.len() - 1] == s);
                    assert forall|q: int| 0 <= q < s + 1
                        && self.eligible(q, position.0 as int, position.1 as int) implies valid@.contains(q as usize) by {
                        if q < s {
                            let a = choose|a: int| 0 <= a < before.len() && before[a] == q as usize;
                            assert(valid@[a] == q as usize);
                        } else {
                            assert(valid@[before.len() as int] == q as usize);
                        }
                    }
                }
            }
            s = s + 1;
        }
        valid
    }

    /// The cell to collapse next, given the entropy of every cell, row after
    /// row. Cells are scanned in that order. The first cell in contradiction,
    /// or whose entropy is not a number, ends the scan with an error. Else,
    /// of the cells with positive entropy, one with the least entropy is
    /// picked, the last one scanned where several tie; and where no cell has
    /// positive entropy every cell is decided.
    pub fn find_lowest_nonzero_entropy_coordinates(&self, entropies: &Vec<CellEntropy>) -> (r: Result<
        (usize, usize),
        ModelError,
    >)
        requires
            self.wf(),
            entropies@.len() == self.cells().len(),
        ensures
            selection(entropies@, self.width(), r),
    {
        proof {
            if self.width == 0 {
                assert(self.width * self.height == 0) by (nonlinear_arith)
                    requires self.width == 0;
            }
        }
        select_lowest_nonzero_entropy(entropies, self.width)
    }

    /// Marks a color as no longer possible in the cell at `position` =
    /// (row, column); every other cell and every other bit stays as it was.
    pub fn forbid_color_at(&mut self, position: (usize, usize), palette_index: usize)
        requires
            old(self).wf(),
            old(self).in_bounds(position.0 as int, position.1 as int),
            palette_index < old(self).palette().len(),
        ensures
            final(self).wf(),
            final(self).width() == old(self).width(),
            final(self).height() == old(self).height(),
            final(self).palette() == old(self).palette(),
            final(self).catalog() == old(self).catalog(),
            final(self).state_size() == old(self).state_size(),
            final(self).cells() == old(self).cells().update(
                position.0 * old(self).width() + position.1,
                final(self).cell(position.0 as int, position.1 as int),
            ),
            final(self).cell(position.0 as int, position.1 as int).colors() == old(self).cell(
                position.0 as int,
                position.1 as int,
            ).colors().update(palette_index as int, false),
            final(self).cell(position.0 as int, position.1 as int).states() == old(self).cell(
                position.0 as int,
                position.1 as int,
            ).states(),
    {
        proof {
            lemma_grid_index(position.0 as int, position.1 as int, self.height as int, self.width as int);
        }
        let cells = self.model.len();
        assert(position.0 * self.width + position.1 < cells);
        let idx = position.0 * self.width + position.1;
        self.model[idx].forbid_color(palette_index);
    }

    /// Collapses the cell at `position` = (row, column) with the weighted
    /// draw `draw` (see `UncertainCell::collapse`); every other cell stays as
    /// it was.
    pub fn collapse_at(&mut self, position: (usize, usize), draw: usize)
        requires
            old(self).wf(),
            old(self).in_bounds(position.0 as int, position.1 as int),
            masked_total(
                weights_of(old(self).catalog()),
                old(self).cell(position.0 as int, position.1 as int).states(),
                old(self).catalog().len() as int,
            ) > 0,
            masked_total(
                weights_of(old(self).catalog()),
                old(self).cell(position.0 as int, position.1 as int).states(),
                old(self).catalog().len() as int,
            ) <= usize::MAX,
        ensures
            final(self).wf(),
            final(self).width() == old(self).width(),
            final(self).height() == old(self).height(),
            final(self).palette() == old(self).palette(),
            final(self).catalog() == old(self).catalog(),
            final(self).state_size() == old(self).state_size(),
            final(self).cells() == old(self).cells().update(
                position.0 * old(self).width() + position.1,
                final(self).cell(position.0 as int, position.1 as int),
            ),
            final(self).cell(position.0 as int, position.1 as int).colors() == old(self).cell(
                position.0 as int,
                position.1 as int,
            ).colors(),
            exists|c: int|
                picks(
                    weights_of(old(self).catalog()),
                    old(self).cell(position.0 as int, position.1 as int).states(),
                    draw as int % masked_total(
                        weights_of(old(self).catalog()),
                        old(self).cell(position.0 as int, position.1 as int).states(),
                        old(self).catalog().len() as int,
                    ),
                    c,
                ) && final(self).cell(position.0 as int, position.1 as int).states() == single_bit(
                    old(self).catalog().len(),
                    c,
                ),
    {
        proof {
            lemma_grid_index(position.0 as int, position.1 as int, self.height as int, self.width as int);
        }
        let cells = self.model.len();
        assert(position.0 * self.width + position.1 < cells);
        let idx = position.0 * self.width + position.1;
        self.model[idx].collapse(self.states.as_slice(), draw);
    }

    /// The entropy of the cell at `position` = (row, column).
    pub fn entropy_at(&self, position: (usize, usize)) -> (r: Option<Entropy>)
        requires
            self.wf(),
            self.in_bounds(position.0 as int, position.1 as int),
        ensures
            r is None <==> crate::bits::count_true(self.cell(position.0 as int, position.1 as int).states()) == 0,
            r == Some(Entropy::Zero) <==> crate::bits::count_true(self.cell(position.0 as int, position.1 as int).states()) == 1,
            r matches Some(Entropy::Positive(w)) ==> w@ == crate::cell::masked_weights(
                weights_of(self.catalog()),
                self.cell(position.0 as int, position.1 as int).states(),
            ),
    {
        proof {
            lemma_grid_index(position.0 as int, position.1 as int, self.height as int, self.width as int);
        }
        let cells = self.model.len();
        assert(position.0 * self.width + position.1 < cells);
        self.model[position.0 * self.width + position.1].entropy(self.states.as_slice())
    }
}

/// Scans `entropies`, the entropies of a grid `width` cells wide row after
/// row, for the cell to collapse next (see
/// `OverlappingModel::find_lowest_nonzero_entropy_coordinates`).
pub fn select_lowest_nonzero_entropy(entropies: &Vec<CellEntropy>, width: usize) -> (r: Result<
    (usize, usize),
    ModelError,
>)
    requires
        width >= 1 || entropies@.len() == 0,
    ensures
        selection(entropies@, width as int, r),
{
    let n = entropies.len();
    let mut best: Option<usize> = None;
    let mut key: u64 = 0;
    let mut k: usize = 0;
    while k < n
        invariant
            n == entropies@.len(),
            width >= 1 || n == 0,
            k <= n,
            forall|j: int| 0 <= j < k ==> is_clean(#[trigger] entropies@[j]),
            best is None ==> forall|j: int| 0 <= j < k ==> #[trigger] entropies@[j] is Decided,
            best matches Some(b) ==> {
                &&& b < k
                &&& entropies@[b as int] == CellEntropy::Undecided(key)
                &&& forall|j: int| 0 <= j < k && #[trigger] entropies@[j] is Undecided ==> key <= entropies@[j]->Undecided_0
                &&& forall|j: int| b < j < k && #[trigger] entropies@[j] is Undecided ==> key < entropies@[j]->Undecided_0
            },
        decreases n - k,
    {
        match entropies[k] {
            CellEntropy::Contradiction => {
                let c = (k / width, k % width);
                assert(c == coord_of(k as int, width as int));
                assert(entropies@[k as int] is Contradiction && forall|j: int| 0 <= j < k ==> is_clean(#[trigger] entropies@[j]));
                assert(selection(entropies@, width as int, Err(ModelError::NoValidStates(c))));
                return Err(ModelError::NoValidStates(c));
            },
            CellEntropy::NotANumber => {
                let c = (k / width, k % width);
                assert(c == coord_of(k as int, width as int));
                assert(entropies@[k as int] is NotANumber && forall|j: int| 0 <= j < k ==> is_clean(#[trigger] entropies@[j]));
                assert(selection(entropies@, width as int, Err(ModelError::UnexpectedNaN(c))));
                return Err(ModelError::UnexpectedNaN(c));
            },
            CellEntropy::Decided => {},
            CellEntropy::Undecided(u) => {
                if best.is_none() || u <= key {
                    key = u;
                    best = Some(k);
                }
            },
        }
        k = k + 1;
    }
    match best {
        None => Err(ModelError::AllStatesDecided),
        Some(b) => {
            assert(lowest_last(entropies@, b as int));
            Ok((b / width, b % width))
        },
    }
}

/// On a grid where every color is still possible in every cell, every
/// pattern of the catalog may stand at every position, next to the edge or
/// not: a pixel that falls off the grid never rules a pattern out.
pub proof fn lemma_unconstrained_all_eligible(m: OverlappingModel, py: int, px: int)
    requires
        m.wf(),
        forall|i: int| 0 <= i < m.cells().len() ==> (#[trigger] m.cells()[i]).colors() == Seq::new(
            m.palette().len(),
            |j: int| true,
        ),
    ensures
        forall|s: int| 0 <= s < m.catalog().len() ==> m.eligible(s, py, px),
{
    assert forall|s: int| 0 <= s < m.catalog().len() implies m.eligible(s, py, px) by {
        assert forall|t: int| 0 <= t < m.catalog()[s].0@.len() implies #[trigger] m.pixel_allows(s, py, px, t) by {
            let n = m.state_size();
            let y = py + t / n;
            let x = px + t % n;
            if m.in_bounds(y, x) {
                lemma_grid_index(y, x, m.height(), m.width());
                assert(m.cells()[y * m.width() + x].colors() == Seq::new(m.palette().len(), |j: int| true));
            }
        }
    }
}

/// A pattern is not eligible at a position where one of its pixels falls on
/// a cell in which that pixel's color has been ruled out.
pub proof fn lemma_forbidden_color_excludes(m: OverlappingModel, s: int, py: int, px: int, t: int, ci: int)
    requires
        m.wf(),
        0 <= s < m.catalog().len(),
        0 <= t < m.catalog()[s].0@.len(),
        m.in_bounds(py + t / m.state_size(), px + t % m.state_size()),
        0 <= ci < m.palette().len(),
        m.palette()[ci] == m.catalog()[s].0@[t],
        !m.cell(py + t / m.state_size(), px + t % m.state_size()).colors()[ci],
    ensures
        !m.eligible(s, py, px),
{
    assert(!m.pixel_allows(s, py, px, t));
}

/// Of two cells tied at the least positive entropy, the selection never
/// picks the one scanned first: the pick lies at or after the later one.
pub proof fn lemma_tie_goes_to_later(s: Seq<CellEntropy>, width: int, r: Result<(usize, usize), ModelError>, i: int, j: int)
    requires
        selection(s, width, r),
        0 <= i < j < s.len(),
        forall|q: int| 0 <= q < s.len() ==> is_clean(#[trigger] s[q]),
        s[i] is Undecided,
        s[i] == s[j],
        forall|q: int| 0 <= q < s.len() && #[trigger] s[q] is Undecided ==> s[i]->Undecided_0 <= s[q]->Undecided_0,
    ensures
        exists|k: int| j <= k < s.len() && r == Ok::<(usize, usize), ModelError>(coord_of(k, width)) && lowest_last(s, k),
{
    assert(s[i] is Contradiction == false);
    match r {
        Ok(c) => {
            let k = choose|k: int| lowest_last(s, k) && c == coord_of(k, width);
            if k < j {
                assert(s[j] is Undecided);
            }
        },
        Err(ModelError::NoValidStates(c)) => {
            let k = choose|k: int| 0 <= k < s.len() && s[k] is Contradiction && c == coord_of(k, width)
                && forall|q: int| 0 <= q < k ==> is_clean(#[trigger] s[q]);
            assert(is_clean(s[k]));
        },
        Err(ModelError::UnexpectedNaN(c)) => {
            let k = choose|k: int| 0 <= k < s.len() && s[k] is NotANumber && c == coord_of(k, width)
                && forall|q: int| 0 <= q < k ==> is_clean(#[trigger] s[q]);
            assert(is_clean(s[k]));
        },
        Err(ModelError::AllStatesDecided) => {
            assert(s[i] is Decided);
        },
    }
}

} // verus!
