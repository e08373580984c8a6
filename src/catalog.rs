use vstd::prelude::*;

use crate::color::Rgb;

verus! {

/// A seed image: `height` rows of `width` pixels, stored row after row.
pub struct SeedImage {
    pub width: usize,
    pub height: usize,
    pub image_data: Vec<Rgb>,
}

impl SeedImage {
    /// The pixel store holds exactly `width * height` pixels.
    pub open spec fn wf(&self) -> bool {
        self.image_data@.len() == self.width * self.height
    }
}

/// The `n` by `n` block of `pixels` (rows of `width`) whose top left corner is
/// at row `y`, column `x`, read row after row.
pub open spec fn block_at(pixels: Seq<Rgb>, width: int, n: int, y: int, x: int) -> Seq<Rgb> {
    Seq::new((n * n) as nat, |t: int| pixels[(y + t / n) * width + x + t % n])
}

/// How many positions an `n` by `n` window takes in an image of the given
/// size, sliding by one pixel at a time without wrapping.
pub open spec fn num_windows(width: int, height: int, n: int) -> int {
    if 1 <= n <= width && n <= height {
        (height - n + 1) * (width - n + 1)
    } else {
        0
    }
}

/// The block under the `k`-th window position, positions taken row after row.
pub open spec fn window_at(img: SeedImage, n: int, k: int) -> Seq<Rgb> {
    let cols = img.width - n + 1;
    block_at(img.image_data@, img.width as int, n, k / cols, k % cols)
}

/// How many of the first `k` window positions show the block `p`.
pub open spec fn window_count(img: SeedImage, n: int, k: int, p: Seq<Rgb>) -> nat
    decreases k,
{
    if k <= 0 {
        0
    } else {
        window_count(img, n, k - 1, p) + if window_at(img, n, k - 1) == p { 1nat } else { 0nat }
    }
}

/// Sum of the frequencies of a catalog.
pub open spec fn total_frequency(cat: Seq<(Vec<Rgb>, usize)>) -> int
    decreases cat.len(),
{
    if cat.len() == 0 {
        0
    } else {
        total_frequency(cat.drop_last()) + cat.last().1
    }
}

/// Some entry of the catalog holds the block `p`.
pub open spec fn in_catalog(cat: Seq<(Vec<Rgb>, usize)>, p: Seq<Rgb>) -> bool {
    exists|i: int| 0 <= i < cat.len() && cat[i].0@ == p
}

/// `cat` is the block catalog of `img` for blocks of side `n`: no block
/// twice; each entry counts the window positions that show its block, at
/// least one; every window position shows a block of the catalog.
pub open spec fn is_catalog_of(cat: Seq<(Vec<Rgb>, usize)>, img: SeedImage, n: int) -> bool {
    let total = num_windows(img.width as int, img.height as int, n);
    &&& forall|i: int, j: int| 0 <= i < j < cat.len() ==> cat[i].0@ != cat[j].0@
    &&& forall|i: int| 0 <= i < cat.len() ==> cat[i].1 == window_count(img, n, total, #[trigger] cat[i].0@)
    &&& forall|i: int| 0 <= i < cat.len() ==> cat[i].1 >= 1
    &&& forall|k: int| 0 <= k < total ==> in_catalog(cat, #[trigger] window_at(img, n, k))
}

proof fn lemma_window_count_bound(img: SeedImage, n: int, k: int, p: Seq<Rgb>)
    requires
        0 <= k,
    ensures
        window_count(img, n, k, p) <= k,
    decreases k,
{
    if k > 0 {
        lemma_window_count_bound(img, n, k - 1, p);
    }
}

pub(crate) proof fn lemma_grid_index(q: int, r: int, rows: int, cols: int)
    requires
        0 <= q < rows,
        0 <= r < cols,
    ensures
        0 <= q * cols + r < rows * cols,
        rows * cols == cols * rows,
{
    assert(rows * cols == cols * rows) by (nonlinear_arith);
    assert(0 <= q * cols + r < rows * cols) by (nonlinear_arith)
        requires
            0 <= q < rows,
            0 <= r < cols,
    ;
}

pub(crate) proof fn lemma_split_index(t: int, rows: int, cols: int)
    requires
        0 <= t < rows * cols,
        cols > 0,
    ensures
        0 <= t / cols < rows,
        0 <= t % cols < cols,
{
    vstd::arithmetic::div_mod::lemma_fundamental_div_mod(t, cols);
    vstd::arithmetic::div_mod::lemma_div_pos_is_pos(t, cols);
    let q = t / cols;
    let r = t % cols;
    assert(q < rows) by (nonlinear_arith)
        requires
            t == cols * q + r,
            0 <= r < cols,
            t < rows * cols,
            cols > 0,
    ;
}

proof fn lemma_total_update(cat: Seq<(Vec<Rgb>, usize)>, i: int, e: (Vec<Rgb>, usize))
    requires
        0 <= i < cat.len(),
    ensures
        total_frequency(cat.update(i, e)) == total_frequency(cat) - cat[i].1 + e.1,
    decreases cat.len(),
{
    let u = cat.update(i, e);
    if i == cat.len() - 1 {
        assert(u.drop_last() =~= cat.drop_last());
    } else {
        lemma_total_update(cat.drop_last(), i, e);
        assert(u.drop_last() =~= cat.drop_last().update(i, e));
    }
}

/// Copies the `n` by `n` block whose top left corner is at row `y`, column `x`.
fn copy_block(img: &SeedImage, n: usize, y: usize, x: usize) -> (r: Vec<Rgb>)
    requires
        img.wf(),
        1 <= n,
        y + n <= img.height,
        x + n <= img.width,
    ensures
        r@ == block_at(img.image_data@, img.width as int, n as int, y as int, x as int),
        forall|t: int| 0 <= t < r@.len() ==> img.image_data@.contains(#[trigger] r@[t]),
{
    proof {
        lemma_grid_index(n - 1, n - 1, img.height as int, img.width as int);
        assert(n * n <= img.height * img.width) by (nonlinear_arith)
            requires n <= img.height, n <= img.width;
        assert(img.height * img.width == img.width * img.height) by (nonlinear_arith);
    }
    let len = img.image_data.len();
    assert(n * n <= len);
    let nn = n * n;
    let mut block: Vec<Rgb> = Vec::new();
    let mut t: usize = 0;
    while t < nn
        invariant
            img.wf(),
            1 <= n,
            y + n <= img.height,
            x + n <= img.width,
            nn == n * n,
            len == img.image_data@.len(),
            t <= nn,
            block@ =~= block_at(img.image_data@, img.width as int, n as int, y as int, x as int).take(t as int),
            forall|j: int| 0 <= j < block@.len() ==> img.image_data@.contains(#[trigger] block@[j]),
        decreases nn - t,
    {
        proof {
            lemma_split_index(t as int, n as int, n as int);
            lemma_grid_index(y + t / n, x + t % n, img.height as int, img.width as int);
        }
        let dy = t / n;
        let dx = t % n;
        let idx = (y + dy) * img.width + (x + dx);
        block.push(img.image_data[idx]);
        t = t + 1;
    }
    block
}

/// Whether two blocks hold the same pixels.
fn same_block(a: &Vec<Rgb>, b: &Vec<Rgb>) -> (r: bool)
    ensures
        r == (a@ == b@),
{
    if a.len() != b.len() {
        return false;
    }
    let mut i: usize = 0;
    while i < a.len()
        invariant
            a@.len() == b@.len(),
            i <= a@.len(),
            forall|j: int| 0 <= j < i ==> a@[j] == b@[j],
        decreases a@.len() - i,
    {
        if a[i] != b[i] {
            return false;
        }
        i = i + 1;
    }
    assert(a@ =~= b@);
    true
}

/// The catalog of `n` by `n` blocks of the image, with how often each occurs.
/// A window slides over the image one pixel at a time in both directions,
/// without wrapping; entries stand in the order their block first occurs.
pub fn build_block_frequency_map(seed_image: &SeedImage, block_size: usize) -> (r: Vec<(Vec<Rgb>, usize)>)
    requires
        seed_image.wf(),
        block_size >= 1,
    ensures
        is_catalog_of(r@, *seed_image, block_size as int),
        total_frequency(r@) == num_windows(seed_image.width as int, seed_image.height as int, block_size as int),
        forall|i: int| 0 <= i < r@.len() ==> r@[i].0@.len() == block_size * block_size,
        forall|i: int, t: int| 0 <= i < r@.len() && 0 <= t < r@[i].0@.len()
            ==> seed_image.image_data@.contains(#[trigger] r@[i].0@[t]),
{
    let n = block_size;
    let mut catalog: Vec<(Vec<Rgb>, usize)> = Vec::new();
    if n > seed_image.width || n > seed_image.height {
        return catalog;
    }
    let rows = seed_image.height - n + 1;
    let cols = seed_image.width - n + 1;
    proof {
        lemma_grid_index(rows - 1, cols - 1, seed_image.height as int, seed_image.width as int);
        assert(rows * cols <= seed_image.height * seed_image.width) by (nonlinear_arith)
            requires rows <= seed_image.height, cols <= seed_image.width;
        assert(seed_image.height * seed_image.width == seed_image.width * seed_image.height) by (nonlinear_arith);
    }
    let len = seed_image.image_data.len();
    assert(rows * cols <= len);
    let total = rows * cols;
    let ghost img = *seed_image;
    let mut k: usize = 0;
    while k < total
        invariant
            img == *seed_image,
            img.wf(),
            1 <= n <= img.width,
            n <= img.height,
            rows == img.height - n + 1,
            cols == img.width - n + 1,
            total == rows * cols,
            total == num_windows(img.width as int, img.height as int, n as int),
            k <= total,
            forall|i: int, j: int| 0 <= i < j < catalog@.len() ==> catalog@[i].0@ != catalog@[j].0@,
            forall|i: int| 0 <= i < catalog@.len() ==> catalog@[i].1 == window_count(img, n as int, k as int, #[trigger] catalog@[i].0@),
            forall|i: int| 0 <= i < catalog@.len() ==> catalog@[i].1 >= 1,
            forall|i: int| 0 <= i < catalog@.len() ==> (#[trigger] catalog@[i]).0@.len() == n * n,
            forall|i: int, t: int| 0 <= i < catalog@.len() && 0 <= t < catalog@[i].0@.len()
                ==> img.image_data@.contains(#[trigger] catalog@[i].0@[t]),
            forall|j: int| 0 <= j < k ==> in_catalog(catalog@, #[trigger] window_at(img, n as int, j)),
            total_frequency(catalog@) == k,
            catalog@.len() <= k,
        decreases total - k,
    {
        proof {
            lemma_split_index(k as int, rows as int, cols as int);
        }
        let y = k / cols;
        let x = k % cols;
        let block = copy_block(seed_image, n, y, x);
        assert(block@ == window_at(img, n as int, k as int));
        let ghost before = catalog@;
        let mut found: usize = catalog.len();
        let mut i: usize = 0;
        while i < catalog.len() && found == catalog.len()
            invariant
                catalog@ == before,
                i <= catalog@.len(),
                found <= catalog@.len(),
                found == catalog@.len() ==> forall|j: int| 0 <= j < i ==> catalog@[j].0@ != block@,
                found < catalog@.len() ==> catalog@[found as int].0@ == block@,
            decreases catalog@.len() - i,
        {
            if same_block(&catalog[i].0, &block) {
                found = i;
            }
            i = i + 1;
        }
        if found < catalog.len() {
            proof {
                lemma_window_count_bound(img, n as int, k as int, block@);
            }
            let count = catalog[found].1;
            let entry = (copy_block(seed_image, n, y, x), count + 1);
            catalog.set(found, entry);
            proof {
                lemma_total_update(before, found as int, entry);
                assert forall|a: int| 0 <= a < catalog@.len() implies catalog@[a].1 == window_count(img, n as int, k + 1, #[trigger] catalog@[a].0@) by {
                    if a != found {
                        assert(catalog@[a] == before[a]);
                        assert(before[a].0@ != before[found as int].0@);
                    }
                    assert(window_count(img, n as int, k + 1, catalog@[a].0@) == window_count(img, n as int, k as int, catalog@[a].0@) + if window_at(img, n as int, k as int) == catalog@[a].0@ { 1nat } else { 0nat });
                }
                assert forall|j: int| 0 <= j < k + 1 implies in_catalog(catalog@, #[trigger] window_at(img, n as int, j)) by {
                    if j < k {
                        assert(in_catalog(before, window_at(img, n as int, j)));
                        let a = choose|a: int| 0 <= a < before.len() && before[a].0@ == window_at(img, n as int, j);
                        assert(catalog@[a].0@ == before[a].0@);
                    } else {
                        assert(catalog@[found as int].0@ == window_at(img, n as int, j));
                    }
                }
            }
        } else {
            assert(found == catalog@.len());
            catalog.push((block, 1));
            proof {
                assert(catalog@.drop_last() =~= before);
                assert forall|a: int| 0 <= a < catalog@.len() implies catalog@[a].1 == window_count(img, n as int, k + 1, #[trigger] catalog@[a].0@) by {
                    if a < before.len() {
                        assert(catalog@[a] == before[a]);
                        assert(before[a].0@ != window_at(img, n as int, k as int));
                        assert(window_count(img, n as int, k + 1, catalog@[a].0@) == window_count(img, n as int, k as int, catalog@[a].0@));
                    } else {
                        assert forall|j: int| 0 <= j <= k implies window_count(img, n as int, j, window_at(img, n as int, k as int)) == 0 by {
                            lemma_unseen_count(img, n as int, j, k as int, before);
                        }
                    }
                }
                assert forall|j: int| 0 <= j < k + 1 implies in_catalog(catalog@, #[trigger] window_at(img, n as int, j)) by {
                    if j < k {
                        assert(in_catalog(before, window_at(img, n as int, j)));
                        let a = choose|a: int| 0 <= a < before.len() && before[a].0@ == window_at(img, n as int, j);
                        assert(catalog@[a] == before[a]);
                    } else {
                        assert(catalog@[before.len() as int].0@ == window_at(img, n as int, j));
                    }
                }
            }
        }
        k = k + 1;
    }
    catalog
}

/// A block that no catalog entry holds, while every earlier window position
/// shows a block of the catalog, was shown by none of them.
proof fn lemma_unseen_count(img: SeedImage, n: int, j: int, k: int, cat: Seq<(Vec<Rgb>, usize)>)
    requires
        0 <= j <= k,
        forall|a: int| 0 <= a < cat.len() ==> cat[a].0@ != window_at(img, n, k),
        forall|m: int| 0 <= m < k ==> in_catalog(cat, #[trigger] window_at(img, n, m)),
    ensures
        window_count(img, n, j, window_at(img, n, k)) == 0,
    decreases j,
{
    if j > 0 {
        lemma_unseen_count(img, n, j - 1, k, cat);
        assert(in_catalog(cat, window_at(img, n, j - 1)));
    }
}

} // verus!
