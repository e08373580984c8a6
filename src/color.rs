use vstd::prelude::*;

verus! {

/// An RGB color. Colors are ordered by red, then green, then blue.
#[derive(Clone, Copy, Debug, PartialEq, Eq, Structural, Hash, PartialOrd, Ord)]
pub struct Rgb {
    pub r: u8,
    pub g: u8,
    pub b: u8,
}

/// The position of a color in the red, green, blue order.
pub open spec fn color_key(c: Rgb) -> int {
    c.r as int * 65536 + c.g as int * 256 + c.b as int
}

/// Strictly increasing under the color order: sorted, with no color twice.
pub open spec fn strictly_sorted(p: Seq<Rgb>) -> bool {
    forall|i: int, j: int| 0 <= i < j < p.len() ==> color_key(p[i]) < color_key(p[j])
}

/// Two colors with the same position in the order are the same color.
pub proof fn lemma_color_key_injective(a: Rgb, b: Rgb)
    requires
        color_key(a) == color_key(b),
    ensures
        a == b,
{
    let (ar, ag, ab) = (a.r as int, a.g as int, a.b as int);
    let (br, bg, bb) = (b.r as int, b.g as int, b.b as int);
    assert(ar == br && ag == bg && ab == bb) by (nonlinear_arith)
        requires
            ar * 65536 + ag * 256 + ab == br * 65536 + bg * 256 + bb,
            0 <= ar < 256, 0 <= ag < 256, 0 <= ab < 256,
            0 <= br < 256, 0 <= bg < 256, 0 <= bb < 256,
    ;
}

fn key_of(c: Rgb) -> (r: u32)
    ensures
        r as int == color_key(c),
{
    c.r as u32 * 65536 + c.g as u32 * 256 + c.b as u32
}

/// Binary search for `c` in a strictly sorted palette: `Ok` with its index
/// when it is there, else `Err` with the index at which it would be inserted
/// to keep the palette sorted.
pub fn find_color(palette: &Vec<Rgb>, c: Rgb) -> (r: Result<usize, usize>)
    requires
        strictly_sorted(palette@),
    ensures
        r matches Ok(i) ==> i < palette@.len() && palette@[i as int] == c,
        r matches Err(i) ==> {
            &&& i <= palette@.len()
            &&& !palette@.contains(c)
            &&& forall|j: int| 0 <= j < i ==> color_key(palette@[j]) < color_key(c)
            &&& forall|j: int| i <= j < palette@.len() ==> color_key(c) < color_key(palette@[j])
        },
        r is Ok <==> palette@.contains(c),
{
    let k = key_of(c);
    let mut lo: usize = 0;
    let mut hi: usize = palette.len();
    while lo < hi
        invariant
            strictly_sorted(palette@),
            k as int == color_key(c),
            lo <= hi <= palette@.len(),
            forall|j: int| 0 <= j < lo ==> color_key(palette@[j]) < color_key(c),
            forall|j: int| hi <= j < palette@.len() ==> color_key(c) < color_key(palette@[j]),
        decreases hi - lo,
    {
        let mid = lo + (hi - lo) / 2;
        let km = key_of(palette[mid]);
        if km < k {
            lo = mid + 1;
        } else if k < km {
            hi = mid;
        } else {
            proof {
                lemma_color_key_injective(palette@[mid as int], c);
            }
            return Ok(mid);
        }
    }
    proof {
        if palette@.contains(c) {
            let j = choose|j: int| 0 <= j < palette@.len() && palette@[j] == c;
            assert(color_key(palette@[j]) == color_key(c));
        }
    }
    Err(lo)
}

/// The palette of a list of pixels: every color that occurs, once each,
/// sorted.
pub fn build_color_palette(pixels: &Vec<Rgb>) -> (r: Vec<Rgb>)
    ensures
        strictly_sorted(r@),
        forall|c: Rgb| r@.contains(c) <==> pixels@.contains(c),
{
    let mut palette: Vec<Rgb> = Vec::new();
    let mut k: usize = 0;
    while k < pixels.len()
        invariant
            k <= pixels@.len(),
            strictly_sorted(palette@),
            forall|c: Rgb| palette@.contains(c) <==> pixels@.take(k as int).contains(c),
        decreases pixels@.len() - k,
    {
        let c = pixels[k];
        let ghost before = palette@;
        let ghost seen = pixels@.take(k as int);
        assert(forall|x: Rgb| before.contains(x) <==> seen.contains(x));
        assert(pixels@.take(k as int + 1) =~= seen.push(c));
        assert forall|x: Rgb| seen.push(c).contains(x) <==> seen.contains(x) || x == c by {
            if seen.push(c).contains(x) {
                let j = choose|j: int| 0 <= j < seen.len() + 1 && seen.push(c)[j] == x;
                if j < seen.len() {
                    assert(seen[j] == x);
                }
            }
            if seen.contains(x) {
                let j = choose|j: int| 0 <= j < seen.len() && seen[j] == x;
                assert(seen.push(c)[j] == x);
            }
            if x == c {
                assert(seen.push(c)[seen.len() as int] == x);
            }
        }
        match find_color(&palette, c) {
            Ok(_) => {
                assert forall|x: Rgb| palette@.contains(x) <==> seen.push(c).contains(x) by {
                    if x == c {
                        assert(palette@.contains(c));
                    }
                }
            },
            Err(i) => {
                palette.insert(i, c);
                assert(palette@ =~= before.insert(i as int, c));
                assert forall|a: int, b: int| 0 <= a < b < palette@.len() implies
                    color_key(palette@[a]) < color_key(palette@[b]) by {
                    if a < i && b == i {
                    } else if a < i && b > i {
                        assert(palette@[b] == before[b - 1]);
                    } else if a == i {
                        assert(palette@[b] == before[b - 1]);
                    } else if a > i {
                        assert(palette@[a] == before[a - 1]);
                        assert(palette@[b] == before[b - 1]);
                    }
                }
                assert forall|x: Rgb| palette@.contains(x) <==> before.contains(x) || x == c by {
                    if palette@.contains(x) {
                        let j = choose|j: int| 0 <= j < palette@.len() && palette@[j] == x;
                        if j < i {
                            assert(before[j] == x);
                        } else if j > i {
                            assert(before[j - 1] == x);
                        }
                    }
                    if before.contains(x) {
                        let j = choose|j: int| 0 <= j < before.len() && before[j] == x;
                        if j < i {
                            assert(palette@[j] == x);
                        } else {
                            assert(palette@[j + 1] == x);
                        }
                    }
                    if x == c {
                        assert(palette@[i as int] == c);
                    }
                }
                assert forall|x: Rgb| palette@.contains(x) <==> seen.push(c).contains(x) by {
                    assert(palette@.contains(x) <==> before.contains(x) || x == c);
                    assert(before.contains(x) <==> seen.contains(x));
                    assert(seen.push(c).contains(x) <==> seen.contains(x) || x == c);
                }
            },
        }
        k = k + 1;
    }
    assert(pixels@.take(k as int) =~= pixels@);
    palette
}

} // verus!
