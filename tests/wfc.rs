use overlapping_wfc::{
    build_block_frequency_map, build_color_palette, find_color, select_lowest_nonzero_entropy,
    CellEntropy, Entropy, ModelError, OverlappingModel, Rgb, SeedImage, UncertainCell,
};

fn rgb(r: u8, g: u8, b: u8) -> Rgb {
    Rgb { r, g, b }
}

fn image(width: usize, height: usize, image_data: Vec<Rgb>) -> SeedImage {
    SeedImage { width, height, image_data }
}

fn shannon(weights: &[usize]) -> f64 {
    let total: usize = weights.iter().sum();
    let total = total as f64;
    -weights
        .iter()
        .map(|&w| {
            let p = w as f64 / total;
            p * p.ln()
        })
        .sum::<f64>()
}

fn classify(e: Option<Entropy>) -> CellEntropy {
    match e {
        None => CellEntropy::Contradiction,
        Some(Entropy::Zero) => CellEntropy::Decided,
        Some(Entropy::Positive(w)) => CellEntropy::Undecided(shannon(&w).to_bits()),
    }
}

fn grid_entropies(m: &OverlappingModel) -> Vec<CellEntropy> {
    let (w, h) = m.dims();
    let mut out = Vec::new();
    for y in 0..h {
        for x in 0..w {
            out.push(classify(m.entropy_at((y, x))));
        }
    }
    out
}

#[test]
fn new_cell_is_unconstrained() {
    let c = UncertainCell::new(3, 4);
    for i in 0..3 {
        assert!(c.valid_color(i));
    }
    for i in 0..4 {
        assert!(c.valid_state(i));
    }
}

#[test]
fn entropy_none_iff_no_state() {
    let cat = vec![((), 2usize), ((), 3usize)];
    let mut c = UncertainCell::new(1, 2);
    assert!(c.entropy(&cat).is_some());
    c.forbid_state(0);
    assert_eq!(c.entropy(&cat), Some(Entropy::Zero));
    c.forbid_state(1);
    assert_eq!(c.entropy(&cat), None);
}

#[test]
fn entropy_zero_iff_one_state() {
    let cat = vec![((), 5usize), ((), 1usize), ((), 7usize)];
    let mut c = UncertainCell::new(1, 3);
    assert_eq!(c.entropy(&cat), Some(Entropy::Positive(vec![5, 1, 7])));
    c.forbid_state(1);
    assert_eq!(c.entropy(&cat), Some(Entropy::Positive(vec![5, 7])));
    c.forbid_state(2);
    assert_eq!(c.entropy(&cat), Some(Entropy::Zero));
}

#[test]
fn positive_entropy_is_finite_and_positive() {
    let w = [3usize, 1, 4];
    let h = shannon(&w);
    assert!(h.is_finite());
    assert!(h > 0.0);
}

#[test]
fn choose_state_follows_weights() {
    let cat = vec![((), 2usize), ((), 3usize), ((), 1usize)];
    let mut c = UncertainCell::new(1, 3);
    assert_eq!(c.choose_state(&cat, 0), 0);
    assert_eq!(c.choose_state(&cat, 1), 0);
    assert_eq!(c.choose_state(&cat, 2), 1);
    assert_eq!(c.choose_state(&cat, 4), 1);
    assert_eq!(c.choose_state(&cat, 5), 2);
    assert_eq!(c.choose_state(&cat, 6), 0);
    c.forbid_state(1);
    assert_eq!(c.choose_state(&cat, 2), 2);
}

#[test]
fn collapse_keeps_exactly_one_possible_state() {
    let cat = vec![((), 2usize), ((), 3usize), ((), 1usize), ((), 4usize)];
    let mut c = UncertainCell::new(2, 4);
    c.forbid_state(0);
    c.collapse(&cat, 3);
    let set: Vec<usize> = (0..4).filter(|&i| c.valid_state(i)).collect();
    assert_eq!(set, vec![2]);
    assert!(c.valid_color(0) && c.valid_color(1));
    c.collapse(&cat, 17);
    let set: Vec<usize> = (0..4).filter(|&i| c.valid_state(i)).collect();
    assert_eq!(set, vec![2]);
}

#[test]
fn palette_is_sorted_without_duplicates() {
    let px = vec![rgb(9, 0, 0), rgb(1, 2, 3), rgb(9, 0, 0), rgb(1, 2, 0), rgb(0, 255, 255)];
    let p = build_color_palette(&px);
    assert_eq!(p, vec![rgb(0, 255, 255), rgb(1, 2, 0), rgb(1, 2, 3), rgb(9, 0, 0)]);
    assert_eq!(find_color(&p, rgb(1, 2, 3)), Ok(2));
    assert_eq!(find_color(&p, rgb(1, 2, 1)), Err(2));
    assert!(build_color_palette(&Vec::new()).is_empty());
}

#[test]
fn catalog_frequencies_sum_to_window_count() {
    let a = rgb(1, 0, 0);
    let b = rgb(0, 1, 0);
    let img = image(4, 3, vec![a, b, a, b, b, a, b, a, a, b, a, b]);
    let cat = build_block_frequency_map(&img, 2);
    let total: usize = cat.iter().map(|e| e.1).sum();
    assert_eq!(total, (3 - 2 + 1) * (4 - 2 + 1));
    assert_eq!(cat.len(), 2);
    assert_eq!(cat[0], (vec![a, b, b, a], 3));
    assert_eq!(cat[1], (vec![b, a, a, b], 3));
    assert!(build_block_frequency_map(&img, 4).is_empty());
}

#[test]
fn uniform_seed_is_decided_everywhere() {
    let c = rgb(7, 7, 7);
    let m = OverlappingModel::from_seed_image(image(2, 2, vec![c; 4]), (3, 2), 1);
    assert_eq!(m.palette_colors(), &vec![c]);
    assert_eq!(m.patterns(), &vec![(vec![c], 4)]);
    for y in 0..2 {
        for x in 0..3 {
            assert_eq!(m.entropy_at((y, x)), Some(Entropy::Zero));
        }
    }
    let e = grid_entropies(&m);
    assert_eq!(m.find_lowest_nonzero_entropy_coordinates(&e), Err(ModelError::AllStatesDecided));
}

#[test]
fn two_color_seed_has_ln2_entropy() {
    let a = rgb(0, 0, 0);
    let b = rgb(255, 255, 255);
    let m = OverlappingModel::from_seed_image(image(2, 1, vec![b, a]), (3, 3), 1);
    assert_eq!(m.palette_colors(), &vec![a, b]);
    let pats = m.patterns();
    assert_eq!(pats.len(), 2);
    assert!(pats.iter().all(|p| p.1 == 1));
    for y in 0..3 {
        for x in 0..3 {
            match m.entropy_at((y, x)) {
                Some(Entropy::Positive(w)) => {
                    assert_eq!(w, vec![1, 1]);
                    assert!((shannon(&w) - 2f64.ln()).abs() < 1e-12);
                }
                other => panic!("unexpected entropy {:?}", other),
            }
        }
    }
}

#[test]
fn unconstrained_grid_accepts_every_pattern() {
    let a = rgb(1, 1, 1);
    let b = rgb(2, 2, 2);
    let img = image(3, 3, vec![a, b, a, b, a, b, a, a, b]);
    let m = OverlappingModel::from_seed_image(img, (6, 5), 2);
    let all: Vec<usize> = (0..m.patterns().len()).collect();
    assert_eq!(m.valid_states_at_position((2, 2)), all);
    assert_eq!(m.valid_states_at_position((4, 5)), all);
    assert_eq!(m.valid_states_at_position((0, 5)), all);
    assert_eq!(m.valid_states_at_position((9, 9)), all);
}

#[test]
fn forbidden_color_excludes_overlapping_patterns() {
    let a = rgb(10, 0, 0);
    let b = rgb(20, 0, 0);
    let img = image(2, 1, vec![a, b]);
    let mut m = OverlappingModel::from_seed_image(img, (3, 3), 1);
    let ia = m.color_to_index(&a);
    let ib = m.color_to_index(&b);
    assert_eq!((ia, ib), (0, 1));
    m.forbid_color_at((1, 1), ia);
    assert!(!m.cell_at((1, 1)).valid_color(ia));
    assert!(m.cell_at((1, 1)).valid_color(ib));
    let pa = m.patterns().iter().position(|p| p.0 == vec![a]).unwrap();
    let pb = m.patterns().iter().position(|p| p.0 == vec![b]).unwrap();
    assert_eq!(m.valid_states_at_position((1, 1)), vec![pb]);
    let mut both = vec![pa, pb];
    both.sort();
    assert_eq!(m.valid_states_at_position((1, 2)), both);
    assert_eq!(m.valid_states_at_position((0, 1)), both);
}

#[test]
fn forbidden_color_excludes_larger_patterns_at_neighbours() {
    let a = rgb(1, 0, 0);
    let b = rgb(2, 0, 0);
    // Rows: a b / b a. Blocks of side 2: a single one.
    let img = image(2, 2, vec![a, b, b, a]);
    let mut m = OverlappingModel::from_seed_image(img, (4, 4), 2);
    assert_eq!(m.patterns().len(), 1);
    let ia = m.color_to_index(&a);
    m.forbid_color_at((2, 2), ia);
    // The pattern at (1, 1) puts `a` on (2, 2); at (1, 2) it puts `b` there.
    assert_eq!(m.valid_states_at_position((1, 1)), Vec::<usize>::new());
    assert_eq!(m.valid_states_at_position((1, 2)), vec![0]);
    assert_eq!(m.valid_states_at_position((2, 2)), Vec::<usize>::new());
    assert_eq!(m.valid_states_at_position((0, 0)), vec![0]);
}

#[test]
fn tie_goes_to_later_cell() {
    let e = vec![
        CellEntropy::Undecided(9),
        CellEntropy::Undecided(4),
        CellEntropy::Decided,
        CellEntropy::Undecided(4),
        CellEntropy::Undecided(5),
        CellEntropy::Decided,
    ];
    assert_eq!(select_lowest_nonzero_entropy(&e, 3), Ok((1, 0)));
    assert_eq!(select_lowest_nonzero_entropy(&e[..3].to_vec(), 3), Ok((0, 1)));
}

#[test]
fn first_contradiction_ends_scan() {
    let e = vec![
        CellEntropy::Undecided(1),
        CellEntropy::Decided,
        CellEntropy::Contradiction,
        CellEntropy::NotANumber,
        CellEntropy::Contradiction,
    ];
    assert_eq!(select_lowest_nonzero_entropy(&e, 2), Err(ModelError::NoValidStates((1, 0))));
    let e = vec![CellEntropy::Decided, CellEntropy::NotANumber, CellEntropy::Contradiction];
    assert_eq!(select_lowest_nonzero_entropy(&e, 2), Err(ModelError::UnexpectedNaN((0, 1))));
    assert_eq!(select_lowest_nonzero_entropy(&Vec::new(), 0), Err(ModelError::AllStatesDecided));
}

#[test]
fn model_selection_and_collapse() {
    let a = rgb(0, 0, 1);
    let b = rgb(0, 0, 2);
    let c = rgb(0, 0, 3);
    let mut m = OverlappingModel::from_seed_image(image(4, 1, vec![a, b, a, c]), (2, 2), 1);
    assert!(m.valid_coordinate((1, 1)));
    assert!(!m.valid_coordinate((2, 0)));
    assert!(!m.valid_coordinate((0, 2)));
    let e = grid_entropies(&m);
    assert_eq!(m.find_lowest_nonzero_entropy_coordinates(&e), Ok((1, 1)));
    m.collapse_at((1, 1), 0);
    let e = grid_entropies(&m);
    assert_eq!(e[3], CellEntropy::Decided);
    assert_eq!(m.find_lowest_nonzero_entropy_coordinates(&e), Ok((1, 0)));
    for p in [(0, 0), (0, 1), (1, 0)] {
        m.collapse_at(p, 3);
    }
    let e = grid_entropies(&m);
    assert_eq!(m.find_lowest_nonzero_entropy_coordinates(&e), Err(ModelError::AllStatesDecided));
}
