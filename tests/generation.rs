use wave_collapse::direction::all_directions;
use wave_collapse::{
    get_valid_directions, slice_into_patterns, train_rules, Direction, GenerationError, MultiVec, Pattern,
    RulesChecker, WaveFunctionCollapseGenerator, EMPTY_TILE,
};

fn grid(rows: &[&[i32]]) -> MultiVec<i32> {
    let h = rows.len();
    let w = rows[0].len();
    let data: Vec<i32> = rows.iter().flat_map(|r| r.iter().copied()).collect();
    MultiVec::from_data(data, w, h)
}

fn stream_all(g: &mut WaveFunctionCollapseGenerator, size: usize) -> Result<MultiVec<i32>, GenerationError> {
    let mut out = MultiVec::new(EMPTY_TILE, size, size);
    while let Some((x, y, t)) = g.next_tile()? {
        *out.get_mut(x, y).unwrap() = t;
    }
    Ok(out)
}

fn rich_training() -> MultiVec<i32> {
    grid(&[
        &[0, 0, 0, 1, 1, 1],
        &[0, 0, 0, 1, 1, 1],
        &[0, 0, 2, 2, 1, 1],
        &[0, 0, 2, 2, 1, 1],
        &[0, 0, 0, 1, 1, 1],
        &[0, 0, 0, 1, 1, 1],
    ])
}

#[test]
fn single_pattern_fills_the_output() {
    let mut g = WaveFunctionCollapseGenerator::new(grid(&[&[0, 1], &[1, 0]]), 6, 2, 42).unwrap();
    assert_eq!(g.catalog().len(), 1);
    assert_eq!(g.catalog()[0].flat_definition, [0, 1, 1, 0]);
    assert_eq!(g.catalog()[0].occurrences, 1);
    let out = g.generate().unwrap();
    assert_eq!((out.w, out.h), (6, 6));
    for oy in 0..6 {
        for ox in 0..6 {
            let expected = if ox == 5 || oy == 5 {
                EMPTY_TILE
            } else if ox < 4 && oy < 4 {
                0
            } else if ox == 4 && oy < 4 {
                1
            } else if oy == 4 && ox < 4 {
                1
            } else {
                0
            };
            assert_eq!(*out.get(ox, oy).unwrap(), expected, "tile ({ox}, {oy})");
        }
    }
    assert_eq!(g.last_failure(), None);
}

#[test]
fn single_pattern_stream_matches_batch() {
    let mut batch = WaveFunctionCollapseGenerator::new(grid(&[&[0, 1], &[1, 0]]), 5, 2, 1).unwrap();
    let mut streamed = WaveFunctionCollapseGenerator::new(grid(&[&[0, 1], &[1, 0]]), 5, 2, 1).unwrap();
    let a = batch.generate().unwrap();
    let b = stream_all(&mut streamed, 5).unwrap();
    assert_eq!(a.data, b.data);
    assert_eq!(streamed.next_tile(), Ok(None));
}

#[test]
fn stripes_generate_alternating_rows() {
    let mut g = WaveFunctionCollapseGenerator::new(grid(&[&[0, 0, 0], &[1, 1, 1], &[0, 0, 0]]), 8, 2, 7).unwrap();
    let out = g.generate().unwrap();
    let first = *out.get(0, 0).unwrap();
    for oy in 0..7 {
        for ox in 0..7 {
            let expected = if oy % 2 == 0 { first } else { 1 - first };
            assert_eq!(*out.get(ox, oy).unwrap(), expected);
        }
        assert_eq!(*out.get(7, oy).unwrap(), EMPTY_TILE);
    }
}

#[test]
fn output_is_made_of_catalog_patterns() {
    for seed in 0..5u64 {
        let mut g = WaveFunctionCollapseGenerator::new(rich_training(), 10, 2, seed).unwrap();
        if let Ok(out) = g.generate() {
            let (w, h) = (g.wave_width(), g.wave_height());
            for oy in 0..out.h {
                for ox in 0..out.w {
                    let t = *out.get(ox, oy).unwrap();
                    if ox > w || oy > h {
                        assert_eq!(t, EMPTY_TILE);
                        continue;
                    }
                    let x = ox.min(w - 1);
                    let y = oy.min(h - 1);
                    let p = g.possibilities(x, y);
                    assert_eq!(p.len(), 1);
                    let def = g.catalog()[p[0]].flat_definition;
                    assert_eq!(t, def[(ox - x) + 2 * (oy - y)]);
                }
            }
        }
    }
}

#[test]
fn neighbouring_cells_respect_the_rules() {
    let mut successes = 0;
    for seed in 0..8u64 {
        let mut g = WaveFunctionCollapseGenerator::new(rich_training(), 9, 2, seed).unwrap();
        if g.generate().is_err() {
            continue;
        }
        successes += 1;
        let (w, h) = (g.wave_width(), g.wave_height());
        for y in 0..h {
            for x in 0..w {
                let a = g.possibilities(x, y)[0];
                for d in get_valid_directions(x, y, w, h) {
                    let (dx, dy) = d.offset();
                    let nx = (x as i32 + dx) as usize;
                    let ny = (y as i32 + dy) as usize;
                    let b = g.possibilities(nx, ny)[0];
                    assert!(g.rules_checker().get_possible_patterns(a, d).contains(b));
                }
            }
        }
    }
    assert!(successes > 0);
}

#[test]
fn same_seed_same_output() {
    for seed in [3u64, 666] {
        let mut a = WaveFunctionCollapseGenerator::new(rich_training(), 12, 2, seed).unwrap();
        let mut b = WaveFunctionCollapseGenerator::new(rich_training(), 12, 2, seed).unwrap();
        let ra = a.generate();
        let rb = b.generate();
        match (ra, rb) {
            (Ok(x), Ok(y)) => assert_eq!(x.data, y.data),
            (Err(x), Err(y)) => assert_eq!(x, y),
            _ => panic!("runs with one seed disagree"),
        }
    }
}

#[test]
fn stream_matches_batch() {
    for seed in 0..4u64 {
        let mut a = WaveFunctionCollapseGenerator::new(rich_training(), 9, 2, seed).unwrap();
        let mut b = WaveFunctionCollapseGenerator::new(rich_training(), 9, 2, seed).unwrap();
        match (a.generate(), stream_all(&mut b, 9)) {
            (Ok(x), Ok(y)) => assert_eq!(x.data, y.data),
            (Err(x), Err(y)) => assert_eq!(x, y),
            _ => panic!("stream and batch disagree"),
        }
    }
}

#[test]
fn malformed_training_grid_is_refused() {
    let r = WaveFunctionCollapseGenerator::new(grid(&[&[-1, -1, -1], &[-1, 5, -1]]), 6, 2, 0);
    assert_eq!(r.err(), Some(GenerationError::MalformedTrainingData));
}

fn contradiction_setup() -> WaveFunctionCollapseGenerator {
    let patterns = vec![Pattern::new([0, 0, 0, 0], 1), Pattern::new([1, 1, 1, 1], 1)];
    let mut rules = RulesChecker::new();
    for p in 0..2 {
        for d in all_directions() {
            if d == Direction::Right {
                continue;
            }
            for q in 0..2 {
                rules.add_rule(p, d, q);
            }
        }
    }
    WaveFunctionCollapseGenerator::from_catalog(patterns, rules, 5, 1, 9)
}

#[test]
fn missing_neighbour_rule_is_a_contradiction() {
    let mut g = contradiction_setup();
    assert_eq!((g.wave_width(), g.wave_height()), (5, 1));
    match g.generate() {
        Err(GenerationError::Contradiction { x, y, direction }) => {
            assert_eq!(direction, Direction::Right);
            assert_eq!(y, 0);
            assert!(x >= 1 && x < 5);
            assert!(g.possibilities(x, y).is_empty());
        }
        other => panic!("expected a contradiction, got {:?}", other.map(|o| o.data)),
    }
    assert!(g.last_failure().is_some());
    assert_eq!(g.generate().err(), g.last_failure());
}

#[test]
fn contradiction_stops_the_stream() {
    let mut g = contradiction_setup();
    let mut failure = None;
    for _ in 0..100 {
        match g.next_tile() {
            Ok(Some(_)) => {}
            Ok(None) => panic!("stream ended without the contradiction"),
            Err(e) => {
                failure = Some(e);
                break;
            }
        }
    }
    let e = failure.expect("contradiction surfaced");
    assert!(matches!(e, GenerationError::Contradiction { direction: Direction::Right, .. }));
    assert_eq!(g.next_tile(), Err(e));
}

#[test]
fn valid_directions_stop_at_the_edges() {
    let corner = get_valid_directions(0, 0, 3, 3);
    assert_eq!(corner.len(), 3);
    assert!(corner.contains(&Direction::Right) && corner.contains(&Direction::Down) && corner.contains(&Direction::DownRight));
    assert_eq!(get_valid_directions(1, 1, 3, 3).len(), 8);
    assert_eq!(get_valid_directions(2, 1, 3, 3).len(), 5);
    assert_eq!(get_valid_directions(2, 0, 3, 1), vec![Direction::Left]);
    assert!(get_valid_directions(0, 0, 1, 1).is_empty());
}

#[test]
fn trained_catalog_from_new_matches_the_parts() {
    let g = WaveFunctionCollapseGenerator::new(rich_training(), 7, 2, 5).unwrap();
    let ps = slice_into_patterns(rich_training(), 2).unwrap();
    let rules = train_rules(&ps, 2);
    assert_eq!(g.catalog().len(), ps.len());
    for p in 0..ps.len() {
        assert_eq!(g.catalog()[p].flat_definition, ps[p].flat_definition);
        for d in all_directions() {
            assert_eq!(
                g.rules_checker().get_possible_patterns(p, d).iter().collect::<Vec<usize>>(),
                rules.get_possible_patterns(p, d).iter().collect::<Vec<usize>>()
            );
        }
    }
    assert_eq!((g.wave_width(), g.wave_height()), (5, 5));
    assert_eq!(g.possibilities(2, 3).len(), ps.len());
}
