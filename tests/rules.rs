use wave_collapse::direction::all_directions;
use wave_collapse::{
    get_relevant_tiles_for_checking_overlapping_patterns, slice_into_patterns, train_rules, Direction, MultiVec,
    Pattern, RulesChecker,
};

fn grid(rows: &[&[i32]]) -> MultiVec<i32> {
    let h = rows.len();
    let w = rows[0].len();
    let data: Vec<i32> = rows.iter().flat_map(|r| r.iter().copied()).collect();
    MultiVec::from_data(data, w, h)
}

#[test]
fn direction_offsets_and_opposites() {
    assert_eq!(Direction::Up.offset(), (0, -1));
    assert_eq!(Direction::DownLeft.offset(), (-1, 1));
    assert_eq!(Direction::Stay.offset(), (0, 0));
    assert_eq!(Direction::Up.opposite(), Direction::Down);
    assert_eq!(Direction::UpRight.opposite(), Direction::DownLeft);
    assert_eq!(Direction::Stay.opposite(), Direction::Stay);
    assert_eq!(Direction::from_offset(1, 1), Some(Direction::DownRight));
    assert_eq!(Direction::from_offset(2, 0), None);
    for d in all_directions() {
        let (x, y) = d.offset();
        assert_eq!(d.opposite().offset(), (-x, -y));
        assert_eq!(Direction::from_offset(x, y), Some(d));
    }
    assert_eq!(all_directions().len(), 9);
    assert_eq!(Direction::DownRight.index(), 8);
}

#[test]
fn relevant_tiles_per_direction() {
    let p = Pattern::new([1, 2, 3, 4], 1);
    let r = |d| get_relevant_tiles_for_checking_overlapping_patterns(&p, d, 2);
    assert_eq!(r(Direction::Stay), vec![1, 2, 3, 4]);
    assert_eq!(r(Direction::UpLeft), vec![4]);
    assert_eq!(r(Direction::Up), vec![3, 4]);
    assert_eq!(r(Direction::UpRight), vec![3]);
    assert_eq!(r(Direction::Left), vec![2, 4]);
    assert_eq!(r(Direction::Right), vec![1, 3]);
    assert_eq!(r(Direction::DownLeft), vec![2]);
    assert_eq!(r(Direction::Down), vec![1, 2]);
    assert_eq!(r(Direction::DownRight), vec![1]);
}

#[test]
fn add_rule_creates_every_direction() {
    let mut rules = RulesChecker::new();
    rules.add_rule(1, Direction::Left, 0);
    rules.add_rule(1, Direction::Left, 3);
    for d in all_directions() {
        let s = rules.get_possible_patterns(0, d);
        assert_eq!(s.len(), 0);
    }
    let s = rules.get_possible_patterns(1, Direction::Left);
    assert_eq!(s.iter().collect::<Vec<usize>>(), vec![0, 3]);
    assert_eq!(rules.get_possible_patterns(1, Direction::Right).len(), 0);
}

#[test]
fn stripes_allow_only_alternating_rows() {
    let ps = slice_into_patterns(grid(&[&[0, 0, 0], &[1, 1, 1], &[0, 0, 0]]), 2).unwrap();
    assert_eq!(ps.len(), 2);
    assert_eq!(ps[0].flat_definition, [0, 0, 1, 1]);
    assert_eq!(ps[1].flat_definition, [1, 1, 0, 0]);
    let rules = train_rules(&ps, 2);
    let allowed = |p: usize, d: Direction| rules.get_possible_patterns(p, d).iter().collect::<Vec<usize>>();
    assert_eq!(allowed(0, Direction::Right), vec![0]);
    assert_eq!(allowed(0, Direction::Down), vec![1]);
    assert_eq!(allowed(0, Direction::Up), vec![1]);
    assert_eq!(allowed(1, Direction::Left), vec![1]);
    assert_eq!(allowed(0, Direction::Stay), vec![0]);
    assert_eq!(allowed(0, Direction::DownRight), vec![1]);
}

#[test]
fn single_checker_pattern_does_not_fit_beside_itself() {
    let ps = slice_into_patterns(grid(&[&[0, 1], &[1, 0]]), 2).unwrap();
    let rules = train_rules(&ps, 2);
    assert_eq!(rules.get_possible_patterns(0, Direction::Right).len(), 0);
    assert_eq!(rules.get_possible_patterns(0, Direction::Down).len(), 0);
    assert_eq!(rules.get_possible_patterns(0, Direction::DownRight).iter().collect::<Vec<usize>>(), vec![0]);
    assert_eq!(rules.get_possible_patterns(0, Direction::Stay).iter().collect::<Vec<usize>>(), vec![0]);
}

#[test]
fn trained_rules_are_symmetric() {
    let ps = slice_into_patterns(
        grid(&[&[0, 0, 1, 2, 2], &[0, 1, 1, 2, 0], &[3, 1, 0, 0, 0], &[3, 3, 0, 1, 2]]),
        2,
    )
    .unwrap();
    let rules = train_rules(&ps, 2);
    let mut checked = 0;
    for a in 0..ps.len() {
        for d in all_directions() {
            for b in rules.get_possible_patterns(a, d).iter() {
                assert!(rules.get_possible_patterns(b, d.opposite()).contains(a));
                checked += 1;
            }
        }
    }
    assert!(checked > ps.len());
}
