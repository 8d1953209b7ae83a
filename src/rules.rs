//! Adjacency rules: which pattern may sit at which offset from which other.

use vstd::prelude::*;
use bit_set::BitSet;
use crate::bits::{bits_of, set_new, set_insert};
use crate::catalog::{Pattern, definitions};
use crate::direction::{Direction, all_directions, direction_seq, index_of, opposite_of, DIRECTION_COUNT, lemma_direction_steps};

verus! {

/// The cells of a 2 by 2 pattern that a neighbour placed in direction `d`
/// of another pattern shares with it, seen from the neighbour.
pub open spec fn relevant_tiles(def: Seq<i32>, d: Direction) -> Seq<i32> {
    match d {
        Direction::Stay => def,
        Direction::UpLeft => seq![def[3]],
        Direction::Up => seq![def[2], def[3]],
        Direction::UpRight => seq![def[2]],
        Direction::Left => seq![def[1], def[3]],
        Direction::Right => seq![def[0], def[2]],
        Direction::DownLeft => seq![def[1]],
        Direction::Down => seq![def[0], def[1]],
        Direction::DownRight => seq![def[0]],
    }
}

/// A pattern defined by `next` may sit in direction `d` of one defined by
/// `current` when their overlapping cells agree.
pub open spec fn compatible(current: Seq<i32>, next: Seq<i32>, d: Direction) -> bool {
    relevant_tiles(next, d) == relevant_tiles(current, opposite_of(d))
}

/// The cells of `pattern` to compare when checking overlap in `direction`.
pub fn get_relevant_tiles_for_checking_overlapping_patterns(
    pattern: &Pattern,
    direction_for_checking_overlapping: Direction,
    pattern_edge_length: usize,
) -> (r: Vec<i32>)
    requires
        pattern_edge_length == 2,
    ensures
        r@ == relevant_tiles(pattern.flat_definition@, direction_for_checking_overlapping),
{
    let f = pattern.flat_definition;
    let r = match direction_for_checking_overlapping {
        Direction::Stay => vec![f[0], f[1], f[2], f[3]],
        Direction::UpLeft => vec![f[3]],
        Direction::Up => vec![f[2], f[3]],
        Direction::UpRight => vec![f[2]],
        Direction::Left => vec![f[1], f[3]],
        Direction::Right => vec![f[0], f[2]],
        Direction::DownLeft => vec![f[1]],
        Direction::Down => vec![f[0], f[1]],
        Direction::DownRight => vec![f[0]],
    };
    assert(r@ =~= relevant_tiles(f@, direction_for_checking_overlapping));
    r
}

/// Whether two tile sequences are equal.
fn same_tiles(a: &Vec<i32>, b: &Vec<i32>) -> (r: bool)
    ensures
        r == (a@ == b@),
{
    if a.len() != b.len() {
        return false;
    }
    let mut i: usize = 0;
    while i < a.len()
        invariant
            a.len() == b.len(),
            i <= a.len(),
            forall|k: int| 0 <= k < i ==> a@[k] == b@[k],
        decreases a.len() - i,
    {
        if a[i] != b[i] {
            return false;
        }
        i += 1;
    }
    assert(a@ =~= b@);
    true
}

/// For each pattern and direction, the set of patterns allowed there.
pub struct RulesChecker {
    rules: Vec<BitSet>,
}

impl RulesChecker {
    /// The number of patterns that have rules.
    pub closed spec fn pattern_count(&self) -> nat {
        (self.rules@.len() as int / DIRECTION_COUNT as int) as nat
    }

    /// The patterns allowed in direction `d` of pattern `p`.
    pub closed spec fn allowed(&self, p: int, d: Direction) -> Set<usize> {
        bits_of(self.rules@[p * DIRECTION_COUNT + index_of(d)])
    }

    /// One set per pattern and direction.
    pub closed spec fn wf(&self) -> bool {
        self.rules@.len() as int % DIRECTION_COUNT as int == 0
    }

    /// For each of the patterns `ps` and each direction, exactly the patterns
    /// of `ps` whose overlap agrees are allowed.
    pub open spec fn is_trained_on(&self, ps: Seq<Pattern>) -> bool {
        &&& self.wf()
        &&& self.pattern_count() == ps.len()
        &&& forall|p: int, d: Direction, q: usize|
            0 <= p < ps.len() ==> (#[trigger] self.allowed(p, d).contains(q) <==> (q < ps.len()
                && compatible(definitions(ps)[p], definitions(ps)[q as int], d)))
    }

    /// Rules for no pattern.
    pub fn new() -> (r: Self)
        ensures
            r.wf(),
            r.pattern_count() == 0,
    {
        RulesChecker { rules: Vec::new() }
    }

    /// Allow pattern `next_pattern_index` in `direction` of pattern
    /// `current_pattern_index`; a pattern without rules first gets an empty
    /// set for every direction.
    pub fn add_rule(&mut self, current_pattern_index: usize, direction: Direction, next_pattern_index: usize)
        requires
            old(self).wf(),
            (current_pattern_index + 1) * DIRECTION_COUNT <= usize::MAX,
            next_pattern_index < usize::MAX,
        ensures
            final(self).wf(),
            final(self).pattern_count() == if current_pattern_index < old(self).pattern_count() {
                old(self).pattern_count()
            } else {
                (current_pattern_index + 1) as nat
            },
            forall|p: int, d: Direction|
                0 <= p < final(self).pattern_count() ==> #[trigger] final(self).allowed(p, d) == if p
                    == current_pattern_index && d == direction {
                    (if p < old(self).pattern_count() {
                        old(self).allowed(p, d)
                    } else {
                        Set::empty()
                    }).insert(next_pattern_index)
                } else if p < old(self).pattern_count() {
                    old(self).allowed(p, d)
                } else {
                    Set::empty()
                },
    {
        let ghost before = *self;
        let target = (current_pattern_index + 1) * DIRECTION_COUNT;
        while self.rules.len() < target
            invariant
                before.wf(),
                self.rules@.len() >= before.rules@.len(),
                target == (current_pattern_index + 1) * DIRECTION_COUNT,
                self.rules@.len() <= target || self.rules@.len() == before.rules@.len(),
                forall|i: int| 0 <= i < before.rules@.len() ==> #[trigger] self.rules@[i] == before.rules@[i],
                forall|i: int|
                    before.rules@.len() <= i < self.rules@.len() ==> bits_of(#[trigger] self.rules@[i])
                        == Set::<usize>::empty(),
            decreases target - self.rules@.len(),
        {
            self.rules.push(set_new());
        }
        proof {
            assert(self.rules@.len() as int % 9 == 0) by (nonlinear_arith)
                requires self.rules@.len() == target || self.rules@.len() == before.rules@.len(),
                    before.rules@.len() as int % 9 == 0, target == (current_pattern_index + 1) * 9;
            assert(self.pattern_count() == if current_pattern_index < before.pattern_count() {
                before.pattern_count()
            } else {
                (current_pattern_index + 1) as nat
            }) by (nonlinear_arith)
                requires self.rules@.len() >= target, self.rules@.len() == target || self.rules@.len() == before.rules@.len(),
                    self.rules@.len() >= before.rules@.len(),
                    before.rules@.len() as int % 9 == 0, target == (current_pattern_index + 1) * 9,
                    self.pattern_count() == self.rules@.len() as int / 9,
                    before.pattern_count() == before.rules@.len() as int / 9;
            assert(current_pattern_index * 9 + index_of(direction) < self.rules@.len()) by (nonlinear_arith)
                requires self.rules@.len() >= target, target == (current_pattern_index + 1) * 9, index_of(direction) < 9;
        }
        let i = current_pattern_index * DIRECTION_COUNT + direction.index();
        set_insert(&mut self.rules[i], next_pattern_index);
        proof {
            lemma_direction_steps(direction, direction);
            assert forall|p: int, d: Direction| 0 <= p < self.pattern_count() implies #[trigger] self.allowed(p, d)
                == if p == current_pattern_index && d == direction {
                (if p < before.pattern_count() {
                    before.allowed(p, d)
                } else {
                    Set::empty()
                }).insert(next_pattern_index)
            } else if p < before.pattern_count() {
                before.allowed(p, d)
            } else {
                Set::empty()
            } by {
                lemma_direction_steps(d, direction);
                let k = p * DIRECTION_COUNT + index_of(d);
                assert(0 <= k < self.rules@.len()) by (nonlinear_arith)
                    requires 0 <= p, p < self.rules@.len() as int / 9, index_of(d) < 9, k == p * 9 + index_of(d);
                if k == i {
                    assert(p == current_pattern_index && d == direction) by (nonlinear_arith)
                        requires k == p * 9 + index_of(d), k == current_pattern_index * 9 + index_of(direction),
                        index_of(d) < 9, index_of(direction) < 9, p >= 0, current_pattern_index >= 0,
                        index_of(d) == index_of(direction) ==> d == direction;
                } else {
                    if p == current_pattern_index && d == direction {
                        assert(false);
                    }
                }
                if p < before.pattern_count() {
                    assert(k < before.rules@.len()) by (nonlinear_arith)
                        requires k == p * 9 + index_of(d), index_of(d) < 9, p < before.rules@.len() as int / 9, p >= 0;
                } else {
                    assert(k >= before.rules@.len()) by (nonlinear_arith)
                        requires k == p * 9 + index_of(d), p >= before.rules@.len() as int / 9, p >= 0,
                        before.rules@.len() as int % 9 == 0;
                }
            }
        }
    }

    /// The patterns allowed in `direction` of pattern `current_pattern_index`.
    pub fn get_possible_patterns(&self, current_pattern_index: usize, direction: Direction) -> (r: &BitSet)
        requires
            self.wf(),
            current_pattern_index < self.pattern_count(),
        ensures
            bits_of(*r) == self.allowed(current_pattern_index as int, direction),
    {
        proof {
            lemma_direction_steps(direction, direction);
            assert(current_pattern_index * 9 + index_of(direction) < self.rules@.len()) by (nonlinear_arith)
                requires current_pattern_index < self.rules@.len() as int / 9, index_of(direction) < 9;
            assert(current_pattern_index * 9 < self.rules@.len()) by (nonlinear_arith)
                requires current_pattern_index < self.rules@.len() as int / 9;
        }
        let n = self.rules.len();
        assert(current_pattern_index * 9 + index_of(direction) < n);
        let base = current_pattern_index * DIRECTION_COUNT;
        &self.rules[base + direction.index()]
    }
}


/// Whether `(p, q, k)` comes before `(a, b, j)` in lexicographic order.
pub open spec fn visited_before(p: int, q: int, k: int, a: int, b: int, j: int) -> bool {
    p < a || (p == a && (q < b || (q == b && k < j)))
}

/// The rules of a catalog: pattern `q` is allowed in direction `d` of pattern
/// `p` exactly when the cells where they overlap agree.
pub fn train_rules(patterns: &Vec<Pattern>, pattern_edge_length: usize) -> (r: RulesChecker)
    requires
        pattern_edge_length == 2,
        patterns@.len() * DIRECTION_COUNT <= usize::MAX,
    ensures
        r.is_trained_on(patterns@),
{
    let n = patterns.len();
    let mut rules = RulesChecker { rules: Vec::new() };
    let mut i: usize = 0;
    while i < n * DIRECTION_COUNT
        invariant
            i <= n * 9,
            n * 9 <= usize::MAX,
            rules.rules@.len() == i,
            forall|k: int| 0 <= k < i ==> bits_of(#[trigger] rules.rules@[k]) == Set::<usize>::empty(),
        decreases n * 9 - i,
    {
        rules.rules.push(set_new());
        i += 1;
    }
    proof {
        assert((n * 9) as int / 9 == n) by (nonlinear_arith);
        assert((n * 9) as int % 9 == 0) by (nonlinear_arith);
    }
    let directions = all_directions();
    let ghost defs = definitions(patterns@);
    let mut a: usize = 0;
    while a < n
        invariant
            n == patterns@.len(),
            n * 9 <= usize::MAX,
            defs == definitions(patterns@),
            directions@ == direction_seq(),
            pattern_edge_length == 2,
            a <= n,
            rules.wf(),
            rules.pattern_count() == n,
            forall|p: int, d: Direction|
                0 <= p < n ==> #[trigger] rules.allowed(p, d) == Set::new(
                    |q: usize|
                        q < n && compatible(defs[p], defs[q as int], d) && visited_before(
                            p,
                            q as int,
                            index_of(d) as int,
                            a as int,
                            0,
                            0,
                        ),
                ),
        decreases n - a,
    {
        let mut b: usize = 0;
        while b < n
            invariant
                n == patterns@.len(),
                n * 9 <= usize::MAX,
                defs == definitions(patterns@),
                directions@ == direction_seq(),
                pattern_edge_length == 2,
                a < n,
                b <= n,
                rules.wf(),
                rules.pattern_count() == n,
                forall|p: int, d: Direction|
                    0 <= p < n ==> #[trigger] rules.allowed(p, d) == Set::new(
                        |q: usize|
                            q < n && compatible(defs[p], defs[q as int], d) && visited_before(
                                p,
                                q as int,
                                index_of(d) as int,
                                a as int,
                                b as int,
                                0,
                            ),
                    ),
            decreases n - b,
        {
            let mut j: usize = 0;
            while j < DIRECTION_COUNT
                invariant
                    n == patterns@.len(),
                    n * 9 <= usize::MAX,
                    defs == definitions(patterns@),
                    directions@ == direction_seq(),
                    pattern_edge_length == 2,
                    a < n,
                    b < n,
                    j <= 9,
                    rules.wf(),
                    rules.pattern_count() == n,
                    forall|p: int, d: Direction|
                        0 <= p < n ==> #[trigger] rules.allowed(p, d) == Set::new(
                            |q: usize|
                                q < n && compatible(defs[p], defs[q as int], d) && visited_before(
                                    p,
                                    q as int,
                                    index_of(d) as int,
                                    a as int,
                                    b as int,
                                    j as int,
                                ),
                        ),
                decreases 9 - j,
            {
                let direction = directions[j];
                let opposite_direction = direction.opposite();
                let overlapping_tiles_next_pattern = get_relevant_tiles_for_checking_overlapping_patterns(
                    &patterns[b],
                    direction,
                    pattern_edge_length,
                );
                let overlapping_tiles_current_pattern = get_relevant_tiles_for_checking_overlapping_patterns(
                    &patterns[a],
                    opposite_direction,
                    pattern_edge_length,
                );
                let agree = same_tiles(&overlapping_tiles_next_pattern, &overlapping_tiles_current_pattern);
                let ghost before = rules;
                proof {
                    assert(defs[a as int] == patterns@[a as int].flat_definition@);
                    assert(defs[b as int] == patterns@[b as int].flat_definition@);
                    assert(agree == compatible(defs[a as int], defs[b as int], direction));
                    assert(index_of(direction) == j) by {
                        lemma_direction_steps(direction, direction);
                    }
                    assert((a + 1) * 9 <= n * 9) by (nonlinear_arith)
                        requires a < n;
                }
                if agree {
                    rules.add_rule(a, direction, b);
                }
                proof {
                    assert forall|p: int, d: Direction| 0 <= p < n implies #[trigger] rules.allowed(p, d)
                        == Set::new(
                        |q: usize|
                            q < n && compatible(defs[p], defs[q as int], d) && visited_before(
                                p,
                                q as int,
                                index_of(d) as int,
                                a as int,
                                b as int,
                                j + 1,
                            ),
                    ) by {
                        lemma_direction_steps(d, direction);
                        assert(before.allowed(p, d) == Set::new(
                            |q: usize|
                                q < n && compatible(defs[p], defs[q as int], d) && visited_before(
                                    p,
                                    q as int,
                                    index_of(d) as int,
                                    a as int,
                                    b as int,
                                    j as int,
                                ),
                        ));
                        assert(rules.allowed(p, d) =~= Set::new(
                            |q: usize|
                                q < n && compatible(defs[p], defs[q as int], d) && visited_before(
                                    p,
                                    q as int,
                                    index_of(d) as int,
                                    a as int,
                                    b as int,
                                    j + 1,
                                ),
                        ));
                    }
                }
                j += 1;
            }
            proof {
                assert forall|p: int, d: Direction| 0 <= p < n implies #[trigger] rules.allowed(p, d)
                    == Set::new(
                    |q: usize|
                        q < n && compatible(defs[p], defs[q as int], d) && visited_before(
                            p,
                            q as int,
                            index_of(d) as int,
                            a as int,
                            b + 1,
                            0,
                        ),
                ) by {
                    lemma_direction_steps(d, d);
                    assert(rules.allowed(p, d) =~= Set::new(
                        |q: usize|
                            q < n && compatible(defs[p], defs[q as int], d) && visited_before(
                                p,
                                q as int,
                                index_of(d) as int,
                                a as int,
                                b + 1,
                                0,
                            ),
                    ));
                }
            }
            b += 1;
        }
        proof {
            assert forall|p: int, d: Direction| 0 <= p < n implies #[trigger] rules.allowed(p, d)
                == Set::new(
                |q: usize|
                    q < n && compatible(defs[p], defs[q as int], d) && visited_before(
                        p,
                        q as int,
                        index_of(d) as int,
                        a + 1,
                        0,
                        0,
                    ),
            ) by {
                assert(rules.allowed(p, d) =~= Set::new(
                    |q: usize|
                        q < n && compatible(defs[p], defs[q as int], d) && visited_before(
                            p,
                            q as int,
                            index_of(d) as int,
                            a + 1,
                            0,
                            0,
                        ),
                ));
            }
        }
        a += 1;
    }
    rules
}

/// Rules trained on a catalog are symmetric: if `b` may sit in direction `d`
/// of `a`, then `a` may sit in the opposite direction of `b`.
pub proof fn lemma_rules_symmetric(rules: RulesChecker, ps: Seq<Pattern>, a: usize, b: usize, d: Direction)
    requires
        rules.is_trained_on(ps),
        a < ps.len(),
        rules.allowed(a as int, d).contains(b),
    ensures
        rules.allowed(b as int, opposite_of(d)).contains(a),
{
    lemma_direction_steps(d, d);
    assert(compatible(definitions(ps)[a as int], definitions(ps)[b as int], d));
    assert(rules.allowed(b as int, opposite_of(d)).contains(a));
}

} // verus!
