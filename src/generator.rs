//! The generator: a grid of possibility sets narrowed by arc consistency and
//! collapsed one cell at a time, lowest entropy first.

use vstd::prelude::*;
use std::collections::VecDeque;
use bit_set::BitSet;
use rand::rngs::StdRng;
use crate::bits::{bits_of, full_set, set_len, set_elements, set_clear, set_insert};
use crate::catalog::{Pattern, definitions, total_occurrences, EMPTY_TILE, slice_into_patterns, training_windows, is_catalog_of, lemma_catalog_invariant, lemma_distinct_len, lemma_scan_windows_len};
use crate::rules::{train_rules, compatible};
use crate::direction::{Direction, dx, dy};
use crate::entropy::{set_entropy, shannon_entropy, weights_ok};
use crate::error::GenerationError;
use crate::multi_vec::{MultiVec, flat_index, lemma_flat_index_in_bounds};
use crate::random::{random_below, seeded_rng};
use crate::choice::{candidate_total, pick_weighted_index, lemma_candidate_weight_positive};
use crate::rules::RulesChecker;

mod propagation;

pub use propagation::sum_sizes;
pub use propagation::{lemma_decided_compose, lemma_each_cell_decided_once};
use propagation::{lemma_sum_sizes_update, lemma_sum_sizes_subset, lemma_decided_push, lemma_emissions_concat};

verus! {

/// The entropy jitter bound per unit of total weight: a tenth of a bit in the
/// scale of `set_entropy`.
pub const ENTROPY_JITTER_PER_WEIGHT: u128 = 6554;

/// Every `Set<usize>` is finite.
pub proof fn lemma_usize_set_finite(s: Set<usize>)
    ensures
        s.finite(),
{
    broadcast use vstd::set_lib::full_set_properties;
    assert(Set::<usize>::full().finite());
    vstd::set_lib::lemma_set_subset_finite(Set::<usize>::full(), s);
}

/// The pattern indices `0..n`.
pub open spec fn all_patterns(n: nat) -> Set<usize> {
    Set::new(|i: usize| i < n)
}

/// The tiles that collapsing the cell `(x, y)` of a `w` by `h` wave to a
/// pattern defined by `def` makes known: its top-left tile, and on the last
/// column or row also the tiles of the pattern that stick out of the wave.
pub open spec fn emission(def: Seq<i32>, x: usize, y: usize, w: usize, h: usize) -> Seq<
    (usize, usize, i32),
> {
    let right = x + 1 == w;
    let bottom = y + 1 == h;
    seq![(x, y, def[0])] + (if right {
        seq![((x + 1) as usize, y, def[1])]
    } else {
        Seq::empty()
    }) + (if bottom {
        seq![(x, (y + 1) as usize, def[2])]
    } else {
        Seq::empty()
    }) + (if right && bottom {
        seq![((x + 1) as usize, (y + 1) as usize, def[3])]
    } else {
        Seq::empty()
    })
}

/// `e` is zero for a decided set `s`, and otherwise the scaled entropy of `s`
/// less a jitter below `jitter`.
pub open spec fn entropy_fits(ps: Seq<Pattern>, total: nat, jitter: int, s: Set<usize>, e: i128) -> bool {
    if s.len() <= 1 {
        e == 0
    } else {
        set_entropy(ps, total, s) - jitter < e <= set_entropy(ps, total, s)
    }
}

/// The tiles of the cells left of column `k` in row `y`, all decided to a
/// pattern defined by `def`, left to right.
pub open spec fn row_emissions(def: Seq<i32>, w: usize, h: usize, y: usize, k: nat) -> Seq<(usize, usize, i32)>
    decreases k,
{
    if k == 0 {
        Seq::empty()
    } else {
        row_emissions(def, w, h, y, (k - 1) as nat) + emission(def, (k - 1) as usize, y, w, h)
    }
}

/// The tiles of the cells above row `m`, all decided to a pattern defined by
/// `def`, in row-major order.
pub open spec fn grid_emissions(def: Seq<i32>, w: usize, h: usize, m: nat) -> Seq<(usize, usize, i32)>
    decreases m,
{
    if m == 0 {
        Seq::empty()
    } else {
        grid_emissions(def, w, h, (m - 1) as nat) + row_emissions(def, w, h, (m - 1) as usize, w as nat)
    }
}

/// The tiles of the listed decided cells `(x, y, p)`, in list order.
pub open spec fn emissions(defs: Seq<Seq<i32>>, w: usize, h: usize, ds: Seq<(usize, usize, usize)>) -> Seq<(usize, usize, i32)>
    decreases ds.len(),
{
    if ds.len() == 0 {
        Seq::empty()
    } else {
        emissions(defs, w, h, ds.drop_last()) + emission(defs[ds.last().2 as int], ds.last().0, ds.last().1, w, h)
    }
}

/// `ds` lists, once each, exactly the cells that had two or more
/// possibilities in `before` and have exactly one in `after`, each with the
/// pattern it now holds.
pub open spec fn decided_between(before: Seq<Set<usize>>, after: Seq<Set<usize>>, w: int, h: int, ds: Seq<(usize, usize, usize)>) -> bool {
    &&& forall|k: int|
        0 <= k < ds.len() ==> {
            let (x, y, p) = #[trigger] ds[k];
            &&& in_wave(x as int, y as int, w, h)
            &&& before[flat_index(x as int, y as int, w)].len() >= 2
            &&& after[flat_index(x as int, y as int, w)] == set![p]
        }
    &&& forall|k1: int, k2: int|
        0 <= k1 < k2 < ds.len() ==> (#[trigger] ds[k1]).0 != (#[trigger] ds[k2]).0 || ds[k1].1 != ds[k2].1
    &&& forall|x: int, y: int|
        in_wave(x, y, w, h) && #[trigger] before[flat_index(x, y, w)].len() >= 2 && after[flat_index(x, y, w)].len() == 1
            ==> exists|k: int| 0 <= k < ds.len() && ds[k].0 == x && ds[k].1 == y
}

/// Tiles made known by collapses and not yet handed out.
pub struct CollapsedTiles {
    queue: VecDeque<(usize, usize, i32)>,
}

impl CollapsedTiles {
    /// The queued tiles, oldest first.
    pub closed spec fn view(&self) -> Seq<(usize, usize, i32)> {
        self.queue@
    }

    /// Queue the tiles that collapsing cell `pos` of a `w` by `h` wave to
    /// `pattern` makes known.
    pub fn insert_pattern(&mut self, pattern: &Pattern, pos: (usize, usize), w: usize, h: usize)
        requires
            pos.0 < w,
            pos.1 < h,
        ensures
            final(self)@ == old(self)@ + emission(pattern.flat_definition@, pos.0, pos.1, w, h),
    {
        let data = &pattern.flat_definition;
        let output_x2 = pos.0 == w - 1;
        let output_y2 = pos.1 == h - 1;
        let ghost start = self.queue@;
        self.queue.push_back((pos.0, pos.1, data[0]));
        if output_x2 {
            self.queue.push_back((pos.0 + 1, pos.1, data[1]));
        }
        if output_y2 {
            self.queue.push_back((pos.0, pos.1 + 1, data[2]));
        }
        if output_x2 && output_y2 {
            self.queue.push_back((pos.0 + 1, pos.1 + 1, data[3]));
        }
        assert(self.queue@ =~= start + emission(pattern.flat_definition@, pos.0, pos.1, w, h));
    }

    /// Drop every queued tile.
    pub fn clear(&mut self)
        ensures
            final(self)@ == Seq::<(usize, usize, i32)>::empty(),
    {
        self.queue.clear();
    }
}


/// `(x, y)` is a cell of a `w` by `h` wave.
pub open spec fn in_wave(x: int, y: int, w: int, h: int) -> bool {
    0 <= x < w && 0 <= y < h
}

/// The neighbour of `(x, y)` in direction `d` is another cell of the wave.
pub open spec fn has_neighbor(x: int, y: int, d: Direction, w: int, h: int) -> bool {
    d != Direction::Stay && in_wave(x + dx(d), y + dy(d), w, h)
}

/// The patterns that the rules allow in direction `d` of some member of `s`.
pub open spec fn support(rules: RulesChecker, s: Set<usize>, d: Direction) -> Set<usize> {
    Set::new(|q: usize| exists|a: usize| s.contains(a) && #[trigger] rules.allowed(a as int, d).contains(q))
}

/// Each neighbour of `(x, y)` holds only patterns that some pattern still
/// possible at `(x, y)` allows there.
pub open spec fn arc_consistent_at(
    sets: Seq<Set<usize>>,
    w: int,
    h: int,
    rules: RulesChecker,
    x: int,
    y: int,
) -> bool {
    forall|d: Direction|
        #[trigger] has_neighbor(x, y, d, w, h) ==> sets[flat_index(x + dx(d), y + dy(d), w)].subset_of(
            support(rules, sets[flat_index(x, y, w)], d),
        )
}

/// Every cell but the one at flat index `except` that has lost a possibility
/// is arc consistent.
pub open spec fn narrowed_cells_consistent(
    sets: Seq<Set<usize>>,
    w: int,
    h: int,
    rules: RulesChecker,
    n: nat,
    except: int,
) -> bool {
    forall|x: int, y: int|
        in_wave(x, y, w, h) && sets[flat_index(x, y, w)] != all_patterns(n) && flat_index(x, y, w) != except
            ==> #[trigger] arc_consistent_at(
            sets,
            w,
            h,
            rules,
            x,
            y,
        )
}

/// The generator of one output grid.
pub struct WaveFunctionCollapseGenerator {
    pattern_edge_length: usize,
    patterns: Vec<Pattern>,
    total_weight: usize,
    rules_checker: RulesChecker,
    possibilities_for_tiles: MultiVec<BitSet>,
    entropy_for_tile: MultiVec<i128>,
    random_number_generator: StdRng,
    collapsed_tiles: CollapsedTiles,
    failure: Option<GenerationError>,
}

impl WaveFunctionCollapseGenerator {
    /// The pattern catalog.
    pub closed spec fn patterns_view(&self) -> Seq<Pattern> {
        self.patterns@
    }

    /// The sum of the patterns' occurrences.
    pub closed spec fn total_weight(&self) -> nat {
        self.total_weight as nat
    }

    /// The adjacency rules.
    pub closed spec fn rules(&self) -> RulesChecker {
        self.rules_checker
    }

    /// The number of columns of the wave.
    pub closed spec fn width(&self) -> nat {
        self.possibilities_for_tiles.w as nat
    }

    /// The number of rows of the wave.
    pub closed spec fn height(&self) -> nat {
        self.possibilities_for_tiles.h as nat
    }

    /// The possibility set of each cell, row by row.
    pub closed spec fn cells(&self) -> Seq<Set<usize>> {
        self.possibilities_for_tiles.data@.map_values(|b: BitSet| bits_of(b))
    }

    /// The cached entropy of each cell, row by row.
    pub closed spec fn entropies(&self) -> Seq<i128> {
        self.entropy_for_tile.data@
    }

    /// The tiles made known and not yet handed out.
    pub closed spec fn pending(&self) -> Seq<(usize, usize, i32)> {
        self.collapsed_tiles@
    }

    /// The failure that stopped generation, if any.
    pub closed spec fn failure(&self) -> Option<GenerationError> {
        self.failure
    }

    /// The possibility set of cell `(x, y)`.
    pub open spec fn cell(&self, x: int, y: int) -> Set<usize> {
        self.cells()[flat_index(x, y, self.width() as int)]
    }

    /// Every cell holds at most one possibility.
    pub open spec fn finished(&self) -> bool {
        forall|i: int| 0 <= i < self.cells().len() ==> #[trigger] self.cells()[i].len() <= 1
    }

    /// The jitter bound of the entropy cache: a tenth of a bit.
    pub open spec fn jitter_bound(&self) -> int {
        self.total_weight() * ENTROPY_JITTER_PER_WEIGHT
    }

    /// The cached entropy of cell `i` is zero once it is decided, and
    /// otherwise its entropy less a jitter below `jitter_bound`.
    pub open spec fn entropy_consistent(&self, i: int) -> bool {
        entropy_fits(self.patterns_view(), self.total_weight(), self.jitter_bound(), self.cells()[i], self.entropies()[i])
    }

    /// Every cached entropy is consistent with its cell.
    pub open spec fn entropies_consistent(&self) -> bool {
        forall|i: int| 0 <= i < self.cells().len() ==> #[trigger] self.entropy_consistent(i)
    }

    /// The invariant that every public operation keeps.
    pub open spec fn ready(&self) -> bool {
        &&& self.wf()
        &&& self.failure().is_none() ==> self.entropies_consistent()
    }

    /// The pattern that decided cell `(x, y)` holds.
    pub open spec fn chosen(&self, x: int, y: int) -> usize {
        self.cell(x, y).choose()
    }

    /// The tile of the output grid at `(ox, oy)`: the output grid is two
    /// tiles wider and higher than the wave; the tile comes from the last
    /// cell in row-major order whose pattern covers it, so from the cell
    /// `(ox, oy)` itself except on the wave's last column and row, and the
    /// outermost column and row keep `EMPTY_TILE`.
    pub open spec fn output_tile(&self, ox: int, oy: int) -> i32 {
        let w = self.width() as int;
        let h = self.height() as int;
        if 0 <= ox <= w && 0 <= oy <= h && w >= 1 && h >= 1 {
            let x = if ox < w { ox } else { w - 1 };
            let y = if oy < h { oy } else { h - 1 };
            definitions(self.patterns_view())[self.chosen(x, y) as int][(ox - x) + 2 * (oy - y)]
        } else {
            EMPTY_TILE
        }
    }

    /// The cell whose pattern covers output tile `(tx, ty)` last in
    /// row-major order is decided, and `v` is that pattern's tile there: the
    /// tile of the output grid at `(tx, ty)`.
    pub open spec fn tile_settled(&self, t: (usize, usize, i32)) -> bool {
        let (tx, ty, v) = t;
        let w = self.width() as int;
        let h = self.height() as int;
        let x = if tx < w { tx as int } else { w - 1 };
        let y = if ty < h { ty as int } else { h - 1 };
        &&& tx <= w && ty <= h && w >= 1 && h >= 1
        &&& self.cells()[flat_index(x, y, w)].len() == 1
        &&& v == self.output_tile(tx as int, ty as int)
    }

    /// Every queued tile is settled.
    pub open spec fn pending_settled(&self) -> bool {
        forall|k: int| 0 <= k < self.pending().len() ==> #[trigger] self.tile_settled(self.pending()[k])
    }

    /// The generator's invariant.
    pub open spec fn wf(&self) -> bool {
        &&& self.wf_base()
        &&& self.cells().len() == self.width() * self.height()
        &&& self.failure().is_none() ==> self.open_cells_nonempty() && self.consistent_except(-1)
            && self.pending_settled()
    }

    /// `e` reports a narrowing step that emptied a cell: a contradiction at
    /// `(x, y)` in `direction`, where `(x, y)` is now empty and lies in
    /// `direction` of a cell that still has a possibility.
    pub open spec fn contradiction_at(&self, e: GenerationError) -> bool {
        match e {
            GenerationError::Contradiction { x, y, direction } => {
                let sx = x - dx(direction);
                let sy = y - dy(direction);
                &&& in_wave(sx, sy, self.width() as int, self.height() as int)
                &&& has_neighbor(sx, sy, direction, self.width() as int, self.height() as int)
                &&& self.cell(x as int, y as int) == Set::<usize>::empty()
                &&& self.cell(sx, sy) != Set::<usize>::empty()
            },
            _ => false,
        }
    }

    /// Every cell still has a possibility.
    pub open spec fn open_cells_nonempty(&self) -> bool {
        forall|i: int| 0 <= i < self.cells().len() ==> (#[trigger] self.cells()[i]) != Set::<usize>::empty()
    }

    /// Every narrowed cell but the one at flat index `except` is arc consistent.
    pub open spec fn consistent_except(&self, except: int) -> bool {
        narrowed_cells_consistent(
            self.cells(),
            self.width() as int,
            self.height() as int,
            self.rules(),
            self.patterns_view().len(),
            except,
        )
    }

    /// The parts of the invariant that hold even after a failure.
    pub closed spec fn wf_base(&self) -> bool {
        let n = self.patterns@.len();
        let w = self.possibilities_for_tiles.w as int;
        let h = self.possibilities_for_tiles.h as int;
        &&& self.pattern_edge_length == 2
        &&& n >= 1
        &&& n * 9 <= usize::MAX
        &&& weights_ok(self.patterns@, self.total_weight as nat)
        &&& self.rules_checker.wf()
        &&& self.rules_checker.pattern_count() == n
        &&& self.possibilities_for_tiles.wf()
        &&& self.entropy_for_tile.wf()
        &&& self.entropy_for_tile.w == w
        &&& self.entropy_for_tile.h == h
        &&& (w + 2) * (h + 2) <= usize::MAX
        &&& forall|i: int|
            0 <= i < w * h ==> (#[trigger] self.cells()[i]).subset_of(all_patterns(n))
    }

    /// The entropy of cell `i`'s possibility set, less a random jitter below
    /// `jitter_bound`, or zero when the cell is decided.
    fn get_shannon_entropy_for_tile(&mut self, i: usize) -> (r: i128)
        requires
            old(self).wf(),
            i < old(self).cells().len(),
        ensures
            final(self).wf(),
            final(self).patterns_view() == old(self).patterns_view(),
            final(self).total_weight() == old(self).total_weight(),
            final(self).rules() == old(self).rules(),
            final(self).width() == old(self).width(),
            final(self).height() == old(self).height(),
            final(self).cells() == old(self).cells(),
            final(self).entropies() == old(self).entropies(),
            final(self).pending() == old(self).pending(),
            final(self).failure() == old(self).failure(),
            ({
                let s = old(self).cells()[i as int];
                let e = set_entropy(old(self).patterns_view(), old(self).total_weight(), s);
                if s.len() <= 1 {
                    r == 0
                } else {
                    e - old(self).jitter_bound() < r <= e
                }
            }),
    {
        let ghost before = *self;
        let cell = &self.possibilities_for_tiles.data[i];
        proof {
            lemma_usize_set_finite(bits_of(*cell));
        }
        if set_len(cell) <= 1 {
            return 0;
        }
        let e = shannon_entropy(&self.patterns, self.total_weight, cell);
        proof {
            lemma_total_weight_positive(self.patterns@, self.total_weight as nat);
            assert(self.total_weight as u128 * ENTROPY_JITTER_PER_WEIGHT <= 0xffff_ffff_ffff_ffff * 6554)
                by (nonlinear_arith) requires self.total_weight <= 0xffff_ffff_ffff_ffff;
        }
        let bound = self.total_weight as u128 * ENTROPY_JITTER_PER_WEIGHT;
        let jitter = random_below(&mut self.random_number_generator, bound);
        proof {
            crate::entropy::lemma_set_entropy_bound(self.patterns@, self.total_weight as nat, bits_of(*cell));
            self.lemma_settled_same_cells(&before);
            assert(self.pending() == before.pending());
            if self.failure.is_none() {
                assert forall|k: int| 0 <= k < self.pending().len() implies #[trigger] self.tile_settled(self.pending()[k]) by {
                    assert(before.tile_settled(before.pending()[k]));
                }
            }
        }
        e - jitter as i128
    }

    /// Fill the entropy cache from the cells.
    fn init_entropies(&mut self)
        requires
            old(self).wf(),
        ensures
            final(self).wf(),
            final(self).entropies_consistent(),
            final(self).patterns_view() == old(self).patterns_view(),
            final(self).total_weight() == old(self).total_weight(),
            final(self).rules() == old(self).rules(),
            final(self).width() == old(self).width(),
            final(self).height() == old(self).height(),
            final(self).cells() == old(self).cells(),
            final(self).pending() == old(self).pending(),
            final(self).failure() == old(self).failure(),
    {
        let n = self.entropy_for_tile.data.len();
        let mut i: usize = 0;
        while i < n
            invariant
                self.wf(),
                n == self.cells().len(),
                n == self.entropies().len(),
                i <= n,
                self.patterns_view() == old(self).patterns_view(),
                self.total_weight() == old(self).total_weight(),
                self.rules() == old(self).rules(),
                self.width() == old(self).width(),
                self.height() == old(self).height(),
                self.cells() == old(self).cells(),
                self.pending() == old(self).pending(),
                self.failure() == old(self).failure(),
                forall|j: int| 0 <= j < i ==> #[trigger] self.entropy_consistent(j),
            decreases n - i,
        {
            let ghost before = *self;
            let e = self.get_shannon_entropy_for_tile(i);
            let ghost mid = *self;
            self.entropy_for_tile.data.set(i, e);
            proof {
                self.lemma_settled_same_cells(&mid);
                assert(self.entropies() == mid.entropies().update(i as int, e));
                assert forall|j: int| 0 <= j < i + 1 implies #[trigger] self.entropy_consistent(j) by {
                    if j < i {
                        assert(before.entropy_consistent(j));
                    }
                }
            }
            i += 1;
        }
    }

    /// Whether every cell holds at most one possibility.
    pub fn is_finished(&self) -> (r: bool)
        requires
            self.wf(),
        ensures
            r == self.finished(),
    {
        let n = self.possibilities_for_tiles.data.len();
        let mut i: usize = 0;
        while i < n
            invariant
                self.wf(),
                n == self.cells().len(),
                i <= n,
                forall|j: int| 0 <= j < i ==> #[trigger] self.cells()[j].len() <= 1,
            decreases n - i,
        {
            proof {
                assert(self.cells()[i as int] == bits_of(self.possibilities_for_tiles.data@[i as int]));
            }
            if set_len(&self.possibilities_for_tiles.data[i]) > 1 {
                return false;
            }
            i += 1;
        }
        true
    }

    /// The open cell with the lowest cached entropy, the first in row-major
    /// order among equals; `None` once every cell is decided.
    fn get_tile_position_with_minimal_entropy(&self) -> (r: Option<(usize, usize)>)
        requires
            self.wf(),
        ensures
            r.is_none() <==> self.finished(),
            r.is_some() ==> {
                let (x, y) = r.unwrap();
                let i = flat_index(x as int, y as int, self.width() as int);
                &&& in_wave(x as int, y as int, self.width() as int, self.height() as int)
                &&& self.cells()[i].len() >= 2
                &&& forall|j: int| 0 <= j < self.cells().len() && #[trigger] self.cells()[j].len() >= 2 ==> self.entropies()[i] <= self.entropies()[j]
                &&& forall|j: int| 0 <= j < i && #[trigger] self.cells()[j].len() >= 2 ==> self.entropies()[i] < self.entropies()[j]
            },
    {
        let n = self.possibilities_for_tiles.data.len();
        let mut best: Option<usize> = None;
        let mut i: usize = 0;
        while i < n
            invariant
                self.wf(),
                n == self.cells().len(),
                n == self.entropies().len(),
                i <= n,
                best.is_none() ==> forall|j: int| 0 <= j < i ==> #[trigger] self.cells()[j].len() <= 1,
                best.is_some() ==> {
                    let b = best.unwrap() as int;
                    &&& 0 <= b < i
                    &&& self.cells()[b].len() >= 2
                    &&& forall|j: int| 0 <= j < i && #[trigger] self.cells()[j].len() >= 2 ==> self.entropies()[b] <= self.entropies()[j]
                    &&& forall|j: int| 0 <= j < b && #[trigger] self.cells()[j].len() >= 2 ==> self.entropies()[b] < self.entropies()[j]
                },
            decreases n - i,
        {
            proof {
                assert(self.cells()[i as int] == bits_of(self.possibilities_for_tiles.data@[i as int]));
            }
            if set_len(&self.possibilities_for_tiles.data[i]) > 1 {
                match best {
                    None => {
                        best = Some(i);
                    },
                    Some(b) => {
                        if self.entropy_for_tile.data[i] < self.entropy_for_tile.data[b] {
                            best = Some(i);
                        }
                    },
                }
            }
            i += 1;
        }
        match best {
            None => None,
            Some(b) => {
                let p = MultiVec::<BitSet>::checked_index_to_xy(b, self.possibilities_for_tiles.w, self.possibilities_for_tiles.h);
                match p {
                    Some(xy) => Some(xy),
                    None => None,
                }
            },
        }
    }

    /// Decide the open cell of lowest entropy: choose one of its patterns
    /// with probability proportional to the pattern's weight, make it the
    /// cell's only possibility, zero its cached entropy, and queue its tiles.
    /// `None`, with nothing changed, once every cell is decided.
    fn collapse_one_possibility(&mut self) -> (r: Option<(usize, usize)>)
        requires
            old(self).wf(),
            old(self).failure().is_none(),
            old(self).entropies_consistent(),
        ensures
            final(self).wf_base(),
            final(self).failure().is_none(),
            final(self).open_cells_nonempty(),
            final(self).pending_settled(),
            final(self).entropies_consistent(),
            final(self).patterns_view() == old(self).patterns_view(),
            final(self).total_weight() == old(self).total_weight(),
            final(self).rules() == old(self).rules(),
            final(self).width() == old(self).width(),
            final(self).height() == old(self).height(),
            r.is_none() <==> old(self).finished(),
            r.is_none() ==> final(self).cells() == old(self).cells() && final(self).pending() == old(self).pending()
                && final(self).entropies() == old(self).entropies(),
            r.is_some() ==> {
                let (x, y) = r.unwrap();
                let i = flat_index(x as int, y as int, old(self).width() as int);
                &&& in_wave(x as int, y as int, old(self).width() as int, old(self).height() as int)
                &&& old(self).cells()[i].len() >= 2
                &&& forall|j: int| 0 <= j < old(self).cells().len() && #[trigger] old(self).cells()[j].len() >= 2 ==> old(self).entropies()[i] <= old(self).entropies()[j]
                &&& final(self).consistent_except(i)
                &&& final(self).entropies() == old(self).entropies().update(i, 0)
                &&& exists|p: usize| #![trigger old(self).cells()[i].contains(p)]
                    old(self).cells()[i].contains(p)
                    && final(self).cells() == old(self).cells().update(i, set![p])
                    && final(self).pending() == old(self).pending() + emission(
                        definitions(old(self).patterns_view())[p as int], x, y, old(self).width() as usize, old(self).height() as usize)
            },
    {
        let pos = self.get_tile_position_with_minimal_entropy();
        let (tile_x, tile_y) = match pos {
            None => {
                return None;
            },
            Some(p) => p,
        };
        let w = self.possibilities_for_tiles.w;
        let h = self.possibilities_for_tiles.h;
        proof {
            lemma_flat_index_in_bounds(tile_x as int, tile_y as int, w as int, h as int);
        }
        let i = tile_x + tile_y * w;
        let ghost cells0 = self.cells();
        let ghost old_self = *self;
        proof {
            assert(cells0[i as int] == bits_of(self.possibilities_for_tiles.data@[i as int]));
            lemma_usize_set_finite(cells0[i as int]);
        }
        let candidates = set_elements(&self.possibilities_for_tiles.data[i]);
        proof {
            assert forall|t: int| 0 <= t < candidates@.len() implies (#[trigger] candidates@[t] as int) < self.patterns@.len() by {
                assert(candidates@.contains(candidates@[t]));
                assert(cells0[i as int].contains(candidates@[t]));
            }
            vstd::set_lib::lemma_set_empty_equivalency_len(cells0[i as int]);
            let v = choose|v: usize| cells0[i as int].contains(v);
            assert(candidates@.contains(v));
            lemma_candidate_weight_positive(self.patterns@, candidates@, candidates@.len());
        }
        let total = candidate_total(&self.patterns, &candidates);
        let sample = random_below(&mut self.random_number_generator, total);
        let chosen_possibility_index = pick_weighted_index(&self.patterns, &candidates, sample);
        let chosen_pattern_index = candidates[chosen_possibility_index];
        proof {
            assert(candidates@.contains(chosen_pattern_index));
            assert(cells0[i as int].contains(chosen_pattern_index));
        }
        set_clear(&mut self.possibilities_for_tiles.data[i]);
        set_insert(&mut self.possibilities_for_tiles.data[i], chosen_pattern_index);
        self.entropy_for_tile.data.set(i, 0);
        let ghost before_queue = self.collapsed_tiles@;
        let ghost pre = *self;
        self.collapsed_tiles.insert_pattern(&self.patterns[chosen_pattern_index], (tile_x, tile_y), w, h);
        proof {
            let p = chosen_pattern_index;
            assert(bits_of(self.possibilities_for_tiles.data@[i as int]) =~= set![p]);
            assert(self.cells() =~= cells0.update(i as int, set![p]));
            assert(definitions(self.patterns@)[p as int] == self.patterns@[p as int].flat_definition@);
            let np = self.patterns@.len();
            assert forall|j: int| 0 <= j < w * h implies (#[trigger] self.cells()[j]).subset_of(all_patterns(np)) by {
                assert(old_self.cells()[j].subset_of(all_patterns(np)));
            }
            assert forall|j: int| 0 <= j < self.cells().len() implies (#[trigger] self.cells()[j]) != Set::<usize>::empty() by {
                if j == i {
                    assert(self.cells()[j].contains(p));
                } else {
                    assert(old_self.cells()[j] != Set::<usize>::empty());
                }
            }
            assert forall|j: int| 0 <= j < self.cells().len() implies #[trigger] self.entropy_consistent(j) by {
                if j == i {
                    Set::lemma_is_singleton(set![p]);
                    assert(set![p].is_singleton()) by {
                        assert forall|a: usize, b: usize| set![p].contains(a) && set![p].contains(b) implies a == b by {}
                    }
                } else {
                    assert(old_self.entropy_consistent(j));
                }
            }
            assert forall|x: int, y: int|
                in_wave(x, y, w as int, h as int) && self.cells()[flat_index(x, y, w as int)] != all_patterns(np)
                    && flat_index(x, y, w as int) != i
                implies #[trigger] arc_consistent_at(self.cells(), w as int, h as int, self.rules(), x, y) by {
                lemma_flat_index_in_bounds(x, y, w as int, h as int);
                assert(arc_consistent_at(cells0, w as int, h as int, self.rules(), x, y));
                assert forall|e: Direction| #[trigger] has_neighbor(x, y, e, w as int, h as int) implies self.cells()[flat_index(x + dx(e), y + dy(e), w as int)].subset_of(
                    support(self.rules(), self.cells()[flat_index(x, y, w as int)], e)) by {
                    lemma_flat_index_in_bounds(x + dx(e), y + dy(e), w as int, h as int);
                }
            }
            assert(self.consistent_except(i as int));
            assert(old_self.cells()[i as int].contains(p));
            assert((p as int) < self.patterns@.len()) by {
                assert(old_self.cells()[i as int].subset_of(all_patterns(np)));
            }
            assert(before_queue == old_self.pending());
            assert(pre.cells() == self.cells());
            assert(pre.cells() == old_self.cells().update(i as int, pre.cells()[i as int]));
            assert(old_self.cells()[i as int].contains(p));
            pre.lemma_narrowed_settled(&old_self, i as int);
            assert(definitions(pre.patterns_view())[p as int] == pre.patterns@[p as int].flat_definition@);
            self.lemma_pending_append_emission(&pre, tile_x, tile_y, p);
        }
        Some((tile_x, tile_y))
    }

    /// The output grid of a finished wave: see `output_tile`.
    fn create_output_tiles(&self) -> (r: MultiVec<i32>)
        requires
            self.wf(),
            self.failure().is_none(),
            self.finished(),
        ensures
            r.wf(),
            r.w == self.width() + 2,
            r.h == self.height() + 2,
            forall|ox: int, oy: int| 0 <= ox < r.w && 0 <= oy < r.h ==> #[trigger] r.at(ox, oy) == self.output_tile(ox, oy),
    {
        let w = self.possibilities_for_tiles.w;
        let h = self.possibilities_for_tiles.h;
        proof {
            assert(w + 2 <= (w + 2) * (h + 2)) by (nonlinear_arith);
            assert(h + 2 <= (w + 2) * (h + 2)) by (nonlinear_arith);
        }
        let ow = w + 2;
        let oh = h + 2;
        let mut data: Vec<i32> = Vec::new();
        let mut oy: usize = 0;
        while oy < oh
            invariant
                self.wf(),
                self.failure().is_none(),
                self.finished(),
                w == self.width(),
                h == self.height(),
                ow == w + 2,
                oh == h + 2,
                ow * oh <= usize::MAX,
                oy <= oh,
                data@.len() == oy * ow,
                forall|a: int, b: int| 0 <= a < ow && 0 <= b < oy ==> #[trigger] data@[flat_index(a, b, ow as int)] == self.output_tile(a, b),
            decreases oh - oy,
        {
            let mut ox: usize = 0;
            while ox < ow
                invariant
                    self.wf(),
                    self.failure().is_none(),
                    self.finished(),
                    w == self.width(),
                    h == self.height(),
                    ow == w + 2,
                    oh == h + 2,
                    ow * oh <= usize::MAX,
                    oy < oh,
                    ox <= ow,
                    data@.len() == oy * ow + ox,
                    forall|a: int, b: int| 0 <= a < ow && 0 <= b < oy ==> #[trigger] data@[flat_index(a, b, ow as int)] == self.output_tile(a, b),
                    forall|a: int| 0 <= a < ox ==> #[trigger] data@[flat_index(a, oy as int, ow as int)] == self.output_tile(a, oy as int),
                decreases ow - ox,
            {
                let ghost before = data@;
                proof {
                    assert(oy * ow + ox < ow * oh) by (nonlinear_arith)
                        requires oy < oh, ox < ow;
                }
                if ox <= w && oy <= h && w >= 1 && h >= 1 {
                    let x = if ox < w { ox } else { w - 1 };
                    let y = if oy < h { oy } else { h - 1 };
                    proof {
                        lemma_flat_index_in_bounds(x as int, y as int, w as int, h as int);
                    }
                    let i = x + y * w;
                    let ghost c = self.cells()[i as int];
                    proof {
                        assert(c == bits_of(self.possibilities_for_tiles.data@[i as int]));
                        lemma_usize_set_finite(c);
                        assert(c.len() <= 1);
                        assert(c != Set::<usize>::empty());
                        vstd::set_lib::lemma_set_empty_equivalency_len(c);
                        Set::lemma_is_singleton(c);
                    }
                    let members = set_elements(&self.possibilities_for_tiles.data[i]);
                    proof {
                        let v = choose|v: usize| c.contains(v);
                        assert(members@.contains(v));
                        assert(members@.contains(members@[0]));
                        assert(c.contains(c.choose()));
                        assert(members@[0] == c.choose());
                        assert(c.subset_of(all_patterns(self.patterns@.len())));
                    }
                    let p = members[0];
                    let k = (ox - x) + 2 * (oy - y);
                    let v = self.patterns[p].flat_definition[k];
                    proof {
                        assert(definitions(self.patterns@)[p as int] == self.patterns@[p as int].flat_definition@);
                        assert(v == self.output_tile(ox as int, oy as int));
                    }
                    data.push(v);
                } else {
                    data.push(EMPTY_TILE);
                }
                proof {
                    assert(flat_index(ox as int, oy as int, ow as int) == before.len());
                    assert(data@.len() == before.len() + 1);
                    assert(forall|j: int| 0 <= j < before.len() ==> data@[j] == before[j]);
                    assert(ow * oy == oy * ow) by (nonlinear_arith);
                    assert forall|a: int, b: int| 0 <= a < ow && 0 <= b < oy implies #[trigger] data@[flat_index(a, b, ow as int)] == self.output_tile(a, b) by {
                        lemma_flat_index_in_bounds(a, b, ow as int, oy as int);
                        assert(before[flat_index(a, b, ow as int)] == self.output_tile(a, b));
                    }
                    assert forall|a: int| 0 <= a < ox + 1 implies #[trigger] data@[flat_index(a, oy as int, ow as int)] == self.output_tile(a, oy as int) by {
                        if a < ox {
                            assert(before[flat_index(a, oy as int, ow as int)] == self.output_tile(a, oy as int));
                        }
                    }
                }
                ox += 1;
            }
            proof {
                assert((oy + 1) * ow == oy * ow + ow) by (nonlinear_arith);
            }
            oy += 1;
        }
        assert(oh * ow == ow * oh) by (nonlinear_arith);
        MultiVec::from_data(data, ow, oh)
    }

    /// Run the generation to the end and return the output grid (see
    /// `output_tile`). Fails with the contradiction that stopped it, or with
    /// the failure of an earlier run.
    pub fn generate(&mut self) -> (r: Result<MultiVec<i32>, GenerationError>)
        requires
            old(self).ready(),
        ensures
            final(self).ready(),
            final(self).patterns_view() == old(self).patterns_view(),
            final(self).rules() == old(self).rules(),
            final(self).width() == old(self).width(),
            final(self).height() == old(self).height(),
            old(self).failure().is_some() ==> r == Err::<MultiVec<i32>, GenerationError>(old(self).failure().unwrap()),
            r.is_ok() ==> {
                let out = r.unwrap();
                &&& final(self).failure().is_none()
                &&& final(self).finished()
                &&& out.wf()
                &&& out.w == final(self).width() + 2
                &&& out.h == final(self).height() + 2
                &&& forall|ox: int, oy: int| 0 <= ox < out.w && 0 <= oy < out.h ==> #[trigger] out.at(ox, oy) == final(self).output_tile(ox, oy)
            },
            r.is_err() ==> final(self).failure() == Some(r.unwrap_err()),
            old(self).failure().is_none() ==> (r matches Err(e) ==> final(self).contradiction_at(e)),
            final(self).cells().len() == old(self).cells().len(),
            forall|i: int| 0 <= i < old(self).cells().len() ==> (#[trigger] final(self).cells()[i]).subset_of(old(self).cells()[i]),
            forall|t: (usize, usize, i32)| old(self).tile_settled(t) && final(self).failure().is_none() ==> #[trigger] final(self).tile_settled(t),
            old(self).failure().is_none() && old(self).finished() ==> r.is_ok() && final(self).cells() == old(self).cells(),
    {
        let ghost start = *self;
        match self.failure {
            Some(e) => {
                return Err(e);
            },
            None => {},
        }
        while !self.is_finished()
            invariant
                self.ready(),
                self.failure().is_none(),
                old(self).failure().is_none(),
                self.patterns_view() == old(self).patterns_view(),
                self.rules() == old(self).rules(),
                self.width() == old(self).width(),
                self.height() == old(self).height(),
                start == *old(self),
                start.finished() ==> self.cells() == start.cells(),
                self.cells().len() == start.cells().len(),
                forall|i: int| 0 <= i < self.cells().len() ==> (#[trigger] self.cells()[i]).subset_of(start.cells()[i]),
            decreases sum_sizes(self.cells()),
        {
            let ghost cells0 = self.cells();
            let chosen_possibility = self.collapse_one_possibility();
            let ghost after_collapse = *self;
            self.collapsed_tiles.clear();
            proof {
                assert(self.cells() == after_collapse.cells());
                assert(self.entropies() == after_collapse.entropies());
                assert forall|i: int| 0 <= i < self.cells().len() implies #[trigger] self.entropy_consistent(i) by {
                    assert(after_collapse.entropy_consistent(i));
                }
                assert(self.wf_base());
            }
            match chosen_possibility {
                Some((x_chosen_tile, y_chosen_tile)) => {
                    let ghost cells1 = self.cells();
                    proof {
                        let i = flat_index(x_chosen_tile as int, y_chosen_tile as int, self.width() as int);
                        let p = choose|p: usize| cells0[i].contains(p) && cells1 == cells0.update(i, set![p]);
                        lemma_flat_index_in_bounds(x_chosen_tile as int, y_chosen_tile as int, self.width() as int, self.height() as int);
                        lemma_sum_sizes_update(cells0, i, set![p]);
                        assert(set![p].len() == 1) by {
                            assert(set![p].is_singleton()) by {
                                assert forall|a: usize, b: usize| set![p].contains(a) && set![p].contains(b) implies a == b by {}
                            }
                            set![p].lemma_singleton_size();
                        }
                    }
                    let propagated = self.propagate_chosen_possibility(x_chosen_tile, y_chosen_tile);
                    let ghost after_propagate = *self;
                    self.collapsed_tiles.clear();
                    proof {
                        assert forall|i: int| 0 <= i < self.cells().len() implies (#[trigger] self.cells()[i]).subset_of(start.cells()[i]) by {
                            if i == flat_index(x_chosen_tile as int, y_chosen_tile as int, start.width() as int) {
                                let p = choose|p: usize| cells0[i].contains(p) && cells1 == cells0.update(i, set![p]);
                                assert(cells1[i] == set![p]);
                            }
                            assert(self.cells()[i].subset_of(cells1[i]));
                            assert(cells0[i].subset_of(start.cells()[i]));
                        }
                        lemma_sum_sizes_subset(self.cells(), cells1);
                        assert(self.cells() == after_propagate.cells());
                        assert(self.wf_base());
                        if propagated.is_ok() {
                            self.lemma_ready_frame(&after_propagate);
                        }
                    }
                    match propagated {
                        Ok(()) => {},
                        Err(e) => {
                            self.failure = Some(e);
                            return Err(e);
                        },
                    }
                },
                None => {
                    proof {
                        assert(false);
                    }
                },
            }
        }
        proof {
            assert forall|t: (usize, usize, i32)| start.tile_settled(t) && self.failure().is_none() implies #[trigger] self.tile_settled(t) by {
                self.lemma_settled_shrink(&start, t);
            }
        }
        Ok(self.create_output_tiles())
    }

    /// The next tile made known, in the order in which cells were decided:
    /// hand out a queued tile if there is one; otherwise, unless every cell is
    /// decided, decide one more cell, spread its consequences, and hand out
    /// the first tile that this made known. `Ok(None)` once all is decided and
    /// handed out. A contradiction stops the sequence: it is returned now and
    /// on every later call.
    pub fn next_tile(&mut self) -> (r: Result<Option<(usize, usize, i32)>, GenerationError>)
        requires
            old(self).ready(),
        ensures
            final(self).ready(),
            final(self).patterns_view() == old(self).patterns_view(),
            final(self).rules() == old(self).rules(),
            final(self).width() == old(self).width(),
            final(self).height() == old(self).height(),
            old(self).failure().is_some() ==> r == Err::<Option<(usize, usize, i32)>, GenerationError>(old(self).failure().unwrap())
                && final(self).cells() == old(self).cells(),
            old(self).failure().is_none() && old(self).pending().len() > 0 ==> r == Ok::<Option<(usize, usize, i32)>, GenerationError>(Some(old(self).pending()[0]))
                && final(self).pending() == old(self).pending().drop_first() && final(self).cells() == old(self).cells(),
            old(self).failure().is_none() && old(self).pending().len() == 0 && old(self).finished() ==> r == Ok::<Option<(usize, usize, i32)>, GenerationError>(None)
                && final(self).cells() == old(self).cells(),
            old(self).failure().is_none() && old(self).pending().len() == 0 && !old(self).finished() ==> match r {
                Ok(Some(_)) => final(self).failure().is_none() && sum_sizes(final(self).cells()) < sum_sizes(old(self).cells()),
                Ok(None) => false,
                Err(e) => final(self).failure() == Some(e),
            },
            r matches Ok(Some(t)) ==> final(self).tile_settled(t),
            old(self).failure().is_none() ==> (r matches Err(e) ==> final(self).contradiction_at(e)),
            final(self).cells().len() == old(self).cells().len(),
            forall|i: int| 0 <= i < old(self).cells().len() ==> (#[trigger] final(self).cells()[i]).subset_of(old(self).cells()[i]),
            forall|t: (usize, usize, i32)| old(self).tile_settled(t) && final(self).failure().is_none() ==> #[trigger] final(self).tile_settled(t),
            old(self).failure().is_none() && old(self).pending().len() == 0 && !old(self).finished() ==> (r matches Ok(Some(t)) ==> exists|ds: Seq<(usize, usize, usize)>|
                ds.len() >= 1 && decided_between(old(self).cells(), final(self).cells(), old(self).width() as int, old(self).height() as int, ds)
                    && seq![t] + final(self).pending() == emissions(definitions(old(self).patterns_view()), old(self).width() as usize, old(self).height() as usize, ds)),
    {
        let ghost start = *self;
        match self.failure {
            Some(e) => {
                return Err(e);
            },
            None => {},
        }
        let ghost q0 = self.collapsed_tiles@;
        if self.collapsed_tiles.queue.len() > 0 {
            let ghost before = *self;
            let t = self.collapsed_tiles.queue.pop_front();
            proof {
                assert(self.collapsed_tiles@ =~= q0.drop_first());
                assert forall|k: int| 0 <= k < self.pending().len() implies #[trigger] before.tile_settled(self.pending()[k]) by {
                    assert(self.pending()[k] == before.pending()[k + 1]);
                    assert(before.tile_settled(before.pending()[k + 1]));
                }
                self.lemma_ready_frame(&before);
                self.lemma_settled_same_cells(&before);
                assert(before.tile_settled(before.pending()[0]));
            }
            return Ok(t);
        }
        if self.is_finished() {
            return Ok(None);
        }
        let ghost cells0 = self.cells();
        match self.collapse_one_possibility() {
            Some((x, y)) => {
                let ghost cells1 = self.cells();
                proof {
                    let i = flat_index(x as int, y as int, self.width() as int);
                    let p = choose|p: usize| cells0[i].contains(p) && cells1 == cells0.update(i, set![p]);
                    lemma_flat_index_in_bounds(x as int, y as int, self.width() as int, self.height() as int);
                    lemma_sum_sizes_update(cells0, i, set![p]);
                    assert(set![p].len() == 1) by {
                        assert(set![p].is_singleton()) by {
                            assert forall|a: usize, b: usize| set![p].contains(a) && set![p].contains(b) implies a == b by {}
                        }
                        set![p].lemma_singleton_size();
                    }
                    assert(self.collapsed_tiles@.len() > 0);
                }
                let ghost pend1 = self.pending();
                let ghost mid = *self;
                let propagated = self.propagate_chosen_possibility(x, y);
                proof {
                    lemma_sum_sizes_subset(self.cells(), cells1);
                }
                match propagated {
                    Ok(()) => {},
                    Err(e) => {
                        self.failure = Some(e);
                        return Err(e);
                    },
                }
                let ghost before = *self;
                proof {
                    assert(before.pending().len() > 0);
                    let w = self.width() as int;
                    let h = self.height() as int;
                    let defs = definitions(self.patterns_view());
                    let i = flat_index(x as int, y as int, w);
                    let p = choose|p: usize| #![trigger start.cells()[i].contains(p)] start.cells()[i].contains(p) && cells1 == start.cells().update(i, set![p])
                        && pend1 == start.pending() + emission(definitions(start.patterns_view())[p as int], x, y, start.width() as usize, start.height() as usize);
                    assert(cells1 == cells0.update(i, set![p]));
                    let e = (x, y, p);
                    assert(decided_between(cells0, cells0, w, h, Seq::<(usize, usize, usize)>::empty()));
                    assert(forall|j: int| 0 <= j < cells0.len() ==> (#[trigger] cells0[j]).subset_of(cells0[j]));
                    lemma_decided_push(cells0, cells0, cells1, w, h, Seq::<(usize, usize, usize)>::empty(), x, y, p);
                    let ds1 = Seq::<(usize, usize, usize)>::empty().push(e);
                    let ds2 = choose|ds: Seq<(usize, usize, usize)>| decided_between(cells1, self.cells(), w, h, ds)
                        && self.pending() == pend1 + emissions(defs, w as usize, h as usize, ds);
                    assert(forall|j: int| 0 <= j < cells1.len() ==> (#[trigger] cells1[j]).subset_of(cells0[j])) by {
                        assert forall|j: int| 0 <= j < cells1.len() implies (#[trigger] cells1[j]).subset_of(cells0[j]) by {
                            if j == i {
                                assert(cells0[i].contains(p));
                            }
                        }
                    }
                    lemma_decided_compose(cells0, cells1, self.cells(), w, h, ds1, ds2);
                    lemma_emissions_concat(defs, w as usize, h as usize, ds1, ds2);
                    assert(ds1.drop_last() =~= Seq::<(usize, usize, usize)>::empty());
                    reveal_with_fuel(emissions, 2);
                    assert(emissions(defs, w as usize, h as usize, ds1) =~= emission(defs[p as int], x, y, w as usize, h as usize));
                    assert(pend1 =~= emission(defs[p as int], x, y, w as usize, h as usize));
                    assert(before.pending() == emissions(defs, w as usize, h as usize, ds1 + ds2));
                }
                let t = self.collapsed_tiles.queue.pop_front();
                proof {
                    assert forall|k: int| 0 <= k < self.pending().len() implies #[trigger] before.tile_settled(self.pending()[k]) by {
                        assert(self.pending()[k] == before.pending()[k + 1]);
                        assert(before.tile_settled(before.pending()[k + 1]));
                    }
                    self.lemma_ready_frame(&before);
                    self.lemma_settled_same_cells(&before);
                    assert(before.tile_settled(before.pending()[0]));
                    assert(seq![before.pending()[0]] + self.pending() =~= before.pending());
                    assert forall|i: int| 0 <= i < self.cells().len() implies (#[trigger] self.cells()[i]).subset_of(start.cells()[i]) by {
                        assert(cells0.len() == cells1.len());
                        if i == flat_index(x as int, y as int, start.width() as int) {
                            let p = choose|p: usize| cells0[i].contains(p) && cells1 == cells0.update(i, set![p]);
                            assert(cells1[i] == set![p]);
                        }
                        assert(self.cells()[i].subset_of(cells1[i]));
                    }
                    assert forall|t: (usize, usize, i32)| start.tile_settled(t) implies #[trigger] self.tile_settled(t) by {
                        self.lemma_settled_shrink(&start, t);
                    }
                }
                match t {
                    Some(tile) => Ok(Some(tile)),
                    None => Ok(None),
                }
            },
            None => Ok(None),
        }
    }

    /// A settled tile stays settled while the cells only shrink and none
    /// becomes empty.
    proof fn lemma_settled_shrink(&self, other: &Self, t: (usize, usize, i32))
        requires
            other.wf_base(),
            other.tile_settled(t),
            self.patterns_view() == other.patterns_view(),
            self.width() == other.width(),
            self.height() == other.height(),
            self.cells().len() == other.cells().len(),
            forall|i: int| 0 <= i < self.cells().len() ==> (#[trigger] self.cells()[i]).subset_of(other.cells()[i]),
            forall|i: int| 0 <= i < self.cells().len() ==> (#[trigger] self.cells()[i]) != Set::<usize>::empty(),
        ensures
            self.tile_settled(t),
    {
        let (tx, ty, v) = t;
        let w = self.width() as int;
        let h = self.height() as int;
        let x = if tx < w { tx as int } else { w - 1 };
        let y = if ty < h { ty as int } else { h - 1 };
        lemma_flat_index_in_bounds(x, y, w, h);
        let c = flat_index(x, y, w);
        let o = other.cells()[c];
        let n = self.cells()[c];
        lemma_usize_set_finite(o);
        lemma_usize_set_finite(n);
        assert(n.subset_of(o));
        assert(n != Set::<usize>::empty());
        vstd::set_lib::lemma_len_subset(n, o);
        vstd::set_lib::lemma_set_empty_equivalency_len(n);
        vstd::set_lib::lemma_subset_equality(n, o);
        assert(n == o);
        assert(self.cell(x, y) == other.cell(x, y));
    }

    /// The tiles that deciding cell `(x, y)` to pattern `p` makes known are
    /// settled while the cell holds exactly `p`.
    proof fn lemma_emission_settled(&self, x: usize, y: usize, p: usize)
        requires
            self.wf_base(),
            x < self.width(),
            y < self.height(),
            (p as int) < self.patterns_view().len(),
            self.cells()[flat_index(x as int, y as int, self.width() as int)] == set![p],
        ensures
            forall|k: int| 0 <= k < emission(definitions(self.patterns_view())[p as int], x, y, self.width() as usize, self.height() as usize).len()
                ==> #[trigger] self.tile_settled(emission(definitions(self.patterns_view())[p as int], x, y, self.width() as usize, self.height() as usize)[k]),
    {
        let w = self.width() as usize;
        let h = self.height() as usize;
        let def = definitions(self.patterns_view())[p as int];
        let e = emission(def, x, y, w, h);
        assert(set![p].len() == 1) by {
            assert(set![p].is_singleton()) by {
                assert forall|a: usize, b: usize| set![p].contains(a) && set![p].contains(b) implies a == b by {}
            }
            set![p].lemma_singleton_size();
        }
        assert(set![p].contains(set![p].choose()));
        assert(self.chosen(x as int, y as int) == p);
        let right = x + 1 == w;
        let bottom = y + 1 == h;
        let t0 = (x, y, def[0]);
        let t1 = ((x + 1) as usize, y, def[1]);
        let t2 = (x, (y + 1) as usize, def[2]);
        let t3 = ((x + 1) as usize, (y + 1) as usize, def[3]);
        if right && bottom {
            assert(e =~= seq![t0, t1, t2, t3]);
        } else if right {
            assert(e =~= seq![t0, t1]);
        } else if bottom {
            assert(e =~= seq![t0, t2]);
        } else {
            assert(e =~= seq![t0]);
        }
        assert(self.tile_settled(t0));
        if right {
            assert(self.tile_settled(t1));
        }
        if bottom {
            assert(self.tile_settled(t2));
        }
        if right && bottom {
            assert(self.tile_settled(t3));
        }
    }

    /// Settledness depends only on the cells, the catalog and the size.
    proof fn lemma_settled_same_cells(&self, other: &Self)
        requires
            self.patterns_view() == other.patterns_view(),
            self.width() == other.width(),
            self.height() == other.height(),
            self.cells() == other.cells(),
        ensures
            forall|t: (usize, usize, i32)| #[trigger] self.tile_settled(t) == other.tile_settled(t),
    {
    }

    /// Queued tiles stay settled while the cells only shrink and none
    /// becomes empty.
    proof fn lemma_pending_settled_shrink(&self, other: &Self)
        requires
            other.wf_base(),
            other.pending_settled(),
            self.pending() == other.pending(),
            self.patterns_view() == other.patterns_view(),
            self.width() == other.width(),
            self.height() == other.height(),
            self.cells().len() == other.cells().len(),
            forall|i: int| 0 <= i < self.cells().len() ==> (#[trigger] self.cells()[i]).subset_of(other.cells()[i]),
            forall|i: int| 0 <= i < self.cells().len() ==> (#[trigger] self.cells()[i]) != Set::<usize>::empty(),
        ensures
            self.pending_settled(),
    {
        assert forall|k: int| 0 <= k < self.pending().len() implies #[trigger] self.tile_settled(self.pending()[k]) by {
            assert(other.tile_settled(other.pending()[k]));
            self.lemma_settled_shrink(other, self.pending()[k]);
        }
    }

    /// Queuing the tiles of a cell decided to `p` keeps the queue settled.
    proof fn lemma_pending_append_emission(&self, other: &Self, x: usize, y: usize, p: usize)
        requires
            other.wf_base(),
            other.pending_settled(),
            x < other.width(),
            y < other.height(),
            (p as int) < other.patterns_view().len(),
            other.cells()[flat_index(x as int, y as int, other.width() as int)] == set![p],
            self.cells() == other.cells(),
            self.patterns_view() == other.patterns_view(),
            self.width() == other.width(),
            self.height() == other.height(),
            self.pending() == other.pending() + emission(
                definitions(other.patterns_view())[p as int], x, y, other.width() as usize, other.height() as usize),
        ensures
            self.pending_settled(),
    {
        other.lemma_emission_settled(x, y, p);
        self.lemma_settled_same_cells(other);
        let e = emission(definitions(other.patterns_view())[p as int], x, y, other.width() as usize, other.height() as usize);
        assert forall|k: int| 0 <= k < self.pending().len() implies #[trigger] self.tile_settled(self.pending()[k]) by {
            if k < other.pending().len() {
                assert(self.pending()[k] == other.pending()[k]);
                assert(other.tile_settled(other.pending()[k]));
            } else {
                assert(self.pending()[k] == e[k - other.pending().len()]);
                assert(other.tile_settled(e[k - other.pending().len()]));
            }
        }
    }

    /// After narrowing one cell of a state with settled queued tiles to a
    /// non-empty subset, the queued tiles are still settled.
    proof fn lemma_narrowed_settled(&self, snap: &Self, ni: int)
        requires
            snap.wf_base(),
            snap.pending_settled(),
            snap.open_cells_nonempty(),
            self.pending() == snap.pending(),
            self.patterns_view() == snap.patterns_view(),
            self.width() == snap.width(),
            self.height() == snap.height(),
            0 <= ni < snap.cells().len(),
            self.cells() == snap.cells().update(ni, self.cells()[ni]),
            self.cells()[ni].subset_of(snap.cells()[ni]),
            self.cells()[ni] != Set::<usize>::empty(),
        ensures
            self.pending_settled(),
    {
        assert forall|j: int| 0 <= j < self.cells().len() implies (#[trigger] self.cells()[j]).subset_of(snap.cells()[j]) by {}
        assert forall|j: int| 0 <= j < self.cells().len() implies (#[trigger] self.cells()[j]) != Set::<usize>::empty() by {
            if j != ni {
                assert(snap.cells()[j] != Set::<usize>::empty());
            }
        }
        self.lemma_pending_settled_shrink(snap);
    }

    /// The invariant depends on neither the random source nor which settled
    /// tiles are queued.
    proof fn lemma_ready_frame(&self, other: &Self)
        requires
            other.ready(),
            self.pattern_edge_length == other.pattern_edge_length,
            self.patterns@ == other.patterns@,
            self.total_weight == other.total_weight,
            self.rules_checker == other.rules_checker,
            self.possibilities_for_tiles == other.possibilities_for_tiles,
            self.entropy_for_tile == other.entropy_for_tile,
            self.failure == other.failure,
            forall|k: int| 0 <= k < self.pending().len() ==> #[trigger] other.tile_settled(self.pending()[k]),
        ensures
            self.ready(),
            self.cells() == other.cells(),
            self.entropies() == other.entropies(),
    {
        assert(self.cells() == other.cells());
        self.lemma_settled_same_cells(other);
        if self.failure.is_none() {
            assert forall|k: int| 0 <= k < self.pending().len() implies #[trigger] self.tile_settled(self.pending()[k]) by {
                assert(other.tile_settled(self.pending()[k]));
            }
            assert forall|i: int| 0 <= i < self.cells().len() implies #[trigger] self.entropy_consistent(i) by {
                assert(other.entropy_consistent(i));
            }
            assert forall|x: int, y: int|
                in_wave(x, y, self.width() as int, self.height() as int) && self.cells()[flat_index(x, y, self.width() as int)] != all_patterns(self.patterns_view().len())
                    && flat_index(x, y, self.width() as int) != -1
                implies #[trigger] arc_consistent_at(self.cells(), self.width() as int, self.height() as int, self.rules(), x, y) by {
                assert(arc_consistent_at(other.cells(), other.width() as int, other.height() as int, other.rules(), x, y));
            }
        }
    }

    /// A generator learnt from a training grid: its catalog of 2 by 2
    /// patterns, the rules trained on them, and an
    /// `output_edge_length - pattern_edge_length` square wave with every cell
    /// open to every pattern; the output grid is `output_edge_length` square.
    /// Every random draw comes from a generator seeded with `seed` alone, so
    /// equal arguments give equal runs. Fails when the training grid holds no
    /// usable window.
    pub fn new(
        train_data: MultiVec<i32>,
        output_edge_length: usize,
        pattern_edge_length: usize,
        seed: u64,
    ) -> (r: Result<WaveFunctionCollapseGenerator, GenerationError>)
        requires
            train_data.wf(),
            pattern_edge_length == 2,
            output_edge_length >= pattern_edge_length,
            output_edge_length * output_edge_length <= usize::MAX,
            train_data.w * train_data.h * 9 <= usize::MAX,
        ensures
            r.is_err() <==> training_windows(train_data).len() == 0,
            r matches Err(e) ==> e == GenerationError::MalformedTrainingData,
            r.is_ok() ==> {
                let g = r.unwrap();
                &&& g.ready()
                &&& g.failure().is_none()
                &&& is_catalog_of(g.patterns_view(), training_windows(train_data))
                &&& g.rules().is_trained_on(g.patterns_view())
                &&& g.total_weight() == training_windows(train_data).len()
                &&& g.width() == output_edge_length - pattern_edge_length
                &&& g.height() == output_edge_length - pattern_edge_length
                &&& g.cells().len() == g.width() * g.height()
                &&& forall|i: int| 0 <= i < g.cells().len() ==> #[trigger] g.cells()[i] == all_patterns(g.patterns_view().len())
                &&& g.patterns_view().len() == 1 ==> g.finished()
                &&& forall|p: int, k: int| 0 <= p < g.patterns_view().len() && 0 <= k < 4 ==> #[trigger] definitions(g.patterns_view())[p][k] != EMPTY_TILE
                &&& g.pending() == if g.patterns_view().len() == 1 {
                    grid_emissions(g.patterns_view()[0].flat_definition@, g.width() as usize, g.height() as usize, g.height())
                } else {
                    Seq::empty()
                }
            },
    {
        let ghost grid = train_data;
        let patterns = match slice_into_patterns(train_data, pattern_edge_length) {
            Ok(p) => p,
            Err(e) => {
                return Err(e);
            },
        };
        proof {
            let ws = training_windows(grid);
            lemma_catalog_invariant(grid, patterns@);
            crate::catalog::lemma_catalog_usable(grid, patterns@);
            lemma_distinct_len(ws);
            assert(definitions(patterns@).len() == patterns@.len());
            if grid.w >= 2 && grid.h >= 2 {
                lemma_scan_windows_len(grid, (grid.h - 1) as nat);
                assert(((grid.h - 1) as nat) * ((grid.w - 1) as nat) <= grid.w * grid.h) by (nonlinear_arith)
                    requires grid.w >= 2, grid.h >= 2;
            }
            assert(patterns@.len() * 9 <= grid.w * grid.h * 9);
        }
        let rules_checker = train_rules(&patterns, pattern_edge_length);
        let wave = output_edge_length - pattern_edge_length;
        let generator = WaveFunctionCollapseGenerator::from_catalog(patterns, rules_checker, wave, wave, seed);
        proof {
            if generator.patterns_view().len() == 1 {
                assert forall|i: int| 0 <= i < generator.cells().len() implies #[trigger] generator.cells()[i].len() <= 1 by {
                    assert(generator.cells()[i] =~= set![0usize]);
                    assert(set![0usize].is_singleton()) by {
                        assert forall|a: usize, b: usize| set![0usize].contains(a) && set![0usize].contains(b) implies a == b by {}
                    }
                    set![0usize].lemma_singleton_size();
                }
            }
        }
        Ok(generator)
    }

    /// Once every cell is decided, with a catalog of at least two patterns,
    /// the patterns of two neighbouring cells are allowed next to each other
    /// by the rules in that direction, and for trained rules their
    /// overlapping tiles agree. (With a single pattern no cell is ever
    /// narrowed, and that pattern need not fit next to itself.)
    pub proof fn lemma_adjacent_cells_agree(&self, x: int, y: int, d: Direction)
        requires
            self.wf(),
            self.failure().is_none(),
            self.finished(),
            self.patterns_view().len() >= 2,
            in_wave(x, y, self.width() as int, self.height() as int),
            has_neighbor(x, y, d, self.width() as int, self.height() as int),
        ensures
            (self.chosen(x, y) as int) < self.patterns_view().len(),
            (self.chosen(x + dx(d), y + dy(d)) as int) < self.patterns_view().len(),
            self.rules().allowed(self.chosen(x, y) as int, d).contains(self.chosen(x + dx(d), y + dy(d))),
            self.rules().is_trained_on(self.patterns_view()) ==> compatible(
                definitions(self.patterns_view())[self.chosen(x, y) as int],
                definitions(self.patterns_view())[self.chosen(x + dx(d), y + dy(d)) as int],
                d,
            ),
    {
        let w = self.width() as int;
        let h = self.height() as int;
        let np = self.patterns_view().len();
        let nx = x + dx(d);
        let ny = y + dy(d);
        let i = flat_index(x, y, w);
        let j = flat_index(nx, ny, w);
        lemma_flat_index_in_bounds(x, y, w, h);
        lemma_flat_index_in_bounds(nx, ny, w, h);
        let c = self.cells()[i];
        let e = self.cells()[j];
        lemma_usize_set_finite(c);
        lemma_usize_set_finite(e);
        assert(c.len() <= 1);
        assert(e.len() <= 1);
        assert(c != Set::<usize>::empty());
        assert(e != Set::<usize>::empty());
        vstd::set_lib::lemma_set_empty_equivalency_len(c);
        vstd::set_lib::lemma_set_empty_equivalency_len(e);
        Set::lemma_is_singleton(c);
        Set::lemma_is_singleton(e);
        let a = c.choose();
        let b = e.choose();
        assert(c.contains(a));
        assert(e.contains(b));
        assert(c.subset_of(all_patterns(np)));
        assert(e.subset_of(all_patterns(np)));
        assert(c != all_patterns(np)) by {
            assert(all_patterns(np).contains(0usize));
            assert(all_patterns(np).contains(1usize));
        }
        assert(arc_consistent_at(self.cells(), w, h, self.rules(), x, y));
        assert(e.subset_of(support(self.rules(), c, d)));
        assert(support(self.rules(), c, d).contains(b));
        let a2 = choose|a2: usize| c.contains(a2) && #[trigger] self.rules().allowed(a2 as int, d).contains(b);
        assert(a2 == a);
    }

    /// Every tile of a finished generator's output grid is either
    /// `EMPTY_TILE`, on the outermost column and row, or the tile at the
    /// matching offset of the pattern of a wave cell that covers it.
    pub proof fn lemma_output_from_catalog(&self, ox: int, oy: int)
        requires
            self.wf(),
            self.failure().is_none(),
            self.finished(),
            0 <= ox < self.width() + 2,
            0 <= oy < self.height() + 2,
        ensures
            !(ox <= self.width() && oy <= self.height() && self.width() >= 1 && self.height() >= 1) ==> self.output_tile(ox, oy) == EMPTY_TILE,
            (ox <= self.width() && oy <= self.height() && self.width() >= 1 && self.height() >= 1) ==> exists|x: int, y: int|
                #![trigger self.chosen(x, y)]
                in_wave(x, y, self.width() as int, self.height() as int) && 0 <= ox - x <= 1 && 0 <= oy - y <= 1
                    && (self.chosen(x, y) as int) < self.patterns_view().len()
                    && self.cell(x, y) == set![self.chosen(x, y)]
                    && self.output_tile(ox, oy) == definitions(self.patterns_view())[self.chosen(x, y) as int][(ox - x) + 2 * (oy - y)],
    {
        let w = self.width() as int;
        let h = self.height() as int;
        if ox <= w && oy <= h && w >= 1 && h >= 1 {
            let x = if ox < w { ox } else { w - 1 };
            let y = if oy < h { oy } else { h - 1 };
            lemma_flat_index_in_bounds(x, y, w, h);
            let c = self.cells()[flat_index(x, y, w)];
            assert(c != Set::<usize>::empty());
            assert(c.subset_of(all_patterns(self.patterns_view().len())));
            lemma_usize_set_finite(c);
            vstd::set_lib::lemma_set_empty_equivalency_len(c);
            assert(c.contains(c.choose()));
            assert((self.chosen(x, y) as int) < self.patterns_view().len());
            Set::lemma_is_singleton(c);
            assert(c =~= set![c.choose()]);
        }
    }

    /// The pattern catalog.
    pub fn catalog(&self) -> (r: &Vec<Pattern>)
        ensures
            r@ == self.patterns_view(),
    {
        &self.patterns
    }

    /// The adjacency rules.
    pub fn rules_checker(&self) -> (r: &RulesChecker)
        ensures
            *r == self.rules(),
    {
        &self.rules_checker
    }

    /// The number of columns of the wave.
    pub fn wave_width(&self) -> (r: usize)
        ensures
            r == self.width(),
    {
        self.possibilities_for_tiles.w
    }

    /// The number of rows of the wave.
    pub fn wave_height(&self) -> (r: usize)
        ensures
            r == self.height(),
    {
        self.possibilities_for_tiles.h
    }

    /// The failure that stopped generation, if any.
    pub fn last_failure(&self) -> (r: Option<GenerationError>)
        ensures
            r == self.failure(),
    {
        self.failure
    }

    /// The patterns still possible at cell `(x, y)`, in increasing order.
    pub fn possibilities(&self, x: usize, y: usize) -> (r: Vec<usize>)
        requires
            self.wf(),
            x < self.width(),
            y < self.height(),
        ensures
            forall|i: int, j: int| 0 <= i < j < r@.len() ==> r@[i] < r@[j],
            forall|v: usize| self.cell(x as int, y as int).contains(v) <==> r@.contains(v),
    {
        proof {
            lemma_flat_index_in_bounds(x as int, y as int, self.width() as int, self.height() as int);
        }
        let i = x + y * self.possibilities_for_tiles.w;
        set_elements(&self.possibilities_for_tiles.data[i])
    }

    /// A tile handed out by `next_tile` comes from the pattern of a covering
    /// cell that is decided to exactly that pattern, at the matching offset;
    /// when no pattern holds the empty tile, neither does the streamed tile.
    pub proof fn lemma_streamed_tile_from_catalog(&self, t: (usize, usize, i32))
        requires
            self.wf(),
            self.tile_settled(t),
        ensures
            exists|x: int, y: int, c: usize|
                #![trigger self.cell(x, y).contains(c)]
                in_wave(x, y, self.width() as int, self.height() as int) && 0 <= t.0 - x <= 1 && 0 <= t.1 - y <= 1
                    && self.cell(x, y) == set![c] && (c as int) < self.patterns_view().len()
                    && t.2 == definitions(self.patterns_view())[c as int][(t.0 - x) + 2 * (t.1 - y)],
            (forall|p: int, k: int| 0 <= p < self.patterns_view().len() && 0 <= k < 4 ==> #[trigger] definitions(self.patterns_view())[p][k] != EMPTY_TILE)
                ==> t.2 != EMPTY_TILE,
    {
        let (tx, ty, v) = t;
        let w = self.width() as int;
        let h = self.height() as int;
        let x = if tx < w { tx as int } else { w - 1 };
        let y = if ty < h { ty as int } else { h - 1 };
        lemma_flat_index_in_bounds(x, y, w, h);
        let s = self.cell(x, y);
        lemma_usize_set_finite(s);
        Set::lemma_is_singleton(s);
        let c = s.choose();
        vstd::set_lib::lemma_set_empty_equivalency_len(s);
        assert(s.contains(c));
        assert(s =~= set![c]);
        assert(s.subset_of(all_patterns(self.patterns_view().len())));
        assert(self.cell(x, y).contains(c));
        if forall|p: int, k: int| 0 <= p < self.patterns_view().len() && 0 <= k < 4 ==> #[trigger] definitions(self.patterns_view())[p][k] != EMPTY_TILE {
            assert(definitions(self.patterns_view())[c as int][(tx - x) + 2 * (ty - y)] != EMPTY_TILE);
        }
    }

    /// A tile handed out by `next_tile` is where the finished grid has it:
    /// once every cell is decided, a settled tile `(x, y, t)` lies inside the
    /// output grid and any grid that `generate` returns holds `t` at `(x, y)`.
    pub proof fn lemma_streamed_tile_in_output(&self, out: MultiVec<i32>, t: (usize, usize, i32))
        requires
            self.tile_settled(t),
            out.w == self.width() + 2,
            out.h == self.height() + 2,
            forall|ox: int, oy: int| 0 <= ox < out.w && 0 <= oy < out.h ==> #[trigger] out.at(ox, oy) == self.output_tile(ox, oy),
        ensures
            t.0 < out.w,
            t.1 < out.h,
            out.at(t.0 as int, t.1 as int) == t.2,
    {
        assert(out.at(t.0 as int, t.1 as int) == self.output_tile(t.0 as int, t.1 as int));
    }

    /// A generator over a `wave_width` by `wave_height` wave of the given
    /// patterns and rules, every cell still open to every pattern. Its output
    /// grid is two tiles wider and higher than the wave.
    pub fn from_catalog(
        patterns: Vec<Pattern>,
        rules_checker: RulesChecker,
        wave_width: usize,
        wave_height: usize,
        seed: u64,
    ) -> (r: Self)
        requires
            patterns@.len() >= 1,
            patterns@.len() * 9 <= usize::MAX,
            forall|i: int| 0 <= i < patterns@.len() ==> #[trigger] patterns@[i].occurrences >= 1,
            total_occurrences(patterns@) <= usize::MAX,
            rules_checker.wf(),
            rules_checker.pattern_count() == patterns@.len(),
            (wave_width + 2) * (wave_height + 2) <= usize::MAX,
        ensures
            r.ready(),
            r.failure().is_none(),
            r.pending() == if patterns@.len() == 1 {
                grid_emissions(patterns@[0].flat_definition@, wave_width, wave_height, wave_height as nat)
            } else {
                Seq::empty()
            },
            r.patterns_view() == patterns@,
            r.rules() == rules_checker,
            r.total_weight() == total_occurrences(patterns@),
            r.width() == wave_width,
            r.height() == wave_height,
            forall|i: int| 0 <= i < r.cells().len() ==> #[trigger] r.cells()[i] == all_patterns(patterns@.len()),
            r.cells().len() == wave_width * wave_height,
    {
        let n = patterns.len();
        let mut total: usize = 0;
        let mut i: usize = 0;
        while i < n
            invariant
                n == patterns@.len(),
                total_occurrences(patterns@) <= usize::MAX,
                i <= n,
                total == total_occurrences(patterns@.take(i as int)),
            decreases n - i,
        {
            proof {
                lemma_prefix_total_bound(patterns@, i as nat);
            }
            total = total + patterns[i].occurrences;
            i += 1;
        }
        assert(patterns@.take(n as int) =~= patterns@);
        proof {
            assert(wave_width * wave_height <= (wave_width + 2) * (wave_height + 2)) by (nonlinear_arith);
        }
        let cells = wave_width * wave_height;
        let mut wave: Vec<BitSet> = Vec::new();
        let mut k: usize = 0;
        while k < cells
            invariant
                k <= cells,
                wave@.len() == k,
                forall|j: int| 0 <= j < k ==> bits_of(#[trigger] wave@[j]) == all_patterns(n as nat),
            decreases cells - k,
        {
            let s = full_set(n);
            assert(bits_of(s) =~= all_patterns(n as nat));
            wave.push(s);
            k += 1;
        }
        let mut rng = seeded_rng(seed);
        let possibilities_for_tiles = MultiVec::from_data(wave, wave_width, wave_height);
        let entropy_for_tile = MultiVec::from_data(vec![0i128; cells], wave_width, wave_height);
        let mut r = WaveFunctionCollapseGenerator {
            pattern_edge_length: 2,
            patterns,
            total_weight: total,
            rules_checker,
            possibilities_for_tiles,
            entropy_for_tile,
            random_number_generator: rng,
            collapsed_tiles: CollapsedTiles { queue: VecDeque::new() },
            failure: None,
        };
        proof {
            assert forall|j: int| 0 <= j < r.cells().len() implies #[trigger] r.cells()[j] == all_patterns(n as nat) by {
                assert(r.cells()[j] == bits_of(r.possibilities_for_tiles.data@[j]));
            }
            assert(r.cells().len() == cells);
            assert forall|j: int| 0 <= j < wave_width * wave_height implies (#[trigger] r.cells()[j]).subset_of(
                all_patterns(n as nat),
            ) by {
                assert(r.cells()[j] == all_patterns(n as nat));
            }
            assert forall|j: int| 0 <= j < r.cells().len() implies (#[trigger] r.cells()[j])
                != Set::<usize>::empty() by {
                assert(r.cells()[j] == all_patterns(n as nat));
                assert(r.cells()[j].contains(0));
            }
            assert(narrowed_cells_consistent(r.cells(), wave_width as int, wave_height as int, r.rules_checker, n as nat, -1)) by {
                assert forall|x: int, y: int| in_wave(x, y, wave_width as int, wave_height as int)
                    && r.cells()[flat_index(x, y, wave_width as int)] != all_patterns(n as nat)
                    && flat_index(x, y, wave_width as int) != -1 implies
                    #[trigger] arc_consistent_at(r.cells(), wave_width as int, wave_height as int, r.rules_checker, x, y) by {
                    lemma_flat_index_in_bounds(x, y, wave_width as int, wave_height as int);
                }
            }
        }
        r.init_entropies();
        if n == 1 {
            let mut y: usize = 0;
            while y < wave_height
                invariant
                    r.ready(),
                    r.failure().is_none(),
                    n == 1,
                    n == r.patterns@.len(),
                    y <= wave_height,
                    r.pending() == grid_emissions(r.patterns@[0].flat_definition@, wave_width, wave_height, y as nat),
                    r.patterns_view() == patterns@,
                    r.rules() == rules_checker,
                    r.total_weight() == total_occurrences(patterns@),
                    r.width() == wave_width,
                    r.height() == wave_height,
                    forall|i: int| 0 <= i < r.cells().len() ==> #[trigger] r.cells()[i] == all_patterns(patterns@.len()),
                    r.cells().len() == wave_width * wave_height,
                decreases wave_height - y,
            {
                let mut x: usize = 0;
                while x < wave_width
                    invariant
                        r.ready(),
                        r.failure().is_none(),
                        n == 1,
                        n == r.patterns@.len(),
                        y < wave_height,
                        x <= wave_width,
                        r.pending() == grid_emissions(r.patterns@[0].flat_definition@, wave_width, wave_height, y as nat)
                            + row_emissions(r.patterns@[0].flat_definition@, wave_width, wave_height, y, x as nat),
                        r.patterns_view() == patterns@,
                        r.rules() == rules_checker,
                        r.total_weight() == total_occurrences(patterns@),
                        r.width() == wave_width,
                        r.height() == wave_height,
                        forall|i: int| 0 <= i < r.cells().len() ==> #[trigger] r.cells()[i] == all_patterns(patterns@.len()),
                        r.cells().len() == wave_width * wave_height,
                    decreases wave_width - x,
                {
                    let ghost before = r;
                    proof {
                        lemma_flat_index_in_bounds(x as int, y as int, wave_width as int, wave_height as int);
                        assert(all_patterns(1) =~= set![0usize]);
                        assert(before.cells()[flat_index(x as int, y as int, wave_width as int)] == set![0usize]);
                        assert(definitions(before.patterns_view())[0] == before.patterns@[0].flat_definition@);
                    }
                    r.collapsed_tiles.insert_pattern(&r.patterns[0], (x, y), wave_width, wave_height);
                    proof {
                        r.lemma_pending_append_emission(&before, x, y, 0);
                        r.lemma_settled_same_cells(&before);
                        assert forall|k: int| 0 <= k < r.pending().len() implies #[trigger] before.tile_settled(r.pending()[k]) by {
                            assert(r.tile_settled(r.pending()[k]));
                        }
                        r.lemma_ready_frame(&before);
                        assert(r.pending() =~= grid_emissions(r.patterns@[0].flat_definition@, wave_width, wave_height, y as nat)
                            + row_emissions(r.patterns@[0].flat_definition@, wave_width, wave_height, y, (x + 1) as nat));
                    }
                    x += 1;
                }
                proof {
                    assert(r.pending() =~= grid_emissions(r.patterns@[0].flat_definition@, wave_width, wave_height, (y + 1) as nat));
                }
                y += 1;
            }
        } else {
            assert(r.pending() =~= Seq::<(usize, usize, i32)>::empty());
        }
        r
    }
}

proof fn lemma_total_weight_positive(ps: Seq<Pattern>, n: nat)
    requires
        weights_ok(ps, n),
        ps.len() >= 1,
    ensures
        n >= 1,
{
    lemma_prefix_total_bound(ps, 0);
    assert(ps.take(0) =~= Seq::<Pattern>::empty());
}

proof fn lemma_prefix_total_bound(ps: Seq<Pattern>, k: nat)
    requires
        k < ps.len(),
    ensures
        total_occurrences(ps.take((k + 1) as int)) == total_occurrences(ps.take(k as int)) + ps[k as int].occurrences,
        total_occurrences(ps.take((k + 1) as int)) <= total_occurrences(ps),
    decreases ps.len() - k,
{
    assert(ps.take((k + 1) as int).drop_last() =~= ps.take(k as int));
    if k + 1 < ps.len() {
        lemma_prefix_total_bound(ps, k + 1);
    } else {
        assert(ps.take((k + 1) as int) =~= ps);
    }
}


/// The directions in which cell `(x, y)` of a `w` by `h` wave has a
/// neighbour: fewer at the edges and corners, since the wave does not wrap.
pub fn get_valid_directions(x: usize, y: usize, w: usize, h: usize) -> (r: Vec<Direction>)
    requires
        x < w,
        y < h,
    ensures
        forall|k: int| 0 <= k < r@.len() ==> has_neighbor(x as int, y as int, #[trigger] r@[k], w as int, h as int),
        forall|d: Direction| has_neighbor(x as int, y as int, d, w as int, h as int) ==> r@.contains(d),
        r@.no_duplicates(),
{
    let all = crate::direction::all_directions();
    let mut r: Vec<Direction> = Vec::new();
    let mut k: usize = 0;
    while k < all.len()
        invariant
            all@ == crate::direction::direction_seq(),
            x < w,
            y < h,
            k <= all@.len(),
            forall|j: int| 0 <= j < r@.len() ==> has_neighbor(x as int, y as int, #[trigger] r@[j], w as int, h as int),
            forall|j: int| 0 <= j < k ==> has_neighbor(x as int, y as int, #[trigger] all@[j], w as int, h as int) ==> r@.contains(all@[j]),
            forall|j: int| 0 <= j < r@.len() ==> exists|i: int| 0 <= i < k && all@[i] == #[trigger] r@[j],
            r@.no_duplicates(),
        decreases all@.len() - k,
    {
        let d = all[k];
        let (ox, oy) = d.offset();
        let x_ok = if ox < 0 {
            x >= 1
        } else if ox > 0 {
            x + 1 < w
        } else {
            true
        };
        let y_ok = if oy < 0 {
            y >= 1
        } else if oy > 0 {
            y + 1 < h
        } else {
            true
        };
        let ghost r_before = r@;
        let took = x_ok && y_ok && (ox != 0 || oy != 0);
        proof {
            crate::direction::lemma_direction_steps(d, Direction::Stay);
            assert(took == has_neighbor(x as int, y as int, d, w as int, h as int));
        }
        if took {
            proof {
                if r@.contains(d) {
                    let j = choose|j: int| 0 <= j < r@.len() && r@[j] == d;
                    let i = choose|i: int| 0 <= i < k && all@[i] == r@[j];
                    assert(false);
                }
            }
            r.push(d);
            proof {
                assert forall|j: int| 0 <= j < r@.len() implies exists|i: int| 0 <= i < k + 1 && all@[i] == #[trigger] r@[j] by {
                    if j < r@.len() - 1 {
                        let i = choose|i: int| 0 <= i < k && all@[i] == r@[j];
                        assert(all@[i] == r@[j]);
                    } else {
                        assert(all@[k as int] == r@[j]);
                    }
                }
            }
        } else {
            proof {
                crate::direction::lemma_direction_steps(d, Direction::Stay);
            }
        }
        proof {
            assert forall|j: int| 0 <= j < k + 1 && has_neighbor(x as int, y as int, #[trigger] all@[j], w as int, h as int) implies r@.contains(all@[j]) by {
                if j == k {
                    assert(r@[r@.len() - 1] == d);
                } else {
                    assert(r_before.contains(all@[j]));
                    let i = choose|i: int| 0 <= i < r_before.len() && r_before[i] == all@[j];
                    assert(r@[i] == all@[j]);
                }
            }
        }
        k += 1;
    }
    proof {
        assert forall|d: Direction| has_neighbor(x as int, y as int, d, w as int, h as int) implies r@.contains(d) by {
            crate::direction::lemma_direction_steps(d, d);
            assert(all@[crate::direction::index_of(d) as int] == d);
        }
    }
    r
}


} // verus!
