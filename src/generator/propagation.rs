//! Propagation: narrowing the neighbours of changed cells until every
//! narrowed cell is arc consistent, then refreshing their cached entropy.

use vstd::prelude::*;
use std::collections::VecDeque;
use bit_set::BitSet;
use super::{WaveFunctionCollapseGenerator, all_patterns, in_wave, has_neighbor, support, arc_consistent_at, lemma_usize_set_finite, get_valid_directions, decided_between, emissions, emission};
use crate::bits::{bits_of, set_len, set_new, set_union_with, set_intersect_with, set_elements};
use crate::catalog::definitions;
use crate::direction::{Direction, dx, dy};
use crate::error::GenerationError;
use crate::multi_vec::{MultiVec, flat_index, lemma_flat_index_in_bounds, lemma_flat_index_injective};
use crate::rules::RulesChecker;

verus! {

impl WaveFunctionCollapseGenerator {
    /// The state of a propagation that started from cells `start` with
    /// cached entropies `start_e`: sets only shrank, every changed cell is
    /// dirty, `queued` marks the cells in `queue`, and every narrowed cell
    /// that is neither queued nor `except` is arc consistent.
    pub open spec fn propagating(
        &self,
        start: Seq<Set<usize>>,
        start_e: Seq<i128>,
        queue: Seq<usize>,
        queued: Seq<bool>,
        dirty: Seq<bool>,
        except: int,
    ) -> bool {
        let n = self.cells().len();
        let w = self.width() as int;
        let h = self.height() as int;
        &&& self.wf_base()
        &&& self.failure().is_none()
        &&& self.open_cells_nonempty()
        &&& self.pending_settled()
        &&& start.len() == n
        &&& queued.len() == n
        &&& dirty.len() == n
        &&& self.entropies() == start_e
        &&& queue.no_duplicates()
        &&& forall|k: int| 0 <= k < queue.len() ==> (#[trigger] queue[k] as int) < n
        &&& forall|i: int| 0 <= i < n ==> (#[trigger] queued[i] <==> queue.contains(i as usize))
        &&& forall|i: int| 0 <= i < n ==> (#[trigger] self.cells()[i]).subset_of(start[i])
        &&& forall|i: int| 0 <= i < n && !(#[trigger] dirty[i]) ==> self.cells()[i] == start[i]
        &&& forall|i: int| 0 <= i < n && #[trigger] dirty[i] ==> self.cells()[i] != start[i]
        &&& removals_justified(start, self.cells(), w, h, self.rules())
        &&& forall|x: int, y: int|
            in_wave(x, y, w, h) && self.cells()[flat_index(x, y, w)] != all_patterns(self.patterns_view().len())
                && flat_index(x, y, w) != except && !queued[flat_index(x, y, w)]
                ==> #[trigger] arc_consistent_at(self.cells(), w, h, self.rules(), x, y)
    }

    /// Narrow every neighbour of cell `cur` to the patterns that some
    /// possibility of `cur` allows there; queue and mark each neighbour that
    /// changed, and queue the tiles of each neighbour that this decided.
    fn narrow_neighbors(
        &mut self,
        cur: usize,
        queue: &mut VecDeque<usize>,
        queued: &mut Vec<bool>,
        dirty: &mut Vec<bool>,
        Ghost(start): Ghost<Seq<Set<usize>>>,
        Ghost(start_e): Ghost<Seq<i128>>,
        Ghost(pend0): Ghost<Seq<(usize, usize, i32)>>,
        Ghost(ds0): Ghost<Seq<(usize, usize, usize)>>,
    ) -> (r: Result<(), GenerationError>)
        requires
            old(self).propagating(start, start_e, old(queue)@, old(queued)@, old(dirty)@, cur as int),
            decided_between(start, old(self).cells(), old(self).width() as int, old(self).height() as int, ds0),
            old(self).pending() == pend0 + emissions(definitions(old(self).patterns_view()), old(self).width() as usize, old(self).height() as usize, ds0),
            cur < old(self).cells().len(),
            !old(queued)@[cur as int],
        ensures
            final(self).wf_base(),
            final(self).patterns_view() == old(self).patterns_view(),
            final(self).total_weight() == old(self).total_weight(),
            final(self).rules() == old(self).rules(),
            final(self).width() == old(self).width(),
            final(self).height() == old(self).height(),
            final(self).failure() == old(self).failure(),
            final(self).entropies() == old(self).entropies(),
            final(self).cells().len() == old(self).cells().len(),
            old(self).pending().len() <= final(self).pending().len(),
            final(self).pending().subrange(0, old(self).pending().len() as int) == old(self).pending(),
            forall|i: int| 0 <= i < old(self).cells().len() ==> (#[trigger] final(self).cells()[i]).subset_of(old(self).cells()[i]),
            r.is_ok() ==> final(self).propagating(start, start_e, final(queue)@, final(queued)@, final(dirty)@, -1),
            r.is_ok() ==> exists|ds: Seq<(usize, usize, usize)>| decided_between(start, final(self).cells(), old(self).width() as int, old(self).height() as int, ds)
                && final(self).pending() == pend0 + emissions(definitions(old(self).patterns_view()), old(self).width() as usize, old(self).height() as usize, ds),
            forall|a: Seq<usize>| locally_consistent(a, old(self).width() as int, old(self).height() as int, old(self).rules())
                && #[trigger] fits(a, old(self).cells()) ==> r.is_ok() && fits(a, final(self).cells()),
            r.is_ok() ==> sum_sizes(final(self).cells()) < sum_sizes(old(self).cells()) || (final(self).cells()
                == old(self).cells() && final(queue)@ == old(queue)@),
            r matches Err(e) ==> final(self).contradiction_at(e),
    {
        let w = self.possibilities_for_tiles.w;
        let h = self.possibilities_for_tiles.h;
        let ghost n = self.cells().len();
        let ghost np = self.patterns@.len();
        let ghost cells0 = self.cells();
        let ghost queue0 = queue@;
        let ghost sum0 = sum_sizes(self.cells());
        let (cx, cy) = match MultiVec::<BitSet>::checked_index_to_xy(cur, w, h) {
            Some(p) => p,
            None => (0, 0),
        };
        proof {
            lemma_usize_set_finite(self.cells()[cur as int]);
        }
        let elems = set_elements(&self.possibilities_for_tiles.data[cur]);
        proof {
            assert(self.cells()[cur as int] == bits_of(self.possibilities_for_tiles.data@[cur as int]));
            assert forall|t: int| 0 <= t < elems@.len() implies (#[trigger] elems@[t] as int) < self.rules_checker.pattern_count() by {
                assert(elems@.contains(elems@[t]));
                assert(self.cells()[cur as int].contains(elems@[t]));
            }
        }
        let dirs = get_valid_directions(cx, cy, w, h);
        let ghost defs = definitions(self.patterns_view());
        let ghost mut ds = ds0;
        let mut k: usize = 0;
        while k < dirs.len()
            invariant
                self.propagating(start, start_e, queue@, queued@, dirty@, cur as int),
                defs == definitions(self.patterns_view()),
                start.len() == n,
                decided_between(start, self.cells(), w as int, h as int, ds),
                self.pending() == pend0 + emissions(defs, w, h, ds),
                !queued@[cur as int],
                w == self.possibilities_for_tiles.w,
                h == self.possibilities_for_tiles.h,
                w == self.width(),
                h == self.height(),
                n == self.cells().len(),
                cur < n,
                cx < w,
                cy < h,
                flat_index(cx as int, cy as int, w as int) == cur,
                np == self.patterns_view().len(),
                self.patterns_view() == old(self).patterns_view(),
                self.total_weight() == old(self).total_weight(),
                self.rules() == old(self).rules(),
                self.cells()[cur as int] == cells0[cur as int],
                cells0 == old(self).cells(),
                cells0.len() == n,
                self.width() == old(self).width(),
                self.height() == old(self).height(),
                self.failure() == old(self).failure(),
                self.entropies() == old(self).entropies(),
                old(self).pending().len() <= self.pending().len(),
                self.pending().subrange(0, old(self).pending().len() as int) == old(self).pending(),
                forall|t: int| 0 <= t < elems@.len() ==> (#[trigger] elems@[t] as int) < self.rules_checker.pattern_count(),
                forall|v: usize| cells0[cur as int].contains(v) <==> elems@.contains(v),
                forall|j: int| 0 <= j < dirs@.len() ==> has_neighbor(cx as int, cy as int, #[trigger] dirs@[j], w as int, h as int),
                forall|d: Direction| has_neighbor(cx as int, cy as int, d, w as int, h as int) ==> dirs@.contains(d),
                k <= dirs@.len(),
                forall|j: int| 0 <= j < k ==> self.cells()[flat_index(cx + dx(#[trigger] dirs@[j]), cy + dy(dirs@[j]), w as int)].subset_of(
                    support(self.rules(), self.cells()[cur as int], dirs@[j]),
                ),
                forall|i: int| 0 <= i < n ==> (#[trigger] self.cells()[i]).subset_of(cells0[i]),
                sum_sizes(self.cells()) <= sum0,
                sum0 == sum_sizes(cells0),
                sum_sizes(self.cells()) < sum0 || (self.cells() == cells0 && queue@ == queue0),
                forall|a: Seq<usize>| locally_consistent(a, w as int, h as int, self.rules()) && #[trigger] fits(a, cells0)
                    ==> fits(a, self.cells()),
            decreases dirs@.len() - k,
        {
            let d = dirs[k];
            let (nx, ny) = step(cx, cy, d, w, h);
            proof {
                lemma_flat_index_in_bounds(nx as int, ny as int, w as int, h as int);
                crate::direction::lemma_direction_steps(d, Direction::Stay);
                if flat_index(nx as int, ny as int, w as int) == cur {
                    lemma_flat_index_injective(nx as int, ny as int, cx as int, cy as int, w as int);
                }
            }
            let ni = nx + ny * w;
            let allowed = union_of_rules(&self.rules_checker, &elems, d, Ghost(cells0[cur as int]));
            let ghost cells_before = self.cells();
            let ghost set_before = self.cells()[ni as int];
            proof {
                assert(n == cells0.len());
                assert(forall|i: int| 0 <= i < n ==> (#[trigger] cells_before[i]).subset_of(cells0[i]));
                lemma_usize_set_finite(set_before);
                assert(set_before == bits_of(self.possibilities_for_tiles.data@[ni as int]));
            }
            let before_len = set_len(&self.possibilities_for_tiles.data[ni]);
            let ghost snap = *self;
            set_intersect_with(&mut self.possibilities_for_tiles.data[ni], &allowed);
            let ghost set_after = bits_of(self.possibilities_for_tiles.data@[ni as int]);
            proof {
                assert(self.cells() =~= cells_before.update(ni as int, set_after));
                lemma_usize_set_finite(set_after);
                lemma_sum_sizes_update(cells_before, ni as int, set_after);
                assert forall|a: Seq<usize>| locally_consistent(a, w as int, h as int, self.rules()) && #[trigger] fits(a, cells0)
                    implies fits(a, self.cells()) by {
                    assert(fits(a, cells_before));
                    assert(cells_before[cur as int].contains(a[cur as int]));
                    assert(has_neighbor(cx as int, cy as int, d, w as int, h as int));
                    assert(self.rules().allowed(a[cur as int] as int, d).contains(a[ni as int]));
                    assert(support(self.rules(), cells0[cur as int], d).contains(a[ni as int]));
                    assert(cells_before[ni as int].contains(a[ni as int]));
                    assert forall|i: int| 0 <= i < self.cells().len() implies #[trigger] self.cells()[i].contains(a[i]) by {
                        if i != ni {
                            assert(cells_before[i].contains(a[i]));
                        }
                    }
                }
            }
            let after_len = set_len(&self.possibilities_for_tiles.data[ni]);
            if after_len == 0 {
                proof {
                    set_after.lemma_len0_is_empty();
                    assert(self.cell(nx as int, ny as int) == set_after);
                    assert forall|a: Seq<usize>| locally_consistent(a, w as int, h as int, self.rules()) && #[trigger] fits(a, cells0)
                        implies false by {
                        assert(fits(a, self.cells()));
                        assert(self.cells()[ni as int].contains(a[ni as int]));
                    }
                    assert forall|i: int| 0 <= i < old(self).cells().len() implies (#[trigger] self.cells()[i]).subset_of(old(self).cells()[i]) by {
                        assert(cells_before[i].subset_of(cells0[i]));
                    }
                }
                return Err(GenerationError::Contradiction { x: nx, y: ny, direction: d });
            }
            proof {
                vstd::set_lib::lemma_len_subset(set_after, set_before);
                if after_len == before_len {
                    vstd::set_lib::lemma_subset_equality(set_after, set_before);
                    assert(self.cells() =~= cells_before);
                }
            }
            if after_len != before_len {
                if after_len == 1 {
                    let members = set_elements(&self.possibilities_for_tiles.data[ni]);
                    proof {
                        vstd::set_lib::lemma_set_empty_equivalency_len(set_after);
                        let v = choose|v: usize| set_after.contains(v);
                        assert(members@.contains(v));
                        assert(members@.len() > 0);
                        assert(members@.contains(members@[0]));
                        assert(set_after.contains(members@[0]));
                        assert(self.cells()[ni as int].subset_of(start[ni as int]));
                    }
                    let p = members[0];
                    let ghost pend = self.pending();
                    proof {
                        Set::lemma_is_singleton(set_after);
                        assert(set_after =~= set![p]);
                        assert(set_after.subset_of(all_patterns(np)));
                        assert(self.cells()[ni as int] == set![p]);
                        self.lemma_narrowed_settled(&snap, ni as int);
                    }
                    let ghost pre = *self;
                    self.collapsed_tiles.insert_pattern(&self.patterns[p], (nx, ny), w, h);
                    proof {
                        assert(self.pending().subrange(0, old(self).pending().len() as int) =~= pend.subrange(0, old(self).pending().len() as int));
                        assert(definitions(pre.patterns_view())[p as int] == pre.patterns@[p as int].flat_definition@);
                        self.lemma_pending_append_emission(&pre, nx, ny, p);
                        assert(set_before.len() >= 2);
                        assert(self.cells() == cells_before.update(ni as int, set![p]));
                        assert(forall|i: int| 0 <= i < cells_before.len() ==> (#[trigger] cells_before[i]).subset_of(start[i]));
                        lemma_decided_push(start, cells_before, self.cells(), w as int, h as int, ds, nx, ny, p);
                        let ghost ds_prev = ds;
                        ds = ds.push((nx, ny, p));
                        assert(ds.drop_last() =~= ds_prev);
                        assert(defs[p as int] == self.patterns@[p as int].flat_definition@);
                        assert(self.pending() =~= pend0 + emissions(defs, w, h, ds));
                    }
                }
                dirty.set(ni, true);
                if !queued[ni] {
                    let ghost qb = queue@;
                    let ghost qdb = queued@;
                    queue.push_back(ni);
                    queued.set(ni, true);
                    proof {
                        assert(queue@ == qb.push(ni));
                        assert(queued@ == qdb.update(ni as int, true));
                        assert(!qb.contains(ni));
                        assert forall|i: int| 0 <= i < n implies (#[trigger] queued@[i] <==> queue@.contains(i as usize)) by {
                            assert(qdb[i] <==> qb.contains(i as usize));
                            if i != ni {
                                if queue@.contains(i as usize) {
                                    let j = choose|j: int| 0 <= j < queue@.len() && queue@[j] == i as usize;
                                    assert(qb[j] == i as usize);
                                }
                                if qb.contains(i as usize) {
                                    let j = choose|j: int| 0 <= j < qb.len() && qb[j] == i as usize;
                                    assert(queue@[j] == i as usize);
                                }
                            } else {
                                assert(queue@[queue@.len() - 1] == ni);
                            }
                        }
                        assert forall|a: int, b: int| 0 <= a < b < queue@.len() implies queue@[a] != queue@[b] by {
                            if b == queue@.len() - 1 {
                                assert(qb.contains(qb[a]));
                            } else {
                                assert(qb[a] != qb[b]);
                            }
                        }
                    }
                }
            }
            proof {
                let pattern_total = self.patterns_view().len();
                assert forall|x: int, y: int|
                    in_wave(x, y, w as int, h as int) && self.cells()[flat_index(x, y, w as int)] != all_patterns(pattern_total)
                        && flat_index(x, y, w as int) != cur && !queued@[flat_index(x, y, w as int)]
                    implies #[trigger] arc_consistent_at(self.cells(), w as int, h as int, self.rules(), x, y) by {
                    lemma_flat_index_in_bounds(x, y, w as int, h as int);
                    let c = flat_index(x, y, w as int);
                    assert(self.cells()[c] == cells_before[c]);
                    assert(arc_consistent_at(cells_before, w as int, h as int, self.rules(), x, y));
                    assert forall|e: Direction| #[trigger] has_neighbor(x, y, e, w as int, h as int) implies self.cells()[flat_index(x + dx(e), y + dy(e), w as int)].subset_of(
                        support(self.rules(), self.cells()[flat_index(x, y, w as int)], e)) by {
                        lemma_flat_index_in_bounds(x + dx(e), y + dy(e), w as int, h as int);
                    }
                }
                assert forall|j: int| 0 <= j < k + 1 implies self.cells()[flat_index(cx + dx(#[trigger] dirs@[j]), cy + dy(dirs@[j]), w as int)].subset_of(
                    support(self.rules(), self.cells()[cur as int], dirs@[j])) by {
                    lemma_flat_index_in_bounds(cx + dx(dirs@[j]), cy + dy(dirs@[j]), w as int, h as int);
                }
                assert forall|i: int| 0 <= i < n implies (#[trigger] self.cells()[i]).subset_of(start[i]) by {
                    assert(cells_before[i].subset_of(start[i]));
                }
                assert forall|i: int| 0 <= i < n implies (#[trigger] self.cells()[i]).subset_of(cells0[i]) by {
                    assert(cells_before[i].subset_of(cells0[i]));
                }
                assert forall|i: int| 0 <= i < n && !(#[trigger] dirty@[i]) implies self.cells()[i] == start[i] by {
                }
                assert forall|i: int| 0 <= i < n implies (#[trigger] self.cells()[i]) != Set::<usize>::empty() by {
                    if i == ni {
                        assert(set_after.len() > 0);
                    }
                    assert(cells_before[i] != Set::<usize>::empty());
                }
                assert forall|i: int| 0 <= i < n implies (#[trigger] self.cells()[i]).subset_of(all_patterns(pattern_total)) by {
                    assert(cells_before[i].subset_of(all_patterns(pattern_total)));
                }
                if !(after_len != before_len && after_len == 1) {
                    self.lemma_narrowed_settled(&snap, ni as int);
                    assert forall|i: int| 0 <= i < self.cells().len() && #[trigger] start[i].len() >= 2 && self.cells()[i].len() == 1
                        implies cells_before[i].len() == 1 by {
                        if i == ni && after_len != before_len {
                            assert(self.cells()[i].len() == after_len);
                        }
                    }
                    assert forall|i: int| 0 <= i < self.cells().len() implies (#[trigger] self.cells()[i]) != Set::<usize>::empty() by {
                        if i == ni {
                            assert(set_after.len() > 0);
                        } else {
                            assert(cells_before[i] != Set::<usize>::empty());
                        }
                    }
                    lemma_decided_shrink(start, cells_before, self.cells(), w as int, h as int, ds);
                }
                assert forall|i: int, q: usize| 0 <= i < self.cells().len() && #[trigger] start[i].contains(q) && cells_before[i].contains(q)
                    && !self.cells()[i].contains(q) implies removal_justified(self.cells(), w as int, h as int, self.rules(), i, q) by {
                    assert(i == ni);
                    assert(bits_of(allowed) == support(self.rules(), cells0[cur as int], d));
                    assert(!support(self.rules(), self.cells()[cur as int], d).contains(q));
                    assert(has_neighbor(cx as int, cy as int, d, w as int, h as int));
                }
                lemma_justified_shrink(start, cells_before, self.cells(), w as int, h as int, self.rules());
                assert forall|i: int| 0 <= i < n && #[trigger] dirty@[i] implies self.cells()[i] != start[i] by {
                    if i == ni {
                        if after_len != before_len {
                            assert(set_after != set_before);
                            if set_before == start[i] {
                                assert(set_after != start[i]);
                            } else {
                                assert(set_before.subset_of(start[i]));
                                lemma_still_narrowed(start[i], set_before, set_after);
                            }
                        } else {
                            assert(self.cells()[i] == cells_before[i]);
                        }
                    } else {
                        assert(self.cells()[i] == cells_before[i]);
                    }
                }
            }
            k += 1;
        }
        proof {
            let pattern_total = self.patterns_view().len();
            assert forall|x: int, y: int|
                in_wave(x, y, w as int, h as int) && self.cells()[flat_index(x, y, w as int)] != all_patterns(pattern_total)
                    && flat_index(x, y, w as int) != -1 && !queued@[flat_index(x, y, w as int)]
                implies #[trigger] arc_consistent_at(self.cells(), w as int, h as int, self.rules(), x, y) by {
                if flat_index(x, y, w as int) == cur {
                    lemma_flat_index_injective(x, y, cx as int, cy as int, w as int);
                    assert forall|e: Direction| #[trigger] has_neighbor(x, y, e, w as int, h as int) implies self.cells()[flat_index(x + dx(e), y + dy(e), w as int)].subset_of(
                        support(self.rules(), self.cells()[flat_index(x, y, w as int)], e)) by {
                        assert(dirs@.contains(e));
                        let j = choose|j: int| 0 <= j < dirs@.len() && dirs@[j] == e;
                        assert(self.cells()[flat_index(cx + dx(dirs@[j]), cy + dy(dirs@[j]), w as int)].subset_of(
                            support(self.rules(), self.cells()[cur as int], dirs@[j])));
                    }
                }
            }
        }
        Ok(())
    }

    /// Spread the consequences of narrowing cell `(x_chosen_tile,
    /// y_chosen_tile)`: repeatedly narrow the neighbours of a queued cell,
    /// queueing each cell that changed, until no cell is queued; then
    /// recompute the cached entropy of every changed cell. Fails when a cell
    /// is left with no possibility.
    pub(crate) fn propagate_chosen_possibility(&mut self, x_chosen_tile: usize, y_chosen_tile: usize) -> (r: Result<(), GenerationError>)
        requires
            old(self).wf_base(),
            old(self).failure().is_none(),
            old(self).open_cells_nonempty(),
            old(self).pending_settled(),
            old(self).entropies_consistent(),
            x_chosen_tile < old(self).width(),
            y_chosen_tile < old(self).height(),
            old(self).consistent_except(flat_index(x_chosen_tile as int, y_chosen_tile as int, old(self).width() as int)),
        ensures
            final(self).wf_base(),
            final(self).patterns_view() == old(self).patterns_view(),
            final(self).total_weight() == old(self).total_weight(),
            final(self).rules() == old(self).rules(),
            final(self).width() == old(self).width(),
            final(self).height() == old(self).height(),
            final(self).failure() == old(self).failure(),
            final(self).cells().len() == old(self).cells().len(),
            old(self).pending().len() <= final(self).pending().len(),
            final(self).pending().subrange(0, old(self).pending().len() as int) == old(self).pending(),
            forall|i: int| 0 <= i < old(self).cells().len() ==> (#[trigger] final(self).cells()[i]).subset_of(old(self).cells()[i]),
            r.is_ok() ==> final(self).wf() && final(self).entropies_consistent(),
            r.is_ok() ==> exists|ds: Seq<(usize, usize, usize)>| decided_between(old(self).cells(), final(self).cells(), old(self).width() as int, old(self).height() as int, ds)
                && final(self).pending() == old(self).pending() + emissions(definitions(old(self).patterns_view()), old(self).width() as usize, old(self).height() as usize, ds),
            r.is_ok() ==> removals_justified(old(self).cells(), final(self).cells(), old(self).width() as int, old(self).height() as int, old(self).rules()),
            r.is_ok() ==> forall|i: int| 0 <= i < old(self).cells().len() && #[trigger] final(self).cells()[i] == old(self).cells()[i]
                ==> final(self).entropies()[i] == old(self).entropies()[i],
            forall|a: Seq<usize>| locally_consistent(a, old(self).width() as int, old(self).height() as int, old(self).rules())
                && #[trigger] fits(a, old(self).cells()) ==> r.is_ok() && fits(a, final(self).cells()),
            r matches Err(e) ==> final(self).contradiction_at(e),
    {
        let w = self.possibilities_for_tiles.w;
        let h = self.possibilities_for_tiles.h;
        let n = self.possibilities_for_tiles.data.len();
        proof {
            lemma_flat_index_in_bounds(x_chosen_tile as int, y_chosen_tile as int, w as int, h as int);
        }
        let origin = x_chosen_tile + y_chosen_tile * w;
        let mut work_queue: VecDeque<usize> = VecDeque::new();
        let mut queued = falses(n);
        let mut dirty = falses(n);
        work_queue.push_back(origin);
        queued.set(origin, true);
        let ghost start = self.cells();
        let ghost start_e = self.entropies();
        let ghost pend_start = self.pending();
        let ghost defs = definitions(self.patterns_view());
        let ghost mut ds_total: Seq<(usize, usize, usize)> = Seq::empty();
        proof {
            assert(self.pending() =~= pend_start + emissions(defs, w, h, ds_total));
        }
        proof {
            assert(n == w * h);
            assert(work_queue@ == seq![origin]);
            assert forall|i: int| 0 <= i < n implies (#[trigger] queued@[i] <==> work_queue@.contains(i as usize)) by {
                if i == origin {
                    assert(work_queue@[0] == origin);
                }
            }
        }
        loop
            invariant
                self.propagating(start, start_e, work_queue@, queued@, dirty@, -1),
                n == self.cells().len(),
                n == w * h,
                w == self.width(),
                h == self.height(),
                start == old(self).cells(),
                start_e == old(self).entropies(),
                self.patterns_view() == old(self).patterns_view(),
                self.total_weight() == old(self).total_weight(),
                self.rules() == old(self).rules(),
                self.width() == old(self).width(),
                self.height() == old(self).height(),
                self.failure() == old(self).failure(),
                old(self).entropies_consistent(),
                old(self).pending().len() <= self.pending().len(),
                self.pending().subrange(0, old(self).pending().len() as int) == old(self).pending(),
                forall|a: Seq<usize>| locally_consistent(a, w as int, h as int, self.rules()) && #[trigger] fits(a, start)
                    ==> fits(a, self.cells()),
                pend_start == old(self).pending(),
                defs == definitions(self.patterns_view()),
                decided_between(start, self.cells(), w as int, h as int, ds_total),
                self.pending() == pend_start + emissions(defs, w, h, ds_total),
            ensures
                decided_between(start, self.cells(), w as int, h as int, ds_total),
                self.pending() == pend_start + emissions(defs, w, h, ds_total),
                forall|a: Seq<usize>| locally_consistent(a, w as int, h as int, self.rules()) && #[trigger] fits(a, start)
                    ==> fits(a, self.cells()),
                old(self).pending().len() <= self.pending().len(),
                self.pending().subrange(0, old(self).pending().len() as int) == old(self).pending(),
                self.propagating(start, start_e, work_queue@, queued@, dirty@, -1),
                work_queue@.len() == 0,
                n == self.cells().len(),
                self.patterns_view() == old(self).patterns_view(),
                self.total_weight() == old(self).total_weight(),
                self.rules() == old(self).rules(),
                self.width() == old(self).width(),
                self.height() == old(self).height(),
                self.failure() == old(self).failure(),
            decreases sum_sizes(self.cells()), work_queue@.len(),
        {
            let ghost q_before = work_queue@;
            match work_queue.pop_front() {
                None => {
                    break;
                },
                Some(cur) => {
                    let ghost qd_before = queued@;
                    queued.set(cur, false);
                    proof {
                        assert(queued@ == qd_before.update(cur as int, false));
                        assert(q_before[0] == cur);
                        assert(work_queue@ == q_before.subrange(1, q_before.len() as int));
                        assert forall|i: int| 0 <= i < n implies (#[trigger] queued@[i] <==> work_queue@.contains(i as usize)) by {
                            assert(qd_before[i] <==> q_before.contains(i as usize));
                            if i == cur {
                                if work_queue@.contains(cur) {
                                    let j = choose|j: int| 0 <= j < work_queue@.len() && work_queue@[j] == cur;
                                    assert(q_before[j + 1] == q_before[0]);
                                }
                            } else {
                                if q_before.contains(i as usize) {
                                    let j = choose|j: int| 0 <= j < q_before.len() && q_before[j] == i as usize;
                                    assert(j != 0);
                                    assert(work_queue@[j - 1] == i as usize);
                                }
                                if work_queue@.contains(i as usize) {
                                    let j = choose|j: int| 0 <= j < work_queue@.len() && work_queue@[j] == i as usize;
                                    assert(q_before[j + 1] == i as usize);
                                }
                            }
                        }
                        assert forall|a: int, b: int| 0 <= a < b < work_queue@.len() implies work_queue@[a] != work_queue@[b] by {
                            assert(q_before[a + 1] != q_before[b + 1]);
                        }
                        assert forall|k: int| 0 <= k < work_queue@.len() implies (#[trigger] work_queue@[k] as int) < n by {
                            assert(q_before[k + 1] == work_queue@[k]);
                        }
                        let np = self.patterns_view().len();
                        assert forall|x: int, y: int|
                            in_wave(x, y, w as int, h as int) && self.cells()[flat_index(x, y, w as int)] != all_patterns(np)
                                && flat_index(x, y, w as int) != cur && !queued@[flat_index(x, y, w as int)]
                            implies #[trigger] arc_consistent_at(self.cells(), w as int, h as int, self.rules(), x, y) by {
                            lemma_flat_index_in_bounds(x, y, w as int, h as int);
                            assert(queued@[flat_index(x, y, w as int)] == qd_before[flat_index(x, y, w as int)]);
                        }
                    }
                    let ghost pend = self.pending();
                    let ghost before_narrow = self.cells();
                    let r = self.narrow_neighbors(cur, &mut work_queue, &mut queued, &mut dirty, Ghost(start), Ghost(start_e), Ghost(pend_start), Ghost(ds_total));
                    proof {
                        assert forall|a: Seq<usize>| locally_consistent(a, w as int, h as int, self.rules()) && #[trigger] fits(a, start)
                            implies r.is_ok() && fits(a, self.cells()) by {
                            assert(fits(a, before_narrow));
                        }
                    }
                    proof {
                        assert(self.pending().subrange(0, old(self).pending().len() as int) =~= self.pending().subrange(0, pend.len() as int).subrange(0, old(self).pending().len() as int));
                    }
                    if r.is_err() {
                        return r;
                    }
                    proof {
                        ds_total = choose|ds: Seq<(usize, usize, usize)>| decided_between(start, self.cells(), w as int, h as int, ds)
                            && self.pending() == pend_start + emissions(defs, w, h, ds);
                    }
                },
            }
        }
        proof {
            assert forall|i: int| 0 <= i < n implies !(#[trigger] queued@[i]) by {
                assert(!work_queue@.contains(i as usize));
            }
            let np = self.patterns_view().len();
            assert forall|x: int, y: int|
                in_wave(x, y, w as int, h as int) && self.cells()[flat_index(x, y, w as int)] != all_patterns(np)
                    && flat_index(x, y, w as int) != -1
                implies #[trigger] arc_consistent_at(self.cells(), w as int, h as int, self.rules(), x, y) by {
                lemma_flat_index_in_bounds(x, y, w as int, h as int);
                assert(!queued@[flat_index(x, y, w as int)]);
            }
            assert(self.consistent_except(-1));
        }
        let ghost settled_cells = self.cells();
        proof {
            assert(removals_justified(start, settled_cells, w as int, h as int, self.rules()));
        }
        let mut i: usize = 0;
        while i < n
            invariant
                self.wf(),
                n == self.cells().len(),
                i <= n,
                dirty@.len() == n,
                self.patterns_view() == old(self).patterns_view(),
                self.total_weight() == old(self).total_weight(),
                self.rules() == old(self).rules(),
                self.width() == old(self).width(),
                self.height() == old(self).height(),
                self.failure() == old(self).failure(),
                self.entropies().len() == n,
                forall|a: Seq<usize>| locally_consistent(a, w as int, h as int, self.rules()) && #[trigger] fits(a, start)
                    ==> fits(a, self.cells()),
                old(self).pending().len() <= self.pending().len(),
                self.pending().subrange(0, old(self).pending().len() as int) == old(self).pending(),
                forall|j: int| 0 <= j < n ==> (#[trigger] self.cells()[j]).subset_of(start[j]),
                forall|j: int| 0 <= j < i ==> #[trigger] self.entropy_consistent(j),
                forall|j: int| 0 <= j < n && !(#[trigger] dirty@[j]) ==> self.cells()[j] == start[j] && self.entropies()[j] == start_e[j],
                forall|j: int| 0 <= j < n && #[trigger] dirty@[j] ==> self.cells()[j] != start[j],
                self.cells() == settled_cells,
                self.pending() == pend_start + emissions(defs, w, h, ds_total),
                decided_between(start, settled_cells, w as int, h as int, ds_total),
                defs == definitions(self.patterns_view()),
                removals_justified(start, settled_cells, w as int, h as int, self.rules()),
                w == self.width(),
                h == self.height(),
                start == old(self).cells(),
                start_e == old(self).entropies(),
                old(self).entropies_consistent(),
                n == old(self).cells().len(),
            decreases n - i,
        {
            if dirty[i] {
                let ghost before = *self;
                let e = self.get_shannon_entropy_for_tile(i);
                let ghost mid = *self;
                self.entropy_for_tile.data.set(i, e);
                proof {
                    self.lemma_settled_same_cells(&mid);
                    assert(self.entropies() == mid.entropies().update(i as int, e));
                    assert forall|j: int| 0 <= j < i + 1 implies #[trigger] self.entropy_consistent(j) by {
                        if j < i {
                            assert(before.entropy_consistent(j));
                        }
                    }
                }
            } else {
                proof {
                    assert(old(self).entropy_consistent(i as int));
                    assert(self.cells()[i as int] == start[i as int]);
                    assert(self.entropies()[i as int] == start_e[i as int]);
                }
            }
            i += 1;
        }
        proof {
            assert forall|i: int| 0 <= i < old(self).cells().len() && #[trigger] self.cells()[i] == old(self).cells()[i]
                implies self.entropies()[i] == old(self).entropies()[i] by {
                if dirty@[i] {
                    assert(self.cells()[i] != start[i]);
                }
            }
        }
        Ok(())
    }

}

/// `a` picks a pattern for every cell such that each neighbour's pattern is
/// allowed by the rules next to the cell's pattern.
pub open spec fn locally_consistent(a: Seq<usize>, w: int, h: int, rules: RulesChecker) -> bool {
    &&& a.len() == w * h
    &&& forall|x: int, y: int, d: Direction|
        in_wave(x, y, w, h) && #[trigger] has_neighbor(x, y, d, w, h) ==> rules.allowed(
            a[flat_index(x, y, w)] as int,
            d,
        ).contains(a[flat_index(x + dx(d), y + dy(d), w)])
}

/// Each cell's pick in `a` is still possible there.
pub open spec fn fits(a: Seq<usize>, sets: Seq<Set<usize>>) -> bool {
    &&& a.len() == sets.len()
    &&& forall|i: int| 0 <= i < sets.len() ==> #[trigger] sets[i].contains(a[i])
}

/// Pattern `q` is missing from the support, in direction `d`, of some cell
/// `m` of which cell `i` is the neighbour in direction `d`.
pub open spec fn removal_justified(sets: Seq<Set<usize>>, w: int, h: int, rules: RulesChecker, i: int, q: usize) -> bool {
    exists|mx: int, my: int, d: Direction|
        #![trigger has_neighbor(mx, my, d, w, h)]
        in_wave(mx, my, w, h) && has_neighbor(mx, my, d, w, h) && flat_index(mx + dx(d), my + dy(d), w) == i
            && !support(rules, sets[flat_index(mx, my, w)], d).contains(q)
}

/// Every possibility that a cell lost since `start` lacks support from a
/// neighbour in `sets`.
pub open spec fn removals_justified(start: Seq<Set<usize>>, sets: Seq<Set<usize>>, w: int, h: int, rules: RulesChecker) -> bool {
    forall|i: int, q: usize|
        0 <= i < sets.len() && #[trigger] start[i].contains(q) && !sets[i].contains(q) ==> removal_justified(
            sets,
            w,
            h,
            rules,
            i,
            q,
        )
}

/// A smaller set supports fewer patterns.
pub(crate) proof fn lemma_support_monotone(rules: RulesChecker, s: Set<usize>, t: Set<usize>, d: Direction, q: usize)
    requires
        s.subset_of(t),
        support(rules, s, d).contains(q),
    ensures
        support(rules, t, d).contains(q),
{
    let a = choose|a: usize| s.contains(a) && #[trigger] rules.allowed(a as int, d).contains(q);
    assert(t.contains(a));
}

/// Justified removals stay justified while the sets only shrink.
pub(crate) proof fn lemma_justified_shrink(start: Seq<Set<usize>>, before: Seq<Set<usize>>, after: Seq<Set<usize>>, w: int, h: int, rules: RulesChecker)
    requires
        removals_justified(start, before, w, h, rules),
        before.len() == after.len(),
        before.len() == w * h,
        forall|i: int| 0 <= i < after.len() ==> (#[trigger] after[i]).subset_of(before[i]),
        forall|i: int, q: usize| 0 <= i < after.len() && #[trigger] start[i].contains(q) && before[i].contains(q) && !after[i].contains(q)
            ==> removal_justified(after, w, h, rules, i, q),
    ensures
        removals_justified(start, after, w, h, rules),
{
    assert forall|i: int, q: usize| 0 <= i < after.len() && #[trigger] start[i].contains(q) && !after[i].contains(q)
        implies removal_justified(after, w, h, rules, i, q) by {
        if !before[i].contains(q) {
            assert(removal_justified(before, w, h, rules, i, q));
            let (mx, my, d) = choose|mx: int, my: int, d: Direction|
                #![trigger has_neighbor(mx, my, d, w, h)]
                in_wave(mx, my, w, h) && has_neighbor(mx, my, d, w, h) && flat_index(mx + dx(d), my + dy(d), w) == i
                    && !support(rules, before[flat_index(mx, my, w)], d).contains(q);
            lemma_flat_index_in_bounds(mx, my, w, h);
            let m = flat_index(mx, my, w);
            if support(rules, after[m], d).contains(q) {
                lemma_support_monotone(rules, after[m], before[m], d, q);
            }
            assert(has_neighbor(mx, my, d, w, h));
        }
    }
}

/// A non-empty part of a one-element set is that set.
pub(crate) proof fn lemma_singleton_part(s: Set<usize>, p: usize)
    requires
        s.subset_of(set![p]),
        s != Set::<usize>::empty(),
    ensures
        s == set![p],
{
    assert(!(s =~= Set::<usize>::empty()));
    let e = choose|e: usize| !(s.contains(e) <==> Set::<usize>::empty().contains(e));
    assert(s.contains(e));
    assert(e == p);
    assert(s =~= set![p]);
}

/// A one-element set has one element.
pub(crate) proof fn lemma_singleton_len(p: usize)
    ensures
        set![p].len() == 1,
{
    assert(set![p].is_singleton()) by {
        assert forall|a: usize, b: usize| set![p].contains(a) && set![p].contains(b) implies a == b by {}
    }
    set![p].lemma_singleton_size();
}

/// A set of one element is that element's singleton.
pub(crate) proof fn lemma_len_one(s: Set<usize>) -> (p: usize)
    requires
        s.len() == 1,
    ensures
        s == set![p],
{
    lemma_usize_set_finite(s);
    Set::lemma_is_singleton(s);
    let p = s.choose();
    assert(s.contains(p));
    assert(s =~= set![p]);
    p
}

/// The decided-cell list survives a step that shrinks cells without
/// deciding any new one.
pub(crate) proof fn lemma_decided_shrink(
    start: Seq<Set<usize>>,
    before: Seq<Set<usize>>,
    after: Seq<Set<usize>>,
    w: int,
    h: int,
    ds: Seq<(usize, usize, usize)>,
)
    requires
        decided_between(start, before, w, h, ds),
        start.len() == w * h,
        before.len() == w * h,
        after.len() == w * h,
        forall|i: int| 0 <= i < after.len() ==> (#[trigger] after[i]).subset_of(before[i]),
        forall|i: int| 0 <= i < after.len() ==> (#[trigger] after[i]) != Set::<usize>::empty(),
        forall|i: int| 0 <= i < after.len() && #[trigger] start[i].len() >= 2 && after[i].len() == 1 ==> before[i].len() == 1,
    ensures
        decided_between(start, after, w, h, ds),
{
    assert forall|k: int| 0 <= k < ds.len() implies {
        let (x, y, p) = #[trigger] ds[k];
        &&& in_wave(x as int, y as int, w, h)
        &&& start[flat_index(x as int, y as int, w)].len() >= 2
        &&& after[flat_index(x as int, y as int, w)] == set![p]
    } by {
        let (x, y, p) = ds[k];
        lemma_flat_index_in_bounds(x as int, y as int, w, h);
        lemma_singleton_part(after[flat_index(x as int, y as int, w)], p);
    }
    assert forall|x: int, y: int|
        in_wave(x, y, w, h) && #[trigger] start[flat_index(x, y, w)].len() >= 2 && after[flat_index(x, y, w)].len() == 1
        implies exists|k: int| 0 <= k < ds.len() && ds[k].0 == x && ds[k].1 == y by {
        lemma_flat_index_in_bounds(x, y, w, h);
        assert(before[flat_index(x, y, w)].len() == 1);
    }
}

/// Recording a cell that a step decided, from two or more possibilities to
/// exactly `p`.
pub(crate) proof fn lemma_decided_push(
    start: Seq<Set<usize>>,
    before: Seq<Set<usize>>,
    after: Seq<Set<usize>>,
    w: int,
    h: int,
    ds: Seq<(usize, usize, usize)>,
    x: usize,
    y: usize,
    p: usize,
)
    requires
        decided_between(start, before, w, h, ds),
        start.len() == w * h,
        before.len() == w * h,
        in_wave(x as int, y as int, w, h),
        before[flat_index(x as int, y as int, w)].len() >= 2,
        after == before.update(flat_index(x as int, y as int, w), set![p]),
        forall|i: int| 0 <= i < before.len() ==> (#[trigger] before[i]).subset_of(start[i]),
    ensures
        decided_between(start, after, w, h, ds.push((x, y, p))),
{
    let f = flat_index(x as int, y as int, w);
    let e = ds.push((x, y, p));
    lemma_flat_index_in_bounds(x as int, y as int, w, h);
    lemma_usize_set_finite(start[f]);
    vstd::set_lib::lemma_len_subset(before[f], start[f]);
    lemma_singleton_len(p);
    assert forall|k: int| 0 <= k < e.len() implies {
        let (a, b, c) = #[trigger] e[k];
        &&& in_wave(a as int, b as int, w, h)
        &&& start[flat_index(a as int, b as int, w)].len() >= 2
        &&& after[flat_index(a as int, b as int, w)] == set![c]
    } by {
        if k < ds.len() {
            let (a, b, c) = ds[k];
            assert(e[k] == ds[k]);
            lemma_flat_index_in_bounds(a as int, b as int, w, h);
            lemma_singleton_len(c);
            assert(flat_index(a as int, b as int, w) != f);
        }
    }
    assert forall|k1: int, k2: int| 0 <= k1 < k2 < e.len() implies (#[trigger] e[k1]).0 != (#[trigger] e[k2]).0 || e[k1].1 != e[k2].1 by {
        if k2 == ds.len() {
            let (a, b, c) = ds[k1];
            assert(e[k1] == ds[k1]);
            lemma_singleton_len(c);
            if a == x && b == y {
                assert(before[f] == set![c]);
            }
        } else {
            assert(e[k1] == ds[k1] && e[k2] == ds[k2]);
        }
    }
    assert forall|a: int, b: int|
        in_wave(a, b, w, h) && #[trigger] start[flat_index(a, b, w)].len() >= 2 && after[flat_index(a, b, w)].len() == 1
        implies exists|k: int| 0 <= k < e.len() && e[k].0 == a && e[k].1 == b by {
        lemma_flat_index_in_bounds(a, b, w, h);
        if a == x && b == y {
            assert(e[ds.len() as int] == (x, y, p));
        } else {
            if flat_index(a, b, w) == f {
                lemma_flat_index_injective(a, b, x as int, y as int, w);
            }
            assert(after[flat_index(a, b, w)] == before[flat_index(a, b, w)]);
            let k = choose|k: int| 0 <= k < ds.len() && ds[k].0 == a && ds[k].1 == b;
            assert(e[k] == ds[k]);
        }
    }
}

/// Cells decided in two successive steps are the cells decided overall, so
/// the lists of the steps of a run chain into one list for the whole run.
pub proof fn lemma_decided_compose(
    a: Seq<Set<usize>>,
    b: Seq<Set<usize>>,
    c: Seq<Set<usize>>,
    w: int,
    h: int,
    ds1: Seq<(usize, usize, usize)>,
    ds2: Seq<(usize, usize, usize)>,
)
    requires
        decided_between(a, b, w, h, ds1),
        decided_between(b, c, w, h, ds2),
        a.len() == w * h,
        b.len() == w * h,
        c.len() == w * h,
        forall|i: int| 0 <= i < c.len() ==> (#[trigger] c[i]).subset_of(b[i]),
        forall|i: int| 0 <= i < b.len() ==> (#[trigger] b[i]).subset_of(a[i]),
        forall|i: int| 0 <= i < c.len() ==> (#[trigger] c[i]) != Set::<usize>::empty(),
    ensures
        decided_between(a, c, w, h, ds1 + ds2),
{
    let e = ds1 + ds2;
    assert forall|k: int| 0 <= k < e.len() implies {
        let (x, y, p) = #[trigger] e[k];
        &&& in_wave(x as int, y as int, w, h)
        &&& a[flat_index(x as int, y as int, w)].len() >= 2
        &&& c[flat_index(x as int, y as int, w)] == set![p]
    } by {
        if k < ds1.len() {
            let (x, y, p) = ds1[k];
            assert(e[k] == ds1[k]);
            lemma_flat_index_in_bounds(x as int, y as int, w, h);
            lemma_singleton_part(c[flat_index(x as int, y as int, w)], p);
        } else {
            let (x, y, p) = ds2[k - ds1.len()];
            assert(e[k] == ds2[k - ds1.len()]);
            lemma_flat_index_in_bounds(x as int, y as int, w, h);
            let f = flat_index(x as int, y as int, w);
            lemma_usize_set_finite(a[f]);
            vstd::set_lib::lemma_len_subset(b[f], a[f]);
        }
    }
    assert forall|k1: int, k2: int| 0 <= k1 < k2 < e.len() implies (#[trigger] e[k1]).0 != (#[trigger] e[k2]).0 || e[k1].1 != e[k2].1 by {
        if k2 < ds1.len() {
            assert(e[k1] == ds1[k1] && e[k2] == ds1[k2]);
        } else if k1 >= ds1.len() {
            assert(e[k1] == ds2[k1 - ds1.len()] && e[k2] == ds2[k2 - ds1.len()]);
        } else {
            let (x1, y1, p1) = ds1[k1];
            let (x2, y2, p2) = ds2[k2 - ds1.len()];
            assert(e[k1] == ds1[k1] && e[k2] == ds2[k2 - ds1.len()]);
            lemma_singleton_len(p1);
        }
    }
    assert forall|x: int, y: int|
        in_wave(x, y, w, h) && #[trigger] a[flat_index(x, y, w)].len() >= 2 && c[flat_index(x, y, w)].len() == 1
        implies exists|k: int| 0 <= k < e.len() && e[k].0 == x && e[k].1 == y by {
        lemma_flat_index_in_bounds(x, y, w, h);
        let f = flat_index(x, y, w);
        lemma_usize_set_finite(b[f]);
        vstd::set_lib::lemma_set_empty_equivalency_len(c[f]);
        let v = choose|v: usize| c[f].contains(v);
        assert(b[f].contains(v));
        vstd::set_lib::lemma_set_empty_equivalency_len(b[f]);
        if b[f].len() == 1 {
            let k = choose|k: int| 0 <= k < ds1.len() && ds1[k].0 == x && ds1[k].1 == y;
            assert(e[k] == ds1[k]);
        } else {
            let k = choose|k: int| 0 <= k < ds2.len() && ds2[k].0 == x && ds2[k].1 == y;
            assert(e[k + ds1.len()] == ds2[k]);
        }
    }
}

/// Over a run that starts with every cell open to two or more patterns and
/// ends with every cell decided, the list of decided cells names each cell
/// exactly once; so the streamed tiles, `emissions` of that list, hold the
/// tiles of each cell exactly once.
pub proof fn lemma_each_cell_decided_once(
    a: Seq<Set<usize>>,
    c: Seq<Set<usize>>,
    w: int,
    h: int,
    ds: Seq<(usize, usize, usize)>,
    x: int,
    y: int,
)
    requires
        decided_between(a, c, w, h, ds),
        a.len() == w * h,
        c.len() == w * h,
        forall|i: int| 0 <= i < a.len() ==> #[trigger] a[i].len() >= 2,
        forall|i: int| 0 <= i < c.len() ==> #[trigger] c[i].len() == 1,
        in_wave(x, y, w, h),
    ensures
        exists|k: int| 0 <= k < ds.len() && ds[k].0 == x && ds[k].1 == y,
        forall|k1: int, k2: int|
            0 <= k1 < ds.len() && 0 <= k2 < ds.len() && ds[k1].0 == x && ds[k1].1 == y && ds[k2].0 == x && ds[k2].1 == y
                ==> k1 == k2,
{
    lemma_flat_index_in_bounds(x, y, w, h);
    assert(a[flat_index(x, y, w)].len() >= 2);
    assert(c[flat_index(x, y, w)].len() == 1);
    assert forall|k1: int, k2: int|
        0 <= k1 < ds.len() && 0 <= k2 < ds.len() && ds[k1].0 == x && ds[k1].1 == y && ds[k2].0 == x && ds[k2].1 == y
        implies k1 == k2 by {
        if k1 < k2 {
            assert(ds[k1].0 != ds[k2].0 || ds[k1].1 != ds[k2].1);
        } else if k2 < k1 {
            assert(ds[k2].0 != ds[k1].0 || ds[k2].1 != ds[k1].1);
        }
    }
}

/// Tiles of a longer list of decided cells.
pub(crate) proof fn lemma_emissions_concat(defs: Seq<Seq<i32>>, w: usize, h: usize, a: Seq<(usize, usize, usize)>, b: Seq<(usize, usize, usize)>)
    ensures
        emissions(defs, w, h, a + b) == emissions(defs, w, h, a) + emissions(defs, w, h, b),
    decreases b.len(),
{
    if b.len() == 0 {
        assert(a + b =~= a);
    } else {
        lemma_emissions_concat(defs, w, h, a, b.drop_last());
        assert((a + b).drop_last() =~= a + b.drop_last());
    }
}

/// A set that lost an element of `start` has still lost it after shrinking.
pub(crate) proof fn lemma_still_narrowed(start: Set<usize>, before: Set<usize>, after: Set<usize>)
    requires
        before.subset_of(start),
        before != start,
        after.subset_of(before),
    ensures
        after != start,
{
    assert(!(start =~= before));
    let e = choose|e: usize| !(start.contains(e) <==> before.contains(e));
    assert(start.contains(e) && !after.contains(e));
}

/// The summed sizes of the possibility sets.
pub open spec fn sum_sizes(sets: Seq<Set<usize>>) -> nat
    decreases sets.len(),
{
    if sets.len() == 0 {
        0
    } else {
        sum_sizes(sets.drop_last()) + sets.last().len()
    }
}

pub(crate) proof fn lemma_sum_sizes_update(sets: Seq<Set<usize>>, i: int, t: Set<usize>)
    requires
        0 <= i < sets.len(),
    ensures
        sum_sizes(sets.update(i, t)) + sets[i].len() == sum_sizes(sets) + t.len(),
    decreases sets.len(),
{
    let u = sets.update(i, t);
    if i == sets.len() - 1 {
        assert(u.drop_last() =~= sets.drop_last());
    } else {
        lemma_sum_sizes_update(sets.drop_last(), i, t);
        assert(u.drop_last() =~= sets.drop_last().update(i, t));
    }
}

/// The neighbour of `(x, y)` in direction `d`.
fn step(x: usize, y: usize, d: Direction, w: usize, h: usize) -> (r: (usize, usize))
    requires
        has_neighbor(x as int, y as int, d, w as int, h as int),
    ensures
        r.0 == x + dx(d),
        r.1 == y + dy(d),
{
    let (ox, oy) = d.offset();
    let nx = if ox < 0 {
        x - 1
    } else if ox > 0 {
        x + 1
    } else {
        x
    };
    let ny = if oy < 0 {
        y - 1
    } else if oy > 0 {
        y + 1
    } else {
        y
    };
    (nx, ny)
}

/// The patterns that the rules allow in direction `d` of some member of
/// `elems`, the members of `s`.
fn union_of_rules(rules: &RulesChecker, elems: &Vec<usize>, d: Direction, Ghost(s): Ghost<Set<usize>>) -> (r: BitSet)
    requires
        rules.wf(),
        forall|t: int| 0 <= t < elems@.len() ==> (#[trigger] elems@[t] as int) < rules.pattern_count(),
        forall|v: usize| s.contains(v) <==> elems@.contains(v),
    ensures
        bits_of(r) == support(*rules, s, d),
{
    let mut acc = set_new();
    let mut t: usize = 0;
    while t < elems.len()
        invariant
            rules.wf(),
            forall|j: int| 0 <= j < elems@.len() ==> (#[trigger] elems@[j] as int) < rules.pattern_count(),
            t <= elems@.len(),
            bits_of(acc) == Set::new(|q: usize| exists|j: int| 0 <= j < t && #[trigger] rules.allowed(elems@[j] as int, d).contains(q)),
        decreases elems@.len() - t,
    {
        let ghost before = bits_of(acc);
        set_union_with(&mut acc, rules.get_possible_patterns(elems[t], d));
        proof {
            assert(bits_of(acc) =~= Set::new(|q: usize| exists|j: int| 0 <= j < t + 1 && #[trigger] rules.allowed(elems@[j] as int, d).contains(q))) by {
                assert forall|q: usize| bits_of(acc).contains(q) implies exists|j: int| 0 <= j < t + 1 && #[trigger] rules.allowed(elems@[j] as int, d).contains(q) by {
                    if !before.contains(q) {
                        assert(rules.allowed(elems@[t as int] as int, d).contains(q));
                    } else {
                        let j = choose|j: int| 0 <= j < t && #[trigger] rules.allowed(elems@[j] as int, d).contains(q);
                        assert(rules.allowed(elems@[j] as int, d).contains(q));
                    }
                }
                assert forall|q: usize| (exists|j: int| 0 <= j < t + 1 && #[trigger] rules.allowed(elems@[j] as int, d).contains(q)) implies bits_of(acc).contains(q) by {
                    let j = choose|j: int| 0 <= j < t + 1 && #[trigger] rules.allowed(elems@[j] as int, d).contains(q);
                    if j < t {
                        assert(before.contains(q));
                    }
                }
            }
        }
        t += 1;
    }
    proof {
        assert(bits_of(acc) =~= support(*rules, s, d)) by {
            assert forall|q: usize| bits_of(acc).contains(q) implies support(*rules, s, d).contains(q) by {
                let j = choose|j: int| 0 <= j < elems@.len() && #[trigger] rules.allowed(elems@[j] as int, d).contains(q);
                assert(elems@.contains(elems@[j]));
                assert(s.contains(elems@[j]));
            }
            assert forall|q: usize| support(*rules, s, d).contains(q) implies bits_of(acc).contains(q) by {
                let a = choose|a: usize| s.contains(a) && #[trigger] rules.allowed(a as int, d).contains(q);
                assert(elems@.contains(a));
                let j = choose|j: int| 0 <= j < elems@.len() && elems@[j] == a;
                assert(rules.allowed(elems@[j] as int, d).contains(q));
            }
        }
    }
    acc
}


/// `n` times `false`.
fn falses(n: usize) -> (r: Vec<bool>)
    ensures
        r@.len() == n,
        forall|i: int| 0 <= i < n ==> !(#[trigger] r@[i]),
{
    let mut r: Vec<bool> = Vec::new();
    let mut i: usize = 0;
    while i < n
        invariant
            i <= n,
            r@.len() == i,
            forall|j: int| 0 <= j < i ==> !(#[trigger] r@[j]),
        decreases n - i,
    {
        r.push(false);
        i += 1;
    }
    r
}


pub(crate) proof fn lemma_sum_sizes_subset(a: Seq<Set<usize>>, b: Seq<Set<usize>>)
    requires
        a.len() == b.len(),
        forall|i: int| 0 <= i < a.len() ==> (#[trigger] a[i]).subset_of(b[i]),
    ensures
        sum_sizes(a) <= sum_sizes(b),
    decreases a.len(),
{
    if a.len() > 0 {
        let n = a.len() - 1;
        assert forall|i: int| 0 <= i < a.drop_last().len() implies (#[trigger] a.drop_last()[i]).subset_of(b.drop_last()[i]) by {
            assert(a[i].subset_of(b[i]));
        }
        lemma_sum_sizes_subset(a.drop_last(), b.drop_last());
        lemma_usize_set_finite(b[n]);
        assert(a[n].subset_of(b[n]));
        vstd::set_lib::lemma_len_subset(a[n], b[n]);
    }
}

} // verus!
