//! The pattern catalog: every distinct 2 by 2 window of the training grid,
//! with how often it occurs.

use vstd::prelude::*;
use crate::error::GenerationError;
use crate::multi_vec::{MultiVec, flat_index, lemma_flat_index_in_bounds};

verus! {

/// The tile id that marks an unknown or empty training cell.
pub const EMPTY_TILE: i32 = -1;

/// A distinct window of the training grid, flattened row by row, and the
/// number of times it occurs there. Its probability is `occurrences` over the
/// sum of all occurrences in the catalog.
#[derive(Clone, Copy, Debug)]
pub struct Pattern {
    pub flat_definition: [i32; 4],
    pub occurrences: usize,
}

impl Pattern {
    /// A pattern with the given definition and number of occurrences.
    pub fn new(flat_definition: [i32; 4], occurrences: usize) -> (r: Pattern)
        ensures
            r.flat_definition@ == flat_definition@,
            r.occurrences == occurrences,
    {
        Pattern { flat_definition, occurrences }
    }
}

/// The window whose top-left cell is `(x, y)`, flattened row by row.
pub open spec fn window(g: MultiVec<i32>, x: int, y: int) -> Seq<i32> {
    seq![g.at(x, y), g.at(x + 1, y), g.at(x, y + 1), g.at(x + 1, y + 1)]
}

/// A window can serve as a pattern when it holds no empty tile.
pub open spec fn usable(s: Seq<i32>) -> bool {
    forall|i: int| 0 <= i < s.len() ==> s[i] != EMPTY_TILE
}

/// The usable windows of row `y` whose left column is below `n`, left to right.
pub open spec fn row_windows(g: MultiVec<i32>, y: int, n: nat) -> Seq<Seq<i32>>
    decreases n,
{
    if n == 0 {
        Seq::empty()
    } else {
        let prev = row_windows(g, y, (n - 1) as nat);
        let w = window(g, n - 1, y);
        if usable(w) {
            prev.push(w)
        } else {
            prev
        }
    }
}

/// The usable windows of the rows above row `m`, in scan order.
pub open spec fn scan_windows(g: MultiVec<i32>, m: nat) -> Seq<Seq<i32>>
    decreases m,
{
    if m == 0 {
        Seq::empty()
    } else {
        scan_windows(g, (m - 1) as nat) + row_windows(g, m - 1, (g.w - 1) as nat)
    }
}

/// Every usable window of the training grid, row by row, each row left to right.
pub open spec fn training_windows(g: MultiVec<i32>) -> Seq<Seq<i32>> {
    if g.w < 2 || g.h < 2 {
        Seq::empty()
    } else {
        scan_windows(g, (g.h - 1) as nat)
    }
}

/// The distinct values of `s`, in order of first occurrence.
pub open spec fn distinct_in_order(s: Seq<Seq<i32>>) -> Seq<Seq<i32>>
    decreases s.len(),
{
    if s.len() == 0 {
        Seq::empty()
    } else {
        let d = distinct_in_order(s.drop_last());
        if d.contains(s.last()) {
            d
        } else {
            d.push(s.last())
        }
    }
}

/// How many times `v` occurs in `s`.
pub open spec fn count_of(s: Seq<Seq<i32>>, v: Seq<i32>) -> nat
    decreases s.len(),
{
    if s.len() == 0 {
        0
    } else {
        count_of(s.drop_last(), v) + if s.last() == v {
            1nat
        } else {
            0nat
        }
    }
}

/// The definitions of a sequence of patterns.
pub open spec fn definitions(ps: Seq<Pattern>) -> Seq<Seq<i32>> {
    ps.map_values(|p: Pattern| p.flat_definition@)
}

/// `ps` lists the distinct windows of `ws` in order of first occurrence, each
/// with its number of occurrences.
pub open spec fn is_catalog_of(ps: Seq<Pattern>, ws: Seq<Seq<i32>>) -> bool {
    &&& definitions(ps) == distinct_in_order(ws)
    &&& forall|i: int|
        0 <= i < ps.len() ==> #[trigger] ps[i].occurrences == count_of(ws, ps[i].flat_definition@)
}

/// The sum of the occurrences of a sequence of patterns.
pub open spec fn total_occurrences(ps: Seq<Pattern>) -> nat
    decreases ps.len(),
{
    if ps.len() == 0 {
        0
    } else {
        total_occurrences(ps.drop_last()) + ps.last().occurrences as nat
    }
}

proof fn lemma_distinct_contains(s: Seq<Seq<i32>>, v: Seq<i32>)
    ensures
        distinct_in_order(s).contains(v) <==> s.contains(v),
    decreases s.len(),
{
    if s.len() > 0 {
        lemma_distinct_contains(s.drop_last(), v);
        let d = distinct_in_order(s.drop_last());
        if s.contains(v) && v != s.last() {
            let i = choose|i: int| 0 <= i < s.len() && s[i] == v;
            assert(s.drop_last()[i] == v);
        }
        if s.drop_last().contains(v) {
            let i = choose|i: int| 0 <= i < s.drop_last().len() && s.drop_last()[i] == v;
            assert(s[i] == v);
        }
        if !d.contains(s.last()) {
            assert(d.push(s.last())[d.len() as int] == s.last());
            if d.contains(v) {
                let i = choose|i: int| 0 <= i < d.len() && d[i] == v;
                assert(d.push(s.last())[i] == v);
            }
            if d.push(s.last()).contains(v) && v != s.last() {
                let i = choose|i: int| 0 <= i < d.len() + 1 && d.push(s.last())[i] == v;
                assert(d[i] == v);
            }
        }
        if v == s.last() {
            assert(s[s.len() - 1] == v);
        }
    }
}

proof fn lemma_distinct_no_duplicates(s: Seq<Seq<i32>>)
    ensures
        distinct_in_order(s).no_duplicates(),
    decreases s.len(),
{
    if s.len() > 0 {
        lemma_distinct_no_duplicates(s.drop_last());
    }
}

proof fn lemma_count_absent(s: Seq<Seq<i32>>, v: Seq<i32>)
    requires
        !s.contains(v),
    ensures
        count_of(s, v) == 0,
    decreases s.len(),
{
    if s.len() > 0 {
        assert(s[s.len() - 1] == s.last());
        if s.drop_last().contains(v) {
            let i = choose|i: int| 0 <= i < s.drop_last().len() && s.drop_last()[i] == v;
            assert(s[i] == v);
        }
        lemma_count_absent(s.drop_last(), v);
    }
}

proof fn lemma_count_bounded(s: Seq<Seq<i32>>, v: Seq<i32>)
    ensures
        count_of(s, v) <= s.len(),
    decreases s.len(),
{
    if s.len() > 0 {
        lemma_count_bounded(s.drop_last(), v);
    }
}

/// A row holds at most one usable window per column.
pub proof fn lemma_row_windows_len(g: MultiVec<i32>, y: int, n: nat)
    ensures
        row_windows(g, y, n).len() <= n,
    decreases n,
{
    if n > 0 {
        lemma_row_windows_len(g, y, (n - 1) as nat);
    }
}

/// The rows above row `m` hold at most `w - 1` usable windows each.
pub proof fn lemma_scan_windows_len(g: MultiVec<i32>, m: nat)
    requires
        g.w >= 1,
    ensures
        scan_windows(g, m).len() <= m * (g.w - 1),
    decreases m,
{
    if m > 0 {
        lemma_scan_windows_len(g, (m - 1) as nat);
        lemma_row_windows_len(g, m - 1, (g.w - 1) as nat);
        assert((m - 1) * (g.w - 1) + (g.w - 1) == m * (g.w - 1)) by (nonlinear_arith);
    }
}

/// Adding one more window to a catalog: count it if its definition is known,
/// otherwise append it as a new pattern.
fn record_window(patterns: &mut Vec<Pattern>, def: [i32; 4], Ghost(seen): Ghost<Seq<Seq<i32>>>)
    requires
        is_catalog_of(old(patterns)@, seen),
        seen.len() < usize::MAX,
    ensures
        is_catalog_of(final(patterns)@, seen.push(def@)),
{
    let ghost ws = seen.push(def@);
    proof {
        lemma_distinct_no_duplicates(seen);
        lemma_distinct_contains(seen, def@);
        assert(ws.drop_last() == seen);
        assert(ws.last() == def@);
    }
    let n = patterns.len();
    let mut j: usize = 0;
    while j < n
        invariant
            n == patterns.len(),
            j <= n,
            forall|k: int| 0 <= k < j ==> patterns@[k].flat_definition@ != def@,
        ensures
            j <= n,
            j < n ==> patterns@[j as int].flat_definition@ == def@,
            forall|k: int| 0 <= k < j ==> patterns@[k].flat_definition@ != def@,
        decreases n - j,
    {
        let p = patterns[j];
        if p.flat_definition[0] == def[0] && p.flat_definition[1] == def[1]
            && p.flat_definition[2] == def[2] && p.flat_definition[3] == def[3] {
            assert(p.flat_definition@ =~= def@);
            break;
        }
        proof {
            if p.flat_definition@ == def@ {
                assert(p.flat_definition@[0] == def@[0]);
            }
        }
        j += 1;
    }
    if j < n {
        let mut p = patterns[j];
        proof {
            assert(definitions(patterns@)[j as int] == def@);
            assert(distinct_in_order(seen).contains(def@));
            lemma_count_bounded(seen, def@);
        }
        p.occurrences = p.occurrences + 1;
        let ghost before = patterns@;
        patterns.set(j, p);
        proof {
            assert(definitions(patterns@) =~= definitions(before));
            assert(distinct_in_order(ws) == distinct_in_order(seen));
            assert forall|i: int| 0 <= i < patterns@.len() implies #[trigger] patterns@[i].occurrences
                == count_of(ws, patterns@[i].flat_definition@) by {
                assert(before[i].occurrences == count_of(seen, before[i].flat_definition@));
                if i != j {
                    assert(definitions(before)[i] != definitions(before)[j as int]);
                }
            }
        }
    } else {
        let ghost before = patterns@;
        proof {
            if distinct_in_order(seen).contains(def@) {
                let k = choose|k: int| 0 <= k < distinct_in_order(seen).len()
                    && distinct_in_order(seen)[k] == def@;
                assert(definitions(before)[k] == def@);
            }
            lemma_count_absent(seen, def@);
        }
        patterns.push(Pattern { flat_definition: def, occurrences: 1 });
        proof {
            assert(definitions(patterns@) =~= definitions(before).push(def@));
            assert forall|i: int| 0 <= i < patterns@.len() implies #[trigger] patterns@[i].occurrences
                == count_of(ws, patterns@[i].flat_definition@) by {
                if i < before.len() {
                    assert(before[i].occurrences == count_of(seen, before[i].flat_definition@));
                    assert(definitions(before)[i] == before[i].flat_definition@);
                    assert(distinct_in_order(seen).contains(before[i].flat_definition@));
                }
            }
        }
    }
}


/// The catalog of a training grid: its distinct usable windows of edge
/// length `pattern_size`, in order of first occurrence in a row-by-row scan,
/// each with its number of occurrences. A window that holds `EMPTY_TILE` is
/// skipped. Fails when no usable window exists.
pub fn slice_into_patterns(train_data: MultiVec<i32>, pattern_size: usize) -> (r: Result<
    Vec<Pattern>,
    GenerationError,
>)
    requires
        train_data.wf(),
        pattern_size == 2,
    ensures
        training_windows(train_data).len() == 0 <==> r == Err::<Vec<Pattern>, GenerationError>(
            GenerationError::MalformedTrainingData,
        ),
        r matches Err(e) ==> e == GenerationError::MalformedTrainingData,
        r.is_ok() ==> is_catalog_of(r.unwrap()@, training_windows(train_data)),
{
    let g = train_data;
    let w = g.w;
    let h = g.h;
    if w < pattern_size || h < pattern_size {
        return Err(GenerationError::MalformedTrainingData);
    }
    let mut patterns: Vec<Pattern> = Vec::new();
    let mut y: usize = 0;
    assert(definitions(patterns@) =~= distinct_in_order(scan_windows(g, 0)));
    while y < h - 1
        invariant
            g.wf(),
            w == g.w,
            h == g.h,
            w >= 2,
            h >= 2,
            y <= h - 1,
            is_catalog_of(patterns@, scan_windows(g, y as nat)),
        decreases h - 1 - y,
    {
        let mut x: usize = 0;
        while x < w - 1
            invariant
                g.wf(),
                w == g.w,
                h == g.h,
                w >= 2,
                h >= 2,
                y < h - 1,
                x <= w - 1,
                is_catalog_of(patterns@, scan_windows(g, y as nat) + row_windows(g, y as int, x as nat)),
            decreases w - 1 - x,
        {
            proof {
                lemma_flat_index_in_bounds(x as int, y as int, w as int, h as int);
                lemma_flat_index_in_bounds(x + 1, y as int, w as int, h as int);
                lemma_flat_index_in_bounds(x as int, y + 1, w as int, h as int);
                lemma_flat_index_in_bounds(x + 1, y + 1, w as int, h as int);
            }
            let def: [i32; 4] = [
                g.data[x + y * w],
                g.data[(x + 1) + y * w],
                g.data[x + (y + 1) * w],
                g.data[(x + 1) + (y + 1) * w],
            ];
            let ghost seen = scan_windows(g, y as nat) + row_windows(g, y as int, x as nat);
            assert(def@ =~= window(g, x as int, y as int));
            if def[0] != EMPTY_TILE && def[1] != EMPTY_TILE && def[2] != EMPTY_TILE && def[3]
                != EMPTY_TILE {
                proof {
                    lemma_scan_windows_len(g, y as nat);
                    lemma_row_windows_len(g, y as int, x as nat);
                    assert(y * (w - 1) + x < w * h) by (nonlinear_arith)
                        requires y < h - 1, x < w - 1, w >= 2;
                    assert(usable(def@));
                }
                record_window(&mut patterns, def, Ghost(seen));
                assert(seen.push(def@) =~= scan_windows(g, y as nat) + row_windows(g, y as int, (x + 1) as nat));
            } else {
                proof {
                    assert(!usable(def@)) by {
                        if def[0] == EMPTY_TILE { assert(def@[0] == EMPTY_TILE); }
                        if def[1] == EMPTY_TILE { assert(def@[1] == EMPTY_TILE); }
                        if def[2] == EMPTY_TILE { assert(def@[2] == EMPTY_TILE); }
                        if def[3] == EMPTY_TILE { assert(def@[3] == EMPTY_TILE); }
                    }
                }
                assert(seen =~= scan_windows(g, y as nat) + row_windows(g, y as int, (x + 1) as nat));
            }
            x += 1;
        }
        assert(scan_windows(g, (y + 1) as nat) =~= scan_windows(g, y as nat) + row_windows(g, y as int, (w - 1) as nat));
        y += 1;
    }
    if patterns.len() == 0 {
        proof {
            assert(distinct_in_order(training_windows(g)).len() == 0);
            if training_windows(g).len() > 0 {
                lemma_distinct_contains(training_windows(g), training_windows(g)[0]);
                assert(training_windows(g).contains(training_windows(g)[0]));
            }
        }
        return Err(GenerationError::MalformedTrainingData);
    }
    proof {
        assert(distinct_in_order(training_windows(g)).len() > 0);
        if training_windows(g).len() == 0 {
            assert(distinct_in_order(training_windows(g)) =~= Seq::<Seq<i32>>::empty());
        }
    }
    Ok(patterns)
}


/// The occurrences in `ws` of each value of `ds`, summed.
pub open spec fn sum_counts(ws: Seq<Seq<i32>>, ds: Seq<Seq<i32>>) -> nat
    decreases ds.len(),
{
    if ds.len() == 0 {
        0
    } else {
        sum_counts(ws, ds.drop_last()) + count_of(ws, ds.last())
    }
}

proof fn lemma_count_present(s: Seq<Seq<i32>>, v: Seq<i32>)
    requires
        s.contains(v),
    ensures
        count_of(s, v) >= 1,
    decreases s.len(),
{
    if s.last() != v {
        let i = choose|i: int| 0 <= i < s.len() && s[i] == v;
        assert(s.drop_last()[i] == v);
        lemma_count_present(s.drop_last(), v);
    }
}

proof fn lemma_count_unique(ds: Seq<Seq<i32>>, v: Seq<i32>)
    requires
        ds.no_duplicates(),
        ds.contains(v),
    ensures
        count_of(ds, v) == 1,
    decreases ds.len(),
{
    let rest = ds.drop_last();
    if ds.last() == v {
        if rest.contains(v) {
            let i = choose|i: int| 0 <= i < rest.len() && rest[i] == v;
            assert(ds[i] == ds[ds.len() - 1]);
        }
        lemma_count_absent(rest, v);
    } else {
        let i = choose|i: int| 0 <= i < ds.len() && ds[i] == v;
        assert(rest[i] == v);
        lemma_count_unique(rest, v);
    }
}

proof fn lemma_sum_counts_push(ws: Seq<Seq<i32>>, w: Seq<i32>, ds: Seq<Seq<i32>>)
    ensures
        sum_counts(ws.push(w), ds) == sum_counts(ws, ds) + count_of(ds, w),
    decreases ds.len(),
{
    if ds.len() > 0 {
        lemma_sum_counts_push(ws, w, ds.drop_last());
        assert(ws.push(w).drop_last() == ws);
    }
}

proof fn lemma_sum_counts_all(ws: Seq<Seq<i32>>, ds: Seq<Seq<i32>>)
    requires
        ds.no_duplicates(),
        forall|k: int| 0 <= k < ws.len() ==> ds.contains(#[trigger] ws[k]),
    ensures
        sum_counts(ws, ds) == ws.len(),
    decreases ws.len(),
{
    if ws.len() == 0 {
        lemma_sum_counts_zero(ws, ds);
    } else {
        let rest = ws.drop_last();
        assert forall|k: int| 0 <= k < rest.len() implies ds.contains(#[trigger] rest[k]) by {
            assert(rest[k] == ws[k]);
        }
        lemma_sum_counts_all(rest, ds);
        assert(ws == rest.push(ws.last()));
        lemma_sum_counts_push(rest, ws.last(), ds);
        assert(ds.contains(ws[ws.len() - 1]));
        lemma_count_unique(ds, ws.last());
    }
}

proof fn lemma_sum_counts_zero(ws: Seq<Seq<i32>>, ds: Seq<Seq<i32>>)
    requires
        ws.len() == 0,
    ensures
        sum_counts(ws, ds) == 0,
    decreases ds.len(),
{
    if ds.len() > 0 {
        lemma_sum_counts_zero(ws, ds.drop_last());
    }
}

proof fn lemma_total_is_sum_counts(ps: Seq<Pattern>, ws: Seq<Seq<i32>>)
    requires
        forall|i: int|
            0 <= i < ps.len() ==> #[trigger] ps[i].occurrences == count_of(ws, ps[i].flat_definition@),
    ensures
        total_occurrences(ps) == sum_counts(ws, definitions(ps)),
    decreases ps.len(),
{
    if ps.len() > 0 {
        let rest = ps.drop_last();
        assert forall|i: int| 0 <= i < rest.len() implies #[trigger] rest[i].occurrences == count_of(
            ws,
            rest[i].flat_definition@,
        ) by {
            assert(rest[i] == ps[i]);
        }
        lemma_total_is_sum_counts(rest, ws);
        assert(definitions(ps).drop_last() =~= definitions(rest));
        assert(ps[ps.len() - 1] == ps.last());
    }
}

/// A catalog lists each definition once, every pattern occurs at least once,
/// and the occurrences add up to the number of usable windows, so the
/// probabilities `occurrences / total` sum to exactly one.
pub proof fn lemma_catalog_invariant(g: MultiVec<i32>, ps: Seq<Pattern>)
    requires
        is_catalog_of(ps, training_windows(g)),
    ensures
        definitions(ps).no_duplicates(),
        forall|i: int| 0 <= i < ps.len() ==> #[trigger] ps[i].occurrences >= 1,
        total_occurrences(ps) == training_windows(g).len(),
{
    let ws = training_windows(g);
    lemma_distinct_no_duplicates(ws);
    assert forall|i: int| 0 <= i < ps.len() implies #[trigger] ps[i].occurrences >= 1 by {
        assert(definitions(ps)[i] == ps[i].flat_definition@);
        assert(distinct_in_order(ws).contains(ps[i].flat_definition@));
        lemma_distinct_contains(ws, ps[i].flat_definition@);
        lemma_count_present(ws, ps[i].flat_definition@);
    }
    assert forall|k: int| 0 <= k < ws.len() implies definitions(ps).contains(#[trigger] ws[k]) by {
        lemma_distinct_contains(ws, ws[k]);
    }
    lemma_sum_counts_all(ws, definitions(ps));
    lemma_total_is_sum_counts(ps, ws);
}


proof fn lemma_row_windows_usable(g: MultiVec<i32>, y: int, n: nat)
    ensures
        forall|j: int| 0 <= j < row_windows(g, y, n).len() ==> usable(#[trigger] row_windows(g, y, n)[j]),
    decreases n,
{
    if n > 0 {
        lemma_row_windows_usable(g, y, (n - 1) as nat);
        let prev = row_windows(g, y, (n - 1) as nat);
        let w = window(g, n - 1, y);
        if usable(w) {
            assert forall|j: int| 0 <= j < prev.push(w).len() implies usable(#[trigger] prev.push(w)[j]) by {
                if j < prev.len() {
                    assert(prev.push(w)[j] == prev[j]);
                }
            }
        }
    }
}

proof fn lemma_scan_windows_usable(g: MultiVec<i32>, m: nat)
    ensures
        forall|j: int| 0 <= j < scan_windows(g, m).len() ==> usable(#[trigger] scan_windows(g, m)[j]),
    decreases m,
{
    if m > 0 {
        lemma_scan_windows_usable(g, (m - 1) as nat);
        lemma_row_windows_usable(g, m - 1, (g.w - 1) as nat);
        let a = scan_windows(g, (m - 1) as nat);
        let b = row_windows(g, m - 1, (g.w - 1) as nat);
        assert forall|j: int| 0 <= j < (a + b).len() implies usable(#[trigger] (a + b)[j]) by {
            if j < a.len() {
                assert((a + b)[j] == a[j]);
            } else {
                assert((a + b)[j] == b[j - a.len()]);
            }
        }
    }
}

/// No pattern of a catalog holds the empty tile.
pub proof fn lemma_catalog_usable(g: MultiVec<i32>, ps: Seq<Pattern>)
    requires
        is_catalog_of(ps, training_windows(g)),
    ensures
        forall|p: int, k: int| 0 <= p < ps.len() && 0 <= k < 4 ==> #[trigger] definitions(ps)[p][k] != EMPTY_TILE,
{
    let ws = training_windows(g);
    if g.w >= 2 && g.h >= 2 {
        lemma_scan_windows_usable(g, (g.h - 1) as nat);
    }
    assert forall|p: int, k: int| 0 <= p < ps.len() && 0 <= k < 4 implies #[trigger] definitions(ps)[p][k] != EMPTY_TILE by {
        let d = definitions(ps)[p];
        assert(distinct_in_order(ws).contains(d));
        lemma_distinct_contains(ws, d);
        let j = choose|j: int| 0 <= j < ws.len() && ws[j] == d;
        assert(usable(ws[j]));
        assert(d.len() == 4);
    }
}

/// No more distinct values than values.
pub proof fn lemma_distinct_len(s: Seq<Seq<i32>>)
    ensures
        distinct_in_order(s).len() <= s.len(),
    decreases s.len(),
{
    if s.len() > 0 {
        lemma_distinct_len(s.drop_last());
    }
}

} // verus!
