//! The model of a partition plan: how the columns of a grid are dealt out to
//! a fixed number of workers, and why the workers' slices, laid side by side,
//! are the next generation.

use crate::rules::{is_grid, next_column, step};
use std::ops::Range;
use vstd::prelude::*;

verus! {

/// The number of columns that every worker but the last is given.
pub open spec fn slice_size(width: nat, workers: nat) -> nat {
    width / workers
}

/// The first column of worker `i`.
pub open spec fn range_start(width: nat, workers: nat, i: nat) -> nat {
    i * slice_size(width, workers)
}

/// The column after the last one of worker `i`. The last worker takes what
/// the division left over, up to the last column of the grid.
pub open spec fn range_end(width: nat, workers: nat, i: nat) -> nat {
    if i + 1 == workers {
        width
    } else {
        (i + 1) * slice_size(width, workers)
    }
}

/// `ranges` is the plan for `workers` workers over `width` columns.
pub open spec fn is_plan(ranges: Seq<Range<usize>>, width: nat, workers: nat) -> bool {
    &&& ranges.len() == workers
    &&& forall|i: int|
        0 <= i < workers ==> (#[trigger] ranges[i]).start == range_start(width, workers, i as nat)
            && ranges[i].end == range_end(width, workers, i as nat)
}

/// `ranges` cuts the columns `0 .. width` into consecutive half-open pieces:
/// the first starts at 0, each starts where the one before ended, and the last
/// ends at `width`. A piece may be empty.
pub open spec fn is_partition(ranges: Seq<Range<usize>>, width: nat) -> bool {
    &&& ranges.len() >= 1
    &&& ranges[0].start == 0
    &&& ranges[ranges.len() - 1].end == width
    &&& forall|i: int| 0 <= i < ranges.len() ==> (#[trigger] ranges[i]).start <= ranges[i].end
    &&& forall|i: int, j: int|
        0 <= i < ranges.len() && j == i + 1 && j < ranges.len() ==> (#[trigger] ranges[i]).end == (
        #[trigger] ranges[j]).start
}

/// Whether column `c` belongs to the range.
pub open spec fn covers(range: Range<usize>, c: int) -> bool {
    range.start <= c < range.end
}

/// As many slices as there are workers, or fewer, fit into the width, and
/// each slice starts where the one before it ends.
pub proof fn lemma_slices_fit(width: nat, workers: nat, i: nat)
    requires
        workers >= 1,
        i <= workers,
    ensures
        range_start(width, workers, i) <= width,
        range_start(width, workers, i) + slice_size(width, workers) == range_start(
            width,
            workers,
            i + 1,
        ),
{
    let s = width / workers;
    assert(workers * s <= width) by (nonlinear_arith)
        requires
            workers >= 1,
            s == width / workers,
    ;
    assert(i * s <= workers * s) by (nonlinear_arith)
        requires
            i <= workers,
            s >= 0,
    ;
    assert(i * s + s == (i + 1) * s) by (nonlinear_arith);
}

/// The plan for any number of workers over any width is a partition of the
/// columns `0 .. width`, also where there are more workers than columns.
pub proof fn lemma_plan_is_partition(ranges: Seq<Range<usize>>, width: nat, workers: nat)
    requires
        workers >= 1,
        is_plan(ranges, width, workers),
    ensures
        is_partition(ranges, width),
{
    let s = slice_size(width, workers);
    assert(0 * s == 0) by (nonlinear_arith);
    assert forall|i: int| 0 <= i < ranges.len() implies (#[trigger] ranges[i]).start
        <= ranges[i].end by {
        lemma_slices_fit(width, workers, i as nat);
    }
}

/// In a partition a range ends no later than any range after it starts.
pub proof fn lemma_partition_is_ordered(ranges: Seq<Range<usize>>, width: nat, i: int, j: int)
    requires
        is_partition(ranges, width),
        0 <= i < j < ranges.len(),
    ensures
        ranges[i].end <= ranges[j].start,
    decreases j - i,
{
    if i + 1 < j {
        lemma_partition_is_ordered(ranges, width, i, j - 1);
        assert(ranges[j - 1].start <= ranges[j - 1].end);
        assert(ranges[j - 1].end == ranges[j].start);
    } else {
        assert(ranges[i].end == ranges[j].start);
    }
}

/// No range of a partition reaches beyond the last column.
pub proof fn lemma_partition_is_bounded(ranges: Seq<Range<usize>>, width: nat, i: int)
    requires
        is_partition(ranges, width),
        0 <= i < ranges.len(),
    ensures
        ranges[i].start <= ranges[i].end <= width,
{
    let last = ranges.len() - 1;
    assert(ranges[last].start <= ranges[last].end);
    if i < last {
        lemma_partition_is_ordered(ranges, width, i, last);
    }
}

/// Two different ranges of a partition share no column.
pub proof fn lemma_partition_is_disjoint(
    ranges: Seq<Range<usize>>,
    width: nat,
    i: int,
    j: int,
    c: int,
)
    requires
        is_partition(ranges, width),
        0 <= i < ranges.len(),
        0 <= j < ranges.len(),
        covers(ranges[i], c),
        covers(ranges[j], c),
    ensures
        i == j,
{
    if i < j {
        lemma_partition_is_ordered(ranges, width, i, j);
    } else if j < i {
        lemma_partition_is_ordered(ranges, width, j, i);
    }
}

/// Some range among the first `n` of a partition covers column `c`, if `c`
/// lies before the end of the `n`-th.
proof fn lemma_prefix_covers(ranges: Seq<Range<usize>>, width: nat, n: int, c: int) -> (i: int)
    requires
        is_partition(ranges, width),
        1 <= n <= ranges.len(),
        0 <= c < ranges[n - 1].end,
    ensures
        0 <= i < n,
        covers(ranges[i], c),
    decreases n,
{
    if ranges[n - 1].start <= c {
        n - 1
    } else {
        assert(ranges[n - 2].end == ranges[n - 1].start);
        lemma_prefix_covers(ranges, width, n - 1, c)
    }
}

/// Every column of the grid belongs to exactly one range of a partition: the
/// ranges leave no gap and do not overlap.
pub proof fn lemma_partition_covers_each_column_once(
    ranges: Seq<Range<usize>>,
    width: nat,
    c: int,
) -> (i: int)
    requires
        is_partition(ranges, width),
        0 <= c < width,
    ensures
        0 <= i < ranges.len(),
        covers(ranges[i], c),
        forall|j: int| 0 <= j < ranges.len() && covers(#[trigger] ranges[j], c) ==> j == i,
{
    let i = lemma_prefix_covers(ranges, width, ranges.len() as int, c);
    assert forall|j: int| 0 <= j < ranges.len() && covers(#[trigger] ranges[j], c) implies j
        == i by {
        lemma_partition_is_disjoint(ranges, width, i, j, c);
    }
    i
}

/// A column outside the grid belongs to no range of a partition.
pub proof fn lemma_partition_covers_nothing_else(
    ranges: Seq<Range<usize>>,
    width: nat,
    i: int,
    c: int,
)
    requires
        is_partition(ranges, width),
        0 <= i < ranges.len(),
        covers(ranges[i], c),
    ensures
        0 <= c < width,
{
    lemma_partition_is_bounded(ranges, width, i);
}

/// What one worker computes: the columns `start .. end` of the next
/// generation of `g`.
pub open spec fn step_slice(g: Seq<Seq<bool>>, start: int, end: int) -> Seq<Seq<bool>> {
    Seq::new((end - start) as nat, |k: int| next_column(g, start + k))
}

/// The slices of the first `n` workers, laid side by side in range order.
pub open spec fn joined_slices(g: Seq<Seq<bool>>, ranges: Seq<Range<usize>>, n: nat) -> Seq<
    Seq<bool>,
>
    decreases n,
{
    if n == 0 {
        Seq::empty()
    } else {
        joined_slices(g, ranges, (n - 1) as nat) + step_slice(
            g,
            ranges[n - 1].start as int,
            ranges[n - 1].end as int,
        )
    }
}

/// One generation computed partition by partition.
pub open spec fn partitioned_step(g: Seq<Seq<bool>>, ranges: Seq<Range<usize>>) -> Seq<Seq<bool>> {
    joined_slices(g, ranges, ranges.len())
}

/// The generation `k` steps after `g`, each step computed partition by
/// partition.
pub open spec fn partitioned_generation_after(
    g: Seq<Seq<bool>>,
    ranges: Seq<Range<usize>>,
    k: nat,
) -> Seq<Seq<bool>>
    decreases k,
{
    if k == 0 {
        g
    } else {
        partitioned_step(partitioned_generation_after(g, ranges, (k - 1) as nat), ranges)
    }
}

proof fn lemma_joined_prefix(g: Seq<Seq<bool>>, ranges: Seq<Range<usize>>, n: nat)
    requires
        is_partition(ranges, g.len()),
        1 <= n <= ranges.len(),
    ensures
        joined_slices(g, ranges, n) == step(g).subrange(0, ranges[n - 1].end as int),
    decreases n,
{
    let i = n - 1;
    lemma_partition_is_bounded(ranges, g.len(), i);
    let slice = step_slice(g, ranges[i].start as int, ranges[i].end as int);
    assert(slice =~= step(g).subrange(ranges[i].start as int, ranges[i].end as int));
    if n == 1 {
        assert(joined_slices(g, ranges, 0) =~= Seq::<Seq<bool>>::empty());
        assert(joined_slices(g, ranges, 1) =~= step(g).subrange(0, ranges[0].end as int));
    } else {
        lemma_joined_prefix(g, ranges, (n - 1) as nat);
        assert(ranges[i - 1].end == ranges[i].start);
        assert(joined_slices(g, ranges, n) =~= step(g).subrange(0, ranges[i].end as int));
    }
}

/// The workers' slices, laid side by side in range order, are the next
/// generation: computing a step partition by partition gives what computing
/// it in one piece gives.
pub proof fn lemma_partitioned_step_is_step(g: Seq<Seq<bool>>, ranges: Seq<Range<usize>>)
    requires
        is_partition(ranges, g.len()),
    ensures
        partitioned_step(g, ranges) == step(g),
{
    lemma_joined_prefix(g, ranges, ranges.len());
    assert(step(g).subrange(0, g.len() as int) =~= step(g));
}

/// For one starting grid, `k` steps computed partition by partition, with
/// any partition of its columns, give the grid that `k` steps computed in one
/// piece give.
pub proof fn lemma_partitioned_generations_are_generations(
    g: Seq<Seq<bool>>,
    ranges: Seq<Range<usize>>,
    k: nat,
)
    requires
        is_grid(g),
        is_partition(ranges, g.len()),
    ensures
        partitioned_generation_after(g, ranges, k) == crate::rules::generation_after(g, k),
    decreases k,
{
    if k > 0 {
        lemma_partitioned_generations_are_generations(g, ranges, (k - 1) as nat);
        crate::rules::lemma_steps_keep_shape(g, (k - 1) as nat);
        lemma_partitioned_step_is_step(crate::rules::generation_after(g, (k - 1) as nat), ranges);
    }
}

/// For one starting grid and any number of workers, also more than the grid
/// has columns, `k` steps computed partition by partition under the plan for
/// that many workers give the grid that `k` steps computed in one piece give.
pub proof fn lemma_engines_agree(
    g: Seq<Seq<bool>>,
    workers: nat,
    ranges: Seq<Range<usize>>,
    k: nat,
)
    requires
        is_grid(g),
        workers >= 1,
        is_plan(ranges, g.len(), workers),
    ensures
        partitioned_generation_after(g, ranges, k) == crate::rules::generation_after(g, k),
{
    lemma_plan_is_partition(ranges, g.len(), workers);
    lemma_partitioned_generations_are_generations(g, ranges, k);
}

/// Whether a worker's delivery has the shape that its range asks for: the
/// worker exists, the slice has one column for each column of the range, and
/// every column has the height of the grid.
pub open spec fn delivery_fits(
    slice: Seq<Seq<bool>>,
    worker: int,
    ranges: Seq<Range<usize>>,
    height: nat,
) -> bool {
    &&& 0 <= worker < ranges.len()
    &&& slice.len() == ranges[worker].end - ranges[worker].start
    &&& forall|k: int| 0 <= k < slice.len() ==> (#[trigger] slice[k]).len() == height
}

/// Whether worker `i` is among those that delivered.
pub open spec fn delivered(deliveries: Seq<(Seq<Seq<bool>>, int)>, i: int) -> bool {
    exists|j: int| 0 <= j < deliveries.len() && (#[trigger] deliveries[j]).1 == i
}

/// Whether the deliveries, in whatever order they came, are one of the right
/// shape from every worker of the plan, and none twice.
pub open spec fn deliveries_fit(
    deliveries: Seq<(Seq<Seq<bool>>, int)>,
    ranges: Seq<Range<usize>>,
    height: nat,
) -> bool {
    &&& forall|j: int|
        0 <= j < deliveries.len() ==> delivery_fits(
            (#[trigger] deliveries[j]).0,
            deliveries[j].1,
            ranges,
            height,
        )
    &&& forall|j1: int, j2: int|
        0 <= j1 < j2 < deliveries.len() ==> (#[trigger] deliveries[j1]).1 != (
        #[trigger] deliveries[j2]).1
    &&& forall|i: int| 0 <= i < ranges.len() ==> #[trigger] delivered(deliveries, i)
}

/// Whether `next` holds every delivered slice at the columns of the range of
/// the worker that delivered it.
pub open spec fn holds_deliveries(
    next: Seq<Seq<bool>>,
    deliveries: Seq<(Seq<Seq<bool>>, int)>,
    ranges: Seq<Range<usize>>,
) -> bool {
    forall|j: int, k: int|
        0 <= j < deliveries.len() && 0 <= k < deliveries[j].0.len() ==> next[ranges[deliveries[j].1].start
            + k] == #[trigger] deliveries[j].0[k]
}

/// Whether every delivery is what its worker computes from `g`: the columns
/// of its range in the next generation.
pub open spec fn deliveries_are_slices(
    deliveries: Seq<(Seq<Seq<bool>>, int)>,
    g: Seq<Seq<bool>>,
    ranges: Seq<Range<usize>>,
) -> bool {
    forall|j: int|
        0 <= j < deliveries.len() ==> (#[trigger] deliveries[j]).0 == step_slice(
            g,
            ranges[deliveries[j].1].start as int,
            ranges[deliveries[j].1].end as int,
        )
}

/// Every column of an assembled grid is a delivered column: the one that the
/// worker of its range delivered for it.
pub proof fn lemma_column_was_delivered(
    next: Seq<Seq<bool>>,
    deliveries: Seq<(Seq<Seq<bool>>, int)>,
    ranges: Seq<Range<usize>>,
    height: nat,
    c: int,
) -> (jk: (int, int))
    requires
        is_partition(ranges, next.len()),
        deliveries_fit(deliveries, ranges, height),
        holds_deliveries(next, deliveries, ranges),
        0 <= c < next.len(),
    ensures
        0 <= jk.0 < deliveries.len(),
        0 <= deliveries[jk.0].1 < ranges.len(),
        covers(ranges[deliveries[jk.0].1], c),
        jk.1 == c - ranges[deliveries[jk.0].1].start,
        0 <= jk.1 < deliveries[jk.0].0.len(),
        next[c] == deliveries[jk.0].0[jk.1],
        next[c].len() == height,
{
    let i = lemma_partition_covers_each_column_once(ranges, next.len(), c);
    assert(delivered(deliveries, i));
    let j = choose|j: int| 0 <= j < deliveries.len() && (#[trigger] deliveries[j]).1 == i;
    assert(delivery_fits(deliveries[j].0, deliveries[j].1, ranges, height));
    let k = c - ranges[i].start;
    assert(next[ranges[deliveries[j].1].start + k] == deliveries[j].0[k]);
    (j, k)
}

/// The grid that a set of deliveries assembles to does not depend on the
/// order in which the deliveries came: two grids of the same width that hold
/// the same deliveries are the same grid.
pub proof fn lemma_assembly_is_unique(
    a: Seq<Seq<bool>>,
    b: Seq<Seq<bool>>,
    deliveries: Seq<(Seq<Seq<bool>>, int)>,
    ranges: Seq<Range<usize>>,
    height: nat,
)
    requires
        a.len() == b.len(),
        is_partition(ranges, a.len()),
        deliveries_fit(deliveries, ranges, height),
        holds_deliveries(a, deliveries, ranges),
        holds_deliveries(b, deliveries, ranges),
    ensures
        a == b,
{
    assert forall|c: int| 0 <= c < a.len() implies a[c] == b[c] by {
        let jk = lemma_column_was_delivered(a, deliveries, ranges, height, c);
        assert(b[ranges[deliveries[jk.0].1].start + jk.1] == deliveries[jk.0].0[jk.1]);
    }
    assert(a =~= b);
}

/// Where every worker delivers the slice it computes from `g`, the grid
/// assembled from the deliveries is the next generation of `g`, in whatever
/// order the deliveries came.
pub proof fn lemma_deliveries_assemble_step(
    g: Seq<Seq<bool>>,
    next: Seq<Seq<bool>>,
    deliveries: Seq<(Seq<Seq<bool>>, int)>,
    ranges: Seq<Range<usize>>,
)
    requires
        is_grid(g),
        next.len() == g.len(),
        is_partition(ranges, g.len()),
        deliveries_fit(deliveries, ranges, g[0].len()),
        deliveries_are_slices(deliveries, g, ranges),
        holds_deliveries(next, deliveries, ranges),
    ensures
        next == step(g),
{
    assert forall|c: int| 0 <= c < next.len() implies next[c] == step(g)[c] by {
        let jk = lemma_column_was_delivered(next, deliveries, ranges, g[0].len(), c);
        let i = deliveries[jk.0].1;
        assert(deliveries[jk.0].0 == step_slice(g, ranges[i].start as int, ranges[i].end as int));
    }
    assert(next =~= step(g));
}

/// The slice that worker `i` delivered.
pub open spec fn slice_from(deliveries: Seq<(Seq<Seq<bool>>, int)>, i: int) -> Seq<Seq<bool>> {
    deliveries[choose|j: int| 0 <= j < deliveries.len() && (#[trigger] deliveries[j]).1 == i].0
}

/// The delivered slices of the first `n` workers, laid side by side in range
/// order, whatever the order in which they came.
pub open spec fn slices_in_range_order(deliveries: Seq<(Seq<Seq<bool>>, int)>, n: nat) -> Seq<
    Seq<bool>,
>
    decreases n,
{
    if n == 0 {
        Seq::empty()
    } else {
        slices_in_range_order(deliveries, (n - 1) as nat) + slice_from(deliveries, n - 1)
    }
}

proof fn lemma_assembly_prefix(
    next: Seq<Seq<bool>>,
    deliveries: Seq<(Seq<Seq<bool>>, int)>,
    ranges: Seq<Range<usize>>,
    height: nat,
    n: nat,
)
    requires
        is_partition(ranges, next.len()),
        deliveries_fit(deliveries, ranges, height),
        holds_deliveries(next, deliveries, ranges),
        1 <= n <= ranges.len(),
    ensures
        slices_in_range_order(deliveries, n) == next.subrange(0, ranges[n - 1].end as int),
    decreases n,
{
    let i = n - 1;
    lemma_partition_is_bounded(ranges, next.len(), i);
    assert(delivered(deliveries, i));
    let j = choose|j: int| 0 <= j < deliveries.len() && (#[trigger] deliveries[j]).1 == i;
    assert(delivery_fits(deliveries[j].0, deliveries[j].1, ranges, height));
    let slice = slice_from(deliveries, i);
    assert(slice =~= next.subrange(ranges[i].start as int, ranges[i].end as int)) by {
        assert forall|k: int| 0 <= k < slice.len() implies slice[k] == next[ranges[i].start
            + k] by {
            assert(next[ranges[deliveries[j].1].start + k] == deliveries[j].0[k]);
        }
    }
    if n == 1 {
        assert(slices_in_range_order(deliveries, 0) =~= Seq::<Seq<bool>>::empty());
        assert(slices_in_range_order(deliveries, 1) =~= next.subrange(0, ranges[0].end as int));
    } else {
        lemma_assembly_prefix(next, deliveries, ranges, height, (n - 1) as nat);
        assert(ranges[i - 1].end == ranges[i].start);
        assert(slices_in_range_order(deliveries, n) =~= next.subrange(0, ranges[i].end as int));
    }
}

/// The grid assembled from fitting deliveries is the delivered slices laid
/// side by side in range order, without a gap.
pub proof fn lemma_assembly_is_in_range_order(
    next: Seq<Seq<bool>>,
    deliveries: Seq<(Seq<Seq<bool>>, int)>,
    ranges: Seq<Range<usize>>,
    height: nat,
)
    requires
        is_partition(ranges, next.len()),
        deliveries_fit(deliveries, ranges, height),
        holds_deliveries(next, deliveries, ranges),
    ensures
        next == slices_in_range_order(deliveries, ranges.len()),
{
    lemma_assembly_prefix(next, deliveries, ranges, height, ranges.len());
    assert(next.subrange(0, next.len() as int) =~= next);
}

} // verus!
