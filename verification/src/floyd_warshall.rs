//! All-pairs shortest paths over a square distance matrix.
//!
//! The matrix is relaxed in place, one intermediate vertex per phase. The
//! value of every entry after every phase is given by [`relaxed`], and the
//! metric laws of the final matrix are proved from that definition.

use crate::segment::Segment;
use vstd::prelude::*;

verus! {

/// The entry that stands for "no path": a third of the largest `i32`, so that
/// the sum of two such entries still fits.
pub const UNREACHABLE: i32 = 715_827_882;

/// The leading square block of a stored matrix, as mathematical integers.
pub open spec fn block(rows: Seq<Vec<i32>>) -> Seq<Seq<int>> {
    Seq::new(rows.len(), |i: int| Seq::new(rows.len(), |j: int| rows[i]@[j] as int))
}

/// Every row holds at least as many entries as there are rows.
pub open spec fn wide(rows: Seq<Vec<i32>>) -> bool {
    forall|r: int| 0 <= r < rows.len() ==> (#[trigger] rows[r]).len() >= rows.len()
}

/// The distance from `i` to `j` once the vertices below `m` have served as
/// intermediate stops. In phase `via` the row of `via` itself is left alone.
pub open spec fn relaxed(d: Seq<Seq<int>>, m: nat, i: int, j: int) -> int
    decreases m,
{
    if m == 0 {
        d[i][j]
    } else {
        let via = m - 1;
        let direct = relaxed(d, (m - 1) as nat, i, j);
        if i == via {
            direct
        } else {
            let around = relaxed(d, (m - 1) as nat, i, via) + relaxed(d, (m - 1) as nat, via, j);
            if around < direct {
                around
            } else {
                direct
            }
        }
    }
}

/// The length of the way from `i` to `j` through vertex `m`, measured before
/// phase `m` runs.
pub open spec fn detour(d: Seq<Seq<int>>, m: nat, i: int, j: int) -> int {
    relaxed(d, m, i, m as int) + relaxed(d, m, m as int, j)
}

/// `v` is representable as an `i32`.
pub open spec fn fits(v: int) -> bool {
    i32::MIN <= v <= i32::MAX
}

/// Every sum that the relaxation of `d` forms is representable as an `i32`.
pub open spec fn relaxations_fit(d: Seq<Seq<int>>) -> bool {
    forall|m: nat, i: int, j: int|
        m < d.len() && 0 <= i < d.len() && 0 <= j < d.len() && i != m ==> fits(
            #[trigger] detour(d, m, i, j),
        )
}

/// `after` holds the fully relaxed block of `before`, and what lies right of
/// the block is untouched.
pub open spec fn settled(before: Seq<Vec<i32>>, after: Seq<Vec<i32>>) -> bool {
    &&& same_shape(before, after)
    &&& forall|i: int, j: int|
        0 <= i < before.len() && 0 <= j < before.len() ==> #[trigger] after[i]@[j] == relaxed(
            block(before),
            before.len(),
            i,
            j,
        )
    &&& forall|i: int, j: int|
        0 <= i < before.len() && before.len() <= j < before[i].len() ==> #[trigger] after[i]@[j]
            == before[i]@[j]
}

/// Both matrices have the same number of rows, and row by row the same length.
pub open spec fn same_shape(before: Seq<Vec<i32>>, after: Seq<Vec<i32>>) -> bool {
    &&& after.len() == before.len()
    &&& forall|r: int| 0 <= r < before.len() ==> (#[trigger] after[r]).len() == before[r].len()
}

/// One row after relaxing it through the row `through`, whose entry in this
/// row's column is `hop`. `None` as soon as a sum leaves the `i32` range.
fn relax_row(row: &Vec<i32>, through: &Vec<i32>, hop: i32, n: usize) -> (out: Option<Vec<i32>>)
    requires
        row.len() >= n,
        through.len() >= n,
    ensures
        match out {
            Some(v) => {
                &&& v.len() == row.len()
                &&& forall|k: int| 0 <= k < n ==> fits(hop + #[trigger] through[k])
                &&& forall|k: int|
                    0 <= k < n ==> #[trigger] v[k] == if hop + through[k] < row[k] {
                        hop + through[k]
                    } else {
                        row[k] as int
                    }
                &&& forall|k: int| n <= k < row.len() ==> #[trigger] v[k] == row[k]
            },
            None => exists|k: int| 0 <= k < n && !fits(hop + #[trigger] through[k]),
        },
{
    let mut v: Vec<i32> = Vec::new();
    let mut k: usize = 0;
    while k < row.len()
        invariant
            row.len() >= n,
            through.len() >= n,
            k <= row.len(),
            v.len() == k,
            forall|c: int| 0 <= c < k && c < n ==> fits(hop + #[trigger] through[c]),
            forall|c: int|
                0 <= c < k && c < n ==> #[trigger] v[c] == if hop + through[c] < row[c] {
                    hop + through[c]
                } else {
                    row[c] as int
                },
            forall|c: int| n <= c < k ==> #[trigger] v[c] == row[c],
        decreases row.len() - k,
    {
        if k < n {
            let sum: i64 = hop as i64 + through[k] as i64;
            if sum < i32::MIN as i64 || sum > i32::MAX as i64 {
                assert(!fits(hop + through[k as int]));
                return None;
            }
            let around: i32 = sum as i32;
            if around < row[k] {
                v.push(around);
            } else {
                v.push(row[k]);
            }
        } else {
            v.push(row[k]);
        }
        k = k + 1;
    }
    Some(v)
}

/// Relaxes the matrix in place through every vertex in turn and reports
/// whether every sum stayed within the `i32` range. When one does not, the
/// work stops there.
pub(crate) fn relax_all(dist: &mut Vec<Vec<i32>>) -> (done: bool)
    requires
        wide(old(dist)@),
    ensures
        same_shape(old(dist)@, final(dist)@),
        done <==> relaxations_fit(block(old(dist)@)),
        done ==> settled(old(dist)@, final(dist)@),
{
    let n = dist.len();
    let ghost before = dist@;
    let ghost d = block(before);
    let mut m: usize = 0;
    while m < n
        invariant
            before == old(dist)@,
            n == before.len(),
            d == block(before),
            wide(before),
            m <= n,
            same_shape(before, dist@),
            forall|i: int, j: int|
                0 <= i < n && 0 <= j < n ==> #[trigger] dist@[i]@[j] == relaxed(d, m as nat, i, j),
            forall|i: int, j: int|
                0 <= i < n && n <= j < before[i].len() ==> #[trigger] dist@[i]@[j] == before[i]@[j],
            forall|p: nat, i: int, j: int|
                p < m && 0 <= i < n && 0 <= j < n && i != p ==> fits(#[trigger] detour(d, p, i, j)),
        decreases n - m,
    {
        let mut r: usize = 0;
        while r < n
            invariant
                before == old(dist)@,
                n == before.len(),
                d == block(before),
                wide(before),
                m < n,
                r <= n,
                same_shape(before, dist@),
                forall|i: int, j: int|
                    0 <= i < r && 0 <= j < n ==> #[trigger] dist@[i]@[j] == relaxed(
                        d,
                        (m + 1) as nat,
                        i,
                        j,
                    ),
                forall|i: int, j: int|
                    r <= i < n && 0 <= j < n ==> #[trigger] dist@[i]@[j] == relaxed(
                        d,
                        m as nat,
                        i,
                        j,
                    ),
                forall|j: int| 0 <= j < n ==> #[trigger] dist@[m as int]@[j] == relaxed(d, m as nat, m as int, j),
                forall|i: int, j: int|
                    0 <= i < n && n <= j < before[i].len() ==> #[trigger] dist@[i]@[j]
                        == before[i]@[j],
                forall|p: nat, i: int, j: int|
                    p < m && 0 <= i < n && 0 <= j < n && i != p ==> fits(
                        #[trigger] detour(d, p, i, j),
                    ),
                forall|i: int, j: int|
                    0 <= i < r && 0 <= j < n && i != m ==> fits(
                        #[trigger] detour(d, m as nat, i, j),
                    ),
            decreases n - r,
        {
            if r != m {
                let hop = dist[r][m];
                let next = relax_row(&dist[r], &dist[m], hop, n);
                match next {
                    None => {
                        proof {
                            let k = choose|k: int|
                                0 <= k < n && !fits(hop + #[trigger] dist@[m as int]@[k]);
                            assert(!fits(detour(d, m as nat, r as int, k)));
                        }
                        return false;
                    },
                    Some(row) => {
                        proof {
                            assert forall|j: int| 0 <= j < n implies fits(
                                #[trigger] detour(d, m as nat, r as int, j),
                            ) by {
                                assert(fits(hop + dist@[m as int]@[j]));
                            }
                            assert forall|j: int| 0 <= j < n implies #[trigger] row@[j] == relaxed(
                                d,
                                (m + 1) as nat,
                                r as int,
                                j,
                            ) by {
                                assert(detour(d, m as nat, r as int, j) == hop + dist@[m as int]@[j]);
                            }
                        }
                        dist.set(r, row);
                    },
                }
            }
            r = r + 1;
        }
        m = m + 1;
    }
    proof {
        assert forall|p: nat, i: int, j: int|
            p < d.len() && 0 <= i < d.len() && 0 <= j < d.len() && i != p implies fits(
            #[trigger] detour(d, p, i, j),
        ) by {}
    }
    true
}

/// Relaxes a distance matrix in place into its all-pairs shortest distances.
///
/// Entry `[i][j]` of the leading square block ends as the length of the
/// shortest way from `i` to `j`; entries right of the block are left alone.
pub fn floyd_warshall_fast(dist: &mut Vec<Vec<i32>>)
    requires
        wide(old(dist)@),
        relaxations_fit(block(old(dist)@)),
    ensures
        settled(old(dist)@, final(dist)@),
{
    let done = relax_all(dist);
    assert(done);
}

/// Every entry on the diagonal of `d` is zero.
pub open spec fn zero_diagonal(d: Seq<Seq<int>>) -> bool {
    forall|i: int| 0 <= i < d.len() ==> (#[trigger] d[i])[i] == 0
}

/// What the edge from `i` to `j` weighs once every vertex `v` is shifted by
/// its potential `h[v]`.
pub open spec fn shifted(d: Seq<Seq<int>>, h: Seq<int>, i: int, j: int) -> int {
    d[i][j] + h[i] - h[j]
}

/// `h` assigns every vertex a potential under which no edge of `d` is negative.
pub open spec fn is_potential(d: Seq<Seq<int>>, h: Seq<int>) -> bool {
    &&& h.len() == d.len()
    &&& forall|i: int, j: int|
        0 <= i < d.len() && 0 <= j < d.len() ==> #[trigger] shifted(d, h, i, j) >= 0
}

/// No cycle of `d` has negative length; equivalently, some potential exists.
pub open spec fn free_of_negative_cycles(d: Seq<Seq<int>>) -> bool {
    exists|h: Seq<int>| is_potential(d, h)
}

/// Every entry of `d` lies between zero and [`UNREACHABLE`].
pub open spec fn bounded_nonnegative(d: Seq<Seq<int>>) -> bool {
    forall|i: int, j: int|
        0 <= i < d.len() && 0 <= j < d.len() ==> 0 <= (#[trigger] d[i][j]) <= UNREACHABLE
}

/// After `m` phases: the diagonal is still zero, `h` is still a potential, and
/// no way through a vertex below `m` beats the recorded distance.
spec fn metric_below(d: Seq<Seq<int>>, h: Seq<int>, m: nat) -> bool {
    let n = d.len();
    &&& forall|i: int| 0 <= i < n ==> #[trigger] relaxed(d, m, i, i) == 0
    &&& forall|i: int, j: int|
        0 <= i < n && 0 <= j < n ==> #[trigger] relaxed(d, m, i, j) + h[i] - h[j] >= 0
    &&& forall|i: int, j: int, k: int|
        0 <= i < n && 0 <= j < n && 0 <= k < m ==> relaxed(d, m, i, j) <= #[trigger] relaxed(
            d,
            m,
            i,
            k,
        ) + #[trigger] relaxed(d, m, k, j)
}

proof fn lemma_metric_step(d: Seq<Seq<int>>, h: Seq<int>, m: nat)
    requires
        m < d.len(),
        metric_below(d, h, m),
    ensures
        metric_below(d, h, m + 1),
{
    let n = d.len();
    let via = m as int;
    let next = m + 1;
    assert(relaxed(d, m, via, via) == 0);
    assert forall|i: int| 0 <= i < n implies #[trigger] relaxed(d, next, i, i) == 0 by {
        assert(relaxed(d, m, i, i) == 0);
        assert(relaxed(d, m, i, via) + h[i] - h[via] >= 0);
        assert(relaxed(d, m, via, i) + h[via] - h[i] >= 0);
    }
    assert forall|i: int, j: int| 0 <= i < n && 0 <= j < n implies #[trigger] relaxed(
        d,
        next,
        i,
        j,
    ) + h[i] - h[j] >= 0 by {
        assert(relaxed(d, m, i, j) + h[i] - h[j] >= 0);
        assert(relaxed(d, m, i, via) + h[i] - h[via] >= 0);
        assert(relaxed(d, m, via, j) + h[via] - h[j] >= 0);
    }
    assert forall|i: int, j: int, k: int| 0 <= i < n && 0 <= j < n && 0 <= k < next implies relaxed(
        d,
        next,
        i,
        j,
    ) <= #[trigger] relaxed(d, next, i, k) + #[trigger] relaxed(d, next, k, j) by {
        assert(relaxed(d, m, i, via) + h[i] - h[via] >= 0);
        assert(relaxed(d, m, via, i) + h[via] - h[i] >= 0);
        if k == via {
            assert(relaxed(d, next, via, j) == relaxed(d, m, via, j));
            assert(relaxed(d, next, i, via) == relaxed(d, m, i, via));
        } else {
            assert(relaxed(d, m, via, k) + h[via] - h[k] >= 0);
            assert(relaxed(d, m, k, via) + h[k] - h[via] >= 0);
            assert(relaxed(d, m, i, j) <= relaxed(d, m, i, k) + relaxed(d, m, k, j));
            assert(relaxed(d, m, via, j) <= relaxed(d, m, via, k) + relaxed(d, m, k, j));
            assert(relaxed(d, m, i, via) <= relaxed(d, m, i, k) + relaxed(d, m, k, via));
        }
    }
}

proof fn lemma_metric_below(d: Seq<Seq<int>>, h: Seq<int>, m: nat)
    requires
        m <= d.len(),
        zero_diagonal(d),
        is_potential(d, h),
    ensures
        metric_below(d, h, m),
    decreases m,
{
    if m == 0 {
        assert forall|i: int, j: int| 0 <= i < d.len() && 0 <= j < d.len() implies #[trigger] relaxed(
            d,
            0,
            i,
            j,
        ) + h[i] - h[j] >= 0 by {
            assert(shifted(d, h, i, j) >= 0);
        }
    } else {
        lemma_metric_below(d, h, (m - 1) as nat);
        lemma_metric_step(d, h, (m - 1) as nat);
    }
}

/// The relaxed matrix is a metric: on a matrix with a zero diagonal and no
/// cycle of negative length, every vertex stays at distance zero from itself
/// and no distance exceeds the way round through a third vertex.
pub proof fn lemma_shortest_paths_are_metric(d: Seq<Seq<int>>)
    requires
        zero_diagonal(d),
        free_of_negative_cycles(d),
    ensures
        forall|i: int| 0 <= i < d.len() ==> #[trigger] relaxed(d, d.len(), i, i) == 0,
        forall|i: int, j: int, k: int|
            0 <= i < d.len() && 0 <= j < d.len() && 0 <= k < d.len() ==> relaxed(d, d.len(), i, j)
                <= #[trigger] relaxed(d, d.len(), i, k) + #[trigger] relaxed(d, d.len(), k, j),
{
    let h = choose|h: Seq<int>| is_potential(d, h);
    lemma_metric_below(d, h, d.len());
}

/// A matrix without negative entries has no cycle of negative length.
pub proof fn lemma_nonnegative_has_no_negative_cycle(d: Seq<Seq<int>>)
    requires
        bounded_nonnegative(d),
    ensures
        free_of_negative_cycles(d),
{
    let h = Seq::new(d.len(), |v: int| 0int);
    assert forall|i: int, j: int| 0 <= i < d.len() && 0 <= j < d.len() implies #[trigger] shifted(
        d,
        h,
        i,
        j,
    ) >= 0 by {
        assert(0 <= d[i][j]);
    }
    assert(is_potential(d, h));
}

/// Relaxing a matrix whose entries lie between zero and [`UNREACHABLE`] keeps
/// every entry in that range and never lengthens one.
pub proof fn lemma_nonnegative_stays_bounded(d: Seq<Seq<int>>, m: nat)
    requires
        bounded_nonnegative(d),
        m <= d.len(),
    ensures
        forall|i: int, j: int|
            0 <= i < d.len() && 0 <= j < d.len() ==> 0 <= #[trigger] relaxed(d, m, i, j) <= d[i][j],
    decreases m,
{
    if m > 0 {
        lemma_nonnegative_stays_bounded(d, (m - 1) as nat);
    }
    assert forall|i: int, j: int| 0 <= i < d.len() && 0 <= j < d.len() implies 0
        <= #[trigger] relaxed(d, m, i, j) <= d[i][j] by {
        assert(0 <= d[i][j]);
        if m > 0 {
            let p = (m - 1) as nat;
            assert(0 <= relaxed(d, p, i, j) <= d[i][j]);
            assert(0 <= relaxed(d, p, i, p as int));
            assert(0 <= relaxed(d, p, p as int, j));
        }
    }
}

/// On a matrix whose entries lie between zero and [`UNREACHABLE`], every sum
/// that the relaxation forms fits an `i32`.
pub proof fn lemma_nonnegative_fits(d: Seq<Seq<int>>)
    requires
        bounded_nonnegative(d),
    ensures
        relaxations_fit(d),
{
    assert forall|m: nat, i: int, j: int|
        m < d.len() && 0 <= i < d.len() && 0 <= j < d.len() && i != m implies fits(
        #[trigger] detour(d, m, i, j),
    ) by {
        lemma_nonnegative_stays_bounded(d, m);
        assert(0 <= relaxed(d, m, i, m as int) <= d[i][m as int]);
        assert(0 <= relaxed(d, m, m as int, j) <= d[m as int][j]);
        assert(d[i][m as int] <= UNREACHABLE);
        assert(d[m as int][j] <= UNREACHABLE);
    }
}

/// `j` is among the first `count` entries of `preds`.
pub open spec fn listed(preds: Seq<usize>, j: int, count: nat) -> bool {
    exists|c: int| 0 <= c < count && preds[c] == j
}

/// The entry for segment `j` in the row of `segment`: zero for the segment
/// itself, the span of `j` where `j` is a direct predecessor (with a minus
/// sign when `negated`), and [`UNREACHABLE`] elsewhere.
pub open spec fn distance_entry(segment: Segment, arena: Seq<Segment>, j: int, negated: bool) -> int {
    if j == segment.id {
        0
    } else if listed(segment.precedence@, j, segment.precedence@.len()) {
        if negated {
            -(arena[j].duration as int)
        } else {
            arena[j].duration as int
        }
    } else {
        UNREACHABLE as int
    }
}

/// The matrix of direct distances between the segments of `arena`.
pub open spec fn distance_matrix(arena: Seq<Segment>, negated: bool) -> Seq<Seq<int>> {
    Seq::new(
        arena.len(),
        |i: int| Seq::new(arena.len(), |j: int| distance_entry(arena[i], arena, j, negated)),
    )
}

/// The direct predecessors of `segment` are segments of `arena`, none of
/// them with a span that reaches [`UNREACHABLE`].
pub open spec fn predecessors_within(segment: Segment, arena: Seq<Segment>) -> bool {
    forall|c: int|
        0 <= c < segment.precedence@.len() ==> {
            &&& (#[trigger] segment.precedence@[c]) < arena.len()
            &&& arena[segment.precedence@[c] as int].duration <= UNREACHABLE
        }
}

/// Every segment stands at the position of its id, and its predecessors are
/// segments of the list with spans below [`UNREACHABLE`].
pub open spec fn is_graph(arena: Seq<Segment>) -> bool {
    forall|i: int|
        0 <= i < arena.len() ==> (#[trigger] arena[i]).id == i && predecessors_within(
            arena[i],
            arena,
        )
}

fn distance_row(segment: &Segment, arena: &Vec<Segment>, negated: bool) -> (distance: Vec<i32>)
    requires
        segment.id < arena@.len(),
        predecessors_within(*segment, arena@),
    ensures
        distance@.len() == arena@.len(),
        forall|j: int|
            0 <= j < arena@.len() ==> #[trigger] distance@[j] == distance_entry(
                *segment,
                arena@,
                j,
                negated,
            ),
{
    let n = arena.len();
    let mut distance: Vec<i32> = Vec::new();
    let mut j: usize = 0;
    while j < n
        invariant
            j <= n,
            distance@.len() == j,
            forall|c: int| 0 <= c < j ==> #[trigger] distance@[c] == UNREACHABLE,
        decreases n - j,
    {
        distance.push(UNREACHABLE);
        j = j + 1;
    }
    let mut p: usize = 0;
    while p < segment.precedence.len()
        invariant
            n == arena@.len(),
            p <= segment.precedence@.len(),
            predecessors_within(*segment, arena@),
            distance@.len() == n,
            forall|c: int|
                0 <= c < n ==> #[trigger] distance@[c] == if listed(
                    segment.precedence@,
                    c,
                    p as nat,
                ) {
                    if negated {
                        -(arena@[c].duration as int)
                    } else {
                        arena@[c].duration as int
                    }
                } else {
                    UNREACHABLE as int
                },
        decreases segment.precedence@.len() - p,
    {
        let access_id = segment.precedence[p];
        let duration = arena[access_id].duration;
        if negated {
            distance.set(access_id, -(duration as i32));
        } else {
            distance.set(access_id, duration as i32);
        }
        proof {
            assert forall|c: int| 0 <= c < n implies #[trigger] distance@[c] == if listed(
                segment.precedence@,
                c,
                (p + 1) as nat,
            ) {
                if negated {
                    -(arena@[c].duration as int)
                } else {
                    arena@[c].duration as int
                }
            } else {
                UNREACHABLE as int
            } by {
                if c == access_id {
                    assert(segment.precedence@[p as int] == c);
                } else if listed(segment.precedence@, c, (p + 1) as nat) {
                    let w = choose|w: int| 0 <= w < p + 1 && segment.precedence@[w] == c;
                    assert(w < p);
                    assert(listed(segment.precedence@, c, p as nat));
                } else {
                    assert(!listed(segment.precedence@, c, p as nat));
                }
            }
        }
        p = p + 1;
    }
    distance.set(segment.id, 0);
    distance
}

/// The row of `segment` in the matrix of direct distances: the span of each
/// direct predecessor in that predecessor's column, zero in the segment's
/// own column, [`UNREACHABLE`] elsewhere.
pub fn segment_to_distance_vec(segment: &Segment, arena: &Vec<Segment>) -> (distance: Vec<i32>)
    requires
        segment.id < arena@.len(),
        predecessors_within(*segment, arena@),
    ensures
        distance@.len() == arena@.len(),
        forall|j: int|
            0 <= j < arena@.len() ==> #[trigger] distance@[j] == distance_entry(
                *segment,
                arena@,
                j,
                false,
            ),
{
    distance_row(segment, arena, false)
}

/// The row of `segment` with every span negated, so that shortest paths over
/// the rows are longest chains of predecessors.
pub fn segment_to_negative_distance_vec(segment: &Segment, arena: &Vec<Segment>) -> (distance: Vec<
    i32,
>)
    requires
        segment.id < arena@.len(),
        predecessors_within(*segment, arena@),
    ensures
        distance@.len() == arena@.len(),
        forall|j: int|
            0 <= j < arena@.len() ==> #[trigger] distance@[j] == distance_entry(
                *segment,
                arena@,
                j,
                true,
            ),
{
    distance_row(segment, arena, true)
}

fn direct_distances(segments: &Vec<Segment>, negated: bool) -> (dist: Vec<Vec<i32>>)
    requires
        is_graph(segments@),
    ensures
        dist@.len() == segments@.len(),
        wide(dist@),
        forall|r: int| 0 <= r < dist@.len() ==> (#[trigger] dist@[r])@.len() == segments@.len(),
        block(dist@) == distance_matrix(segments@, negated),
{
    let n = segments.len();
    let mut dist: Vec<Vec<i32>> = Vec::new();
    let mut i: usize = 0;
    while i < n
        invariant
            n == segments@.len(),
            i <= n,
            is_graph(segments@),
            dist@.len() == i,
            forall|r: int| 0 <= r < i ==> (#[trigger] dist@[r])@.len() == n,
            forall|r: int, j: int|
                0 <= r < i && 0 <= j < n ==> #[trigger] dist@[r]@[j] == distance_entry(
                    segments@[r],
                    segments@,
                    j,
                    negated,
                ),
        decreases n - i,
    {
        assert(segments@[i as int].id == i);
        let row = distance_row(&segments[i], segments, negated);
        dist.push(row);
        i = i + 1;
    }
    proof {
        let target = distance_matrix(segments@, negated);
        assert(block(dist@).len() == target.len());
        assert forall|r: int| 0 <= r < n implies #[trigger] block(dist@)[r] == target[r] by {
            assert(block(dist@)[r] =~= target[r]);
        }
        assert(block(dist@) =~= target);
    }
    dist
}

/// The direct distances are spans or [`UNREACHABLE`], hence bounded and not
/// negative.
pub proof fn lemma_distances_are_bounded(arena: Seq<Segment>)
    requires
        is_graph(arena),
    ensures
        bounded_nonnegative(distance_matrix(arena, false)),
        zero_diagonal(distance_matrix(arena, false)),
        zero_diagonal(distance_matrix(arena, true)),
{
    let d = distance_matrix(arena, false);
    assert forall|i: int, j: int| 0 <= i < d.len() && 0 <= j < d.len() implies 0 <= (
    #[trigger] d[i][j]) <= UNREACHABLE by {
        let segment = arena[i];
        assert(predecessors_within(segment, arena));
        if j != segment.id && listed(segment.precedence@, j, segment.precedence@.len()) {
            let w = choose|w: int| 0 <= w < segment.precedence@.len() && segment.precedence@[w] == j;
            assert(arena[segment.precedence@[w] as int].duration <= UNREACHABLE);
        }
    }
    let e = distance_matrix(arena, true);
    assert forall|i: int| 0 <= i < d.len() implies (#[trigger] d[i])[i] == 0 by {
        assert(arena[i].id == i);
    }
    assert forall|i: int| 0 <= i < e.len() implies (#[trigger] e[i])[i] == 0 by {
        assert(arena[i].id == i);
    }
}

/// The least total span of predecessors between every two segments: entry
/// `[i][j]` is the length of the shortest chain of direct predecessors that
/// leads from segment `i` back to segment `j`.
pub fn segments_dist_shortest_vec(segments: &Vec<Segment>) -> (dist: Vec<Vec<i32>>)
    requires
        is_graph(segments@),
    ensures
        dist@.len() == segments@.len(),
        forall|i: int| 0 <= i < dist@.len() ==> (#[trigger] dist@[i])@.len() == segments@.len(),
        forall|i: int, j: int|
            0 <= i < segments@.len() && 0 <= j < segments@.len() ==> #[trigger] dist@[i]@[j]
                == relaxed(distance_matrix(segments@, false), segments@.len(), i, j),
        forall|i: int, j: int|
            0 <= i < segments@.len() && 0 <= j < segments@.len() ==> 0 <= #[trigger] dist@[i]@[j]
                <= UNREACHABLE,
{
    let mut dist = direct_distances(segments, false);
    proof {
        lemma_distances_are_bounded(segments@);
        lemma_nonnegative_fits(distance_matrix(segments@, false));
        lemma_nonnegative_stays_bounded(distance_matrix(segments@, false), segments@.len());
    }
    floyd_warshall_fast(&mut dist);
    proof {
        assert forall|i: int, j: int|
            0 <= i < segments@.len() && 0 <= j < segments@.len() implies 0
            <= #[trigger] dist@[i]@[j] <= UNREACHABLE by {
            let d = distance_matrix(segments@, false);
            assert(dist@[i]@[j] == relaxed(d, segments@.len(), i, j));
            assert(0 <= relaxed(d, segments@.len(), i, j) <= d[i][j]);
            assert(d[i][j] <= UNREACHABLE);
        }
    }
    dist
}

/// The greatest total span of predecessors between every two segments, with
/// a minus sign: entry `[i][j]` is the negated length of the longest chain of
/// direct predecessors from segment `i` back to segment `j`. `None` when a
/// sum on the way leaves the `i32` range.
pub fn segments_dist_longest_vec(segments: &Vec<Segment>) -> (dist: Option<Vec<Vec<i32>>>)
    requires
        is_graph(segments@),
    ensures
        dist is Some <==> relaxations_fit(distance_matrix(segments@, true)),
        dist matches Some(m) ==> {
            &&& m@.len() == segments@.len()
            &&& forall|i: int| 0 <= i < m@.len() ==> (#[trigger] m@[i])@.len() == segments@.len()
            &&& forall|i: int, j: int|
                0 <= i < segments@.len() && 0 <= j < segments@.len() ==> #[trigger] m@[i]@[j]
                    == relaxed(distance_matrix(segments@, true), segments@.len(), i, j)
        },
{
    let mut dist = direct_distances(segments, true);
    if relax_all(&mut dist) {
        Some(dist)
    } else {
        None
    }
}

/// The longest chain between two segments is at least as long as the
/// shortest: wherever a chain of predecessors leads from `i` back to `j`,
/// the negated longest distance lies at or below the negated shortest one.
pub proof fn lemma_longest_covers_shortest(arena: Seq<Segment>, m: nat)
    requires
        is_graph(arena),
        m <= arena.len(),
    ensures
        forall|i: int, j: int|
            0 <= i < arena.len() && 0 <= j < arena.len() && relaxed(
                distance_matrix(arena, false),
                m,
                i,
                j,
            ) < UNREACHABLE ==> #[trigger] relaxed(distance_matrix(arena, true), m, i, j)
                <= -relaxed(distance_matrix(arena, false), m, i, j),
    decreases m,
{
    let shortest = distance_matrix(arena, false);
    let longest = distance_matrix(arena, true);
    lemma_distances_are_bounded(arena);
    if m > 0 {
        let p = (m - 1) as nat;
        lemma_longest_covers_shortest(arena, p);
        lemma_nonnegative_stays_bounded(shortest, p);
        assert forall|i: int, j: int|
            0 <= i < arena.len() && 0 <= j < arena.len() && relaxed(shortest, m, i, j)
                < UNREACHABLE implies #[trigger] relaxed(longest, m, i, j) <= -relaxed(
            shortest,
            m,
            i,
            j,
        ) by {
            let via = p as int;
            assert(0 <= relaxed(shortest, p, i, j) <= shortest[i][j]);
            assert(0 <= relaxed(shortest, p, i, via) <= shortest[i][via]);
            assert(0 <= relaxed(shortest, p, via, j) <= shortest[via][j]);
            assert(shortest[i][via] <= UNREACHABLE);
            assert(shortest[via][j] <= UNREACHABLE);
            if relaxed(shortest, p, i, j) < UNREACHABLE {
                assert(relaxed(longest, p, i, j) <= -relaxed(shortest, p, i, j));
            }
            if relaxed(shortest, p, i, via) < UNREACHABLE {
                assert(relaxed(longest, p, i, via) <= -relaxed(shortest, p, i, via));
            }
            if relaxed(shortest, p, via, j) < UNREACHABLE {
                assert(relaxed(longest, p, via, j) <= -relaxed(shortest, p, via, j));
            }
        }
    } else {
        assert forall|i: int, j: int|
            0 <= i < arena.len() && 0 <= j < arena.len() && relaxed(shortest, 0, i, j)
                < UNREACHABLE implies #[trigger] relaxed(longest, 0, i, j) <= -relaxed(
            shortest,
            0,
            i,
            j,
        ) by {
            assert(shortest[i][j] == distance_entry(arena[i], arena, j, false));
            assert(longest[i][j] == distance_entry(arena[i], arena, j, true));
        }
    }
}

} // verus!
