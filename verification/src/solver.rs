//! The solver: precomputes the all-pairs shortest-distance table over the
//! union of both edge classes (used as a pruning oracle), then enumerates
//! every full-length path consistent with a night's observations.

use crate::graph::contains_location;
use crate::graph::valid_location;
use crate::graph::Graph;
use crate::night::spec_move_type;
use crate::night::Location;
use crate::night::MoveType;
use crate::night::Night;
use vstd::prelude::*;

verus! {

broadcast use vstd::seq_lib::group_seq_properties;

/// The sentinel distance for unreachable pairs: larger than any path on a
/// 195-location board can be.
pub const UNREACHABLE: u32 = 1000;

/// A matrix of rows as a sequence of sequences.
pub open spec fn matrix_view(m: Seq<Vec<u32>>) -> Seq<Seq<u32>> {
    Seq::new(m.len(), |i: int| m[i]@)
}

/// Location `y + 1` is listed among the neighbours (either class) of
/// location `x + 1`; `x` and `y` are 0-based.
pub open spec fn direct_edge(g: Graph, x: int, y: int) -> bool {
    ||| g.regular()[x].contains((y + 1) as u32)
    ||| g.alleyway()[x].contains((y + 1) as u32)
}

/// The undirected edge relation the distance table measures: either
/// location lists the other, in either class.
pub open spec fn union_edge(g: Graph, u: u32, v: u32) -> bool {
    &&& valid_location(u)
    &&& valid_location(v)
    &&& (direct_edge(g, u - 1, v - 1) || direct_edge(g, v - 1, u - 1))
}

/// A walk over the board along undirected edges of either class.
pub open spec fn union_path(g: Graph, p: Seq<u32>) -> bool {
    &&& p.len() >= 1
    &&& forall|i: int| 0 <= i < p.len() ==> valid_location(#[trigger] p[i])
    &&& forall|i: int| 1 <= i < p.len() ==> union_edge(g, p[i - 1], #[trigger] p[i])
}

/// Some walk of exactly `steps` edges joins locations `i + 1` and `j + 1`.
pub open spec fn connects(g: Graph, i: int, j: int, steps: int) -> bool {
    exists|p: Seq<u32>|
        #[trigger] union_path(g, p) && p.first() == (i + 1) as u32 && p.last() == (j + 1) as u32
            && p.len() - 1 == steps
}

/// The matrix is square over the whole board.
pub open spec fn table_shape(d: Seq<Seq<u32>>) -> bool {
    &&& d.len() == 195
    &&& forall|i: int| 0 <= i < 195 ==> (#[trigger] d[i]).len() == 195
}

/// Square, zero on the diagonal, symmetric, and capped by the sentinel.
pub open spec fn table_base(d: Seq<Seq<u32>>) -> bool {
    &&& table_shape(d)
    &&& forall|i: int| 0 <= i < 195 ==> #[trigger] d[i][i] == 0
    &&& forall|i: int, j: int| 0 <= i < 195 && 0 <= j < 195 ==> #[trigger] d[i][j] == d[j][i]
    &&& forall|i: int, j: int| 0 <= i < 195 && 0 <= j < 195 ==> #[trigger] d[i][j] <= 1000
}

/// The triangle inequality through every intermediate below `k`.
pub open spec fn closure_upto(d: Seq<Seq<u32>>, k: int) -> bool {
    forall|m: int, i: int, j: int|
        #![trigger d[i][m], d[m][j]]
        0 <= m < k && 0 <= i < 195 && 0 <= j < 195 ==> d[i][j] <= d[i][m] + d[m][j]
}

/// Each undirected edge is measured as at most one step.
pub open spec fn edges_bounded(g: Graph, d: Seq<Seq<u32>>) -> bool {
    forall|u: u32, v: u32| #[trigger] union_edge(g, u, v) ==> d[u - 1][v - 1] <= 1
}

/// Every entry below the sentinel is realised by an actual walk.
pub open spec fn entries_witnessed(g: Graph, d: Seq<Seq<u32>>) -> bool {
    forall|i: int, j: int|
        0 <= i < 195 && 0 <= j < 195 ==> (#[trigger] d[i][j] == 1000 || connects(
            g,
            i,
            j,
            d[i][j] as int,
        ))
}

/// The full contract of the distance table: exact shortest distances over
/// the union of both edge classes, with the sentinel for unreachable
/// pairs. The triangle closure together with the edge bound makes every
/// entry a lower bound on any walk; the witnesses make it reachable.
pub open spec fn distance_table_wf(g: Graph, d: Seq<Seq<u32>>) -> bool {
    &&& table_base(d)
    &&& closure_upto(d, 195)
    &&& edges_bounded(g, d)
    &&& entries_witnessed(g, d)
}

/// Joining a walk to `k + 1` and a walk from `k + 1` gives a walk of the
/// summed length.
proof fn lemma_connects_trans(g: Graph, i: int, k: int, j: int, s1: int, s2: int)
    requires
        connects(g, i, k, s1),
        connects(g, k, j, s2),
    ensures
        connects(g, i, j, s1 + s2),
{
    let p1 = choose|p: Seq<u32>|
        #[trigger] union_path(g, p) && p.first() == (i + 1) as u32 && p.last() == (k + 1) as u32
            && p.len() - 1 == s1;
    let p2 = choose|p: Seq<u32>|
        #[trigger] union_path(g, p) && p.first() == (k + 1) as u32 && p.last() == (j + 1) as u32
            && p.len() - 1 == s2;
    let p = p1 + p2.subrange(1, p2.len() as int);
    assert forall|t: int| 1 <= t < p.len() implies union_edge(g, p[t - 1], #[trigger] p[t]) by {
        if t < p1.len() {
            assert(p[t - 1] == p1[t - 1] && p[t] == p1[t]);
        } else if t == p1.len() {
            assert(p[t - 1] == p1.last() && p[t] == p2[1]);
            assert(union_edge(g, p2[0], p2[1]));
        } else {
            assert(p[t - 1] == p2[t - p1.len()] && p[t] == p2[t - p1.len() + 1]);
        }
    }
    assert(union_path(g, p));
    assert(p.first() == (i + 1) as u32);
    assert(p.last() == p2.last());
    assert(p.len() - 1 == s1 + s2);
}

/// The one-location walk shows each location reaches itself in no steps.
proof fn lemma_connects_self(g: Graph, i: int)
    requires
        0 <= i < 195,
    ensures
        connects(g, i, i, 0),
{
    let p = seq![(i + 1) as u32];
    assert(union_path(g, p));
    assert(p.first() == (i + 1) as u32 && p.last() == (i + 1) as u32 && p.len() - 1 == 0);
}

/// The two-location walk shows each undirected edge is one step.
proof fn lemma_connects_edge(g: Graph, u: u32, v: u32)
    requires
        union_edge(g, u, v),
    ensures
        connects(g, (u - 1) as int, (v - 1) as int, 1),
{
    let p = seq![u, v];
    assert(union_path(g, p));
    assert(p.first() == u && p.last() == v && p.len() - 1 == 1);
}


/// Every neighbour listed by a well-formed graph is a valid location.
proof fn lemma_listed_neighbor_valid(g: Graph, l: int, v: u32)
    requires
        g.wf(),
        0 <= l < 195,
        g.regular()[l].contains(v) || g.alleyway()[l].contains(v),
    ensures
        valid_location(v),
{
    if g.regular()[l].contains(v) {
        let i = choose|i: int| 0 <= i < g.regular()[l].len() && g.regular()[l][i] == v;
        assert(valid_location(g.regular()[l][i]));
    } else {
        let i = choose|i: int| 0 <= i < g.alleyway()[l].len() && g.alleyway()[l][i] == v;
        assert(valid_location(g.alleyway()[l][i]));
    }
}

/// A closed table with single-step edges bounds every walk from below:
/// the measured distance between a walk's endpoints never exceeds its
/// number of edges.
pub proof fn lemma_distance_bounds_walk(g: Graph, d: Seq<Seq<u32>>, p: Seq<u32>)
    requires
        distance_table_wf(g, d),
        union_path(g, p),
    ensures
        d[p.first() - 1][p.last() - 1] <= p.len() - 1,
    decreases p.len(),
{
    if p.len() == 1 {
        assert(d[p.first() - 1][p.first() - 1] == 0);
    } else {
        let q = p.drop_last();
        assert forall|t: int| 1 <= t < q.len() implies union_edge(g, q[t - 1], #[trigger] q[t]) by {
            assert(q[t - 1] == p[t - 1] && q[t] == p[t]);
        }
        assert(union_path(g, q));
        lemma_distance_bounds_walk(g, d, q);
        let a = p[p.len() - 2];
        let b = p.last();
        assert(union_edge(g, a, b));
        assert(d[a - 1][b - 1] <= 1);
        assert(d[p.first() - 1][b - 1] <= d[p.first() - 1][a - 1] + d[a - 1][b - 1]);
    }
}

/// The cell value after relaxing through intermediate `k`, from the
/// snapshot `d0` taken before the intermediate's pass.
pub open spec fn relax_val(d0: Seq<Seq<u32>>, k: int, a: int, b: int) -> int {
    if d0[a][b] <= d0[a][k] + d0[k][b] {
        d0[a][b] as int
    } else {
        d0[a][k] + d0[k][b]
    }
}

/// The pass over intermediate `k` has already processed pair `(a, b)`
/// when it stands before pair `(i, j)`.
pub open spec fn pair_done(a: int, b: int, i: int, j: int) -> bool {
    a < i || (a == i && b < j)
}

/// A cell is up to date when its pair or its mirror has been processed.
pub open spec fn cell_touched(a: int, b: int, i: int, j: int) -> bool {
    pair_done(a, b, i, j) || pair_done(b, a, i, j)
}

/// An edge already recorded by the initialisation pass, which has handled
/// the lists of locations `1..=l`.
pub open spec fn edge_written(g: Graph, a: int, b: int, l: int) -> bool {
    (a < l && direct_edge(g, a, b)) || (b < l && direct_edge(g, b, a))
}

/// One full relaxation pass preserves the table's shape facts, extends
/// the triangle closure to its intermediate, and keeps every entry
/// witnessed by a walk.
proof fn lemma_relax_step(g: Graph, d0: Seq<Seq<u32>>, m1: Seq<Seq<u32>>, k: int)
    requires
        0 <= k < 195,
        table_base(d0),
        closure_upto(d0, k),
        edges_bounded(g, d0),
        entries_witnessed(g, d0),
        table_shape(m1),
        forall|a: int, b: int|
            #![trigger m1[a][b]]
            0 <= a < 195 && 0 <= b < 195 ==> m1[a][b] as int == relax_val(d0, k, a, b),
    ensures
        table_base(m1),
        closure_upto(m1, k + 1),
        edges_bounded(g, m1),
        entries_witnessed(g, m1),
{
    lemma_relax_base(d0, m1, k);
    lemma_relax_closure(d0, m1, k);
    lemma_relax_edges(g, d0, m1, k);
    lemma_relax_witness(g, d0, m1, k);
}

/// Relaxing keeps the diagonal zero, the matrix symmetric, and the cap.
proof fn lemma_relax_base(d0: Seq<Seq<u32>>, m1: Seq<Seq<u32>>, k: int)
    requires
        0 <= k < 195,
        table_base(d0),
        table_shape(m1),
        forall|a: int, b: int|
            #![trigger m1[a][b]]
            0 <= a < 195 && 0 <= b < 195 ==> m1[a][b] as int == relax_val(d0, k, a, b),
    ensures
        table_base(m1),
{
    assert forall|i: int, j: int| 0 <= i < 195 && 0 <= j < 195 implies #[trigger] m1[i][j] == m1[j][
        i
    ] by {
        assert(d0[i][j] == d0[j][i] && d0[i][k] == d0[k][i] && d0[k][j] == d0[j][k]);
    }
}

/// Relaxing through `k` extends the triangle closure to intermediates up
/// to and including `k`.
#[verifier::rlimit(100)]
proof fn lemma_relax_closure(d0: Seq<Seq<u32>>, m1: Seq<Seq<u32>>, k: int)
    requires
        0 <= k < 195,
        table_base(d0),
        closure_upto(d0, k),
        table_shape(m1),
        forall|a: int, b: int|
            #![trigger m1[a][b]]
            0 <= a < 195 && 0 <= b < 195 ==> m1[a][b] as int == relax_val(d0, k, a, b),
    ensures
        closure_upto(m1, k + 1),
{
    assert forall|m: int, i: int, j: int|
        #![trigger m1[i][m], m1[m][j]]
        0 <= m < k + 1 && 0 <= i < 195 && 0 <= j < 195 implies m1[i][j] <= m1[i][m] + m1[m][j] by {
        if m == k {
            assert(m1[i][m] as int == relax_val(d0, k, i, k));
            assert(m1[m][j] as int == relax_val(d0, k, k, j));
            assert(d0[k][k] == 0);
        } else {
            assert(d0[i][j] <= d0[i][m] + d0[m][j]);
            assert(d0[i][k] <= d0[i][m] + d0[m][k]);
            assert(d0[k][j] <= d0[k][m] + d0[m][j]);
            assert(m1[i][m] as int == relax_val(d0, k, i, m));
            assert(m1[m][j] as int == relax_val(d0, k, m, j));
            assert(m1[i][j] as int == relax_val(d0, k, i, j));
        }
    }
}

/// Relaxing never lengthens an edge's measured distance.
proof fn lemma_relax_edges(g: Graph, d0: Seq<Seq<u32>>, m1: Seq<Seq<u32>>, k: int)
    requires
        0 <= k < 195,
        table_base(d0),
        edges_bounded(g, d0),
        table_shape(m1),
        forall|a: int, b: int|
            #![trigger m1[a][b]]
            0 <= a < 195 && 0 <= b < 195 ==> m1[a][b] as int == relax_val(d0, k, a, b),
    ensures
        edges_bounded(g, m1),
{
    assert forall|u: u32, v: u32| #[trigger] union_edge(g, u, v) implies m1[u - 1][v - 1] <= 1 by {
        assert(d0[u - 1][v - 1] <= 1);
        assert(m1[u - 1][v - 1] as int == relax_val(d0, k, u - 1, v - 1));
    }
}

/// Every relaxed entry below the sentinel is still realised by a walk:
/// either the old walk, or the two old walks through `k` joined.
proof fn lemma_relax_witness(g: Graph, d0: Seq<Seq<u32>>, m1: Seq<Seq<u32>>, k: int)
    requires
        0 <= k < 195,
        table_base(d0),
        entries_witnessed(g, d0),
        table_shape(m1),
        forall|a: int, b: int|
            #![trigger m1[a][b]]
            0 <= a < 195 && 0 <= b < 195 ==> m1[a][b] as int == relax_val(d0, k, a, b),
    ensures
        entries_witnessed(g, m1),
{
    assert forall|i: int, j: int|
        0 <= i < 195 && 0 <= j < 195 implies (#[trigger] m1[i][j] == 1000 || connects(
        g,
        i,
        j,
        m1[i][j] as int,
    )) by {
        assert(m1[i][j] as int == relax_val(d0, k, i, j));
        if m1[i][j] as int == d0[i][j] as int {
            assert(d0[i][j] == 1000 || connects(g, i, j, d0[i][j] as int));
        } else {
            assert(m1[i][j] as int == d0[i][k] + d0[k][j]);
            assert(d0[i][k] < 1000 && d0[k][j] < 1000);
            assert(connects(g, i, k, d0[i][k] as int));
            assert(connects(g, k, j, d0[k][j] as int));
            lemma_connects_trans(g, i, k, j, d0[i][k] as int, d0[k][j] as int);
        }
    }
}


/// The neighbour list the mandated edge class allows from `u` on `turn`.
pub open spec fn class_list(g: Graph, night: Night, u: u32, turn: u32) -> Seq<u32> {
    if spec_move_type(night.spec_alleyways(), turn) == MoveType::Alleyway {
        g.alleyway()[u - 1]
    } else {
        g.regular()[u - 1]
    }
}

/// The knowledge allows the agent at `v` on `turn`: its status is not a
/// confirmed absence (or a visit known to happen strictly later) that
/// still holds on that turn.
pub open spec fn eligible(night: Night, v: u32, turn: int) -> bool {
    match night.spec_statuses()[v - 1] {
        Location::NeverVisitedAsOf(t2) => !(turn <= t2),
        Location::VisitedAfter(t2) => !(turn <= t2),
        _ => true,
    }
}

/// Turn `turn` may move to `v`: `v` is on the mandated list and the
/// knowledge allows it there.
pub open spec fn valid_step(g: Graph, night: Night, u: u32, v: u32, turn: int) -> bool {
    &&& class_list(g, night, u, turn as u32).contains(v)
    &&& eligible(night, v, turn)
}

/// An admissible route prefix: starts at the murder location and makes
/// only valid steps.
pub open spec fn partial_path(g: Graph, night: Night, p: Seq<u32>) -> bool {
    &&& p.len() >= 1
    &&& p[0] == night.spec_murder_location()
    &&& forall|i: int| 0 <= i < p.len() ==> valid_location(#[trigger] p[i])
    &&& forall|t: int| 1 <= t < p.len() ==> valid_step(g, night, p[t - 1], #[trigger] p[t], t)
}

/// The route visits every known location at least once.
pub open spec fn covers(night: Night, p: Seq<u32>) -> bool {
    forall|i: int|
        0 <= i < night.spec_known().len() ==> p.contains(#[trigger] night.spec_known()[i])
}

/// A solution: an admissible route of exactly the move budget that visits
/// every known location.
pub open spec fn is_solution(g: Graph, night: Night, p: Seq<u32>) -> bool {
    &&& partial_path(g, night, p)
    &&& p.len() == night.spec_nb_moves() + 1
    &&& covers(night, p)
}

/// A full-length continuation of `prefix` whose remaining steps are all
/// valid and which visits every known location.
pub open spec fn is_completion(g: Graph, night: Night, prefix: Seq<u32>, p: Seq<u32>) -> bool {
    &&& p.len() == night.spec_nb_moves() + 1
    &&& p.take(prefix.len() as int) == prefix
    &&& forall|t: int|
        prefix.len() <= t < p.len() ==> valid_step(g, night, p[t - 1], #[trigger] p[t], t)
    &&& covers(night, p)
}

/// What a solve returns: nothing when no solution exists, else a
/// non-empty list holding exactly the solutions.
pub open spec fn solve_result_matches(g: Graph, night: Night, r: Option<Seq<Seq<u32>>>) -> bool {
    match r {
        Some(paths) => {
            &&& paths.len() > 0
            &&& forall|i: int| 0 <= i < paths.len() ==> is_solution(g, night, #[trigger] paths[i])
            &&& forall|p: Seq<u32>| #[trigger] is_solution(g, night, p) ==> paths.contains(p)
        },
        None => forall|p: Seq<u32>| !(#[trigger] is_solution(g, night, p)),
    }
}

/// No value occurs twice.
pub open spec fn distinct_values(s: Seq<u32>) -> bool {
    forall|a: int, b: int| 0 <= a < b < s.len() ==> s[a] != s[b]
}

/// Every known location of a well-formed night is valid.
proof fn lemma_known_member_valid(night: Night, v: u32)
    requires
        night.wf(),
        night.spec_known().contains(v),
    ensures
        valid_location(v),
{
    let i = choose|i: int| 0 <= i < night.spec_known().len() && night.spec_known()[i] == v;
    assert(valid_location(night.spec_known()[i]));
}

/// A location reached by a valid step is valid.
proof fn lemma_class_member_valid(g: Graph, night: Night, u: u32, v: u32, t: int)
    requires
        g.wf(),
        valid_location(u),
        valid_step(g, night, u, v, t),
    ensures
        valid_location(v),
{
    lemma_listed_neighbor_valid(g, u - 1, v);
}

/// A valid step crosses an edge the distance table measures.
proof fn lemma_step_is_edge(g: Graph, night: Night, u: u32, v: u32, t: int)
    requires
        g.wf(),
        valid_location(u),
        valid_step(g, night, u, v, t),
    ensures
        union_edge(g, u, v),
{
    lemma_class_member_valid(g, night, u, v, t);
    assert(((v - 1) + 1) as u32 == v);
}

/// Valid steps only ever reach valid locations: a route whose first `lo`
/// entries are valid and whose later steps are valid is valid throughout.
proof fn lemma_steps_give_validity(g: Graph, night: Night, p: Seq<u32>, lo: int)
    requires
        g.wf(),
        1 <= lo <= p.len(),
        forall|i: int| 0 <= i < lo ==> valid_location(#[trigger] p[i]),
        forall|t: int| lo <= t < p.len() ==> valid_step(g, night, p[t - 1], #[trigger] p[t], t),
    ensures
        forall|i: int| 0 <= i < p.len() ==> valid_location(#[trigger] p[i]),
    decreases p.len() - lo,
{
    if lo < p.len() {
        lemma_class_member_valid(g, night, p[lo - 1], p[lo], lo);
        lemma_steps_give_validity(g, night, p, lo + 1);
    }
}

/// Extending the prefix by the step's target selects exactly the
/// completions that take that step next.
proof fn lemma_completion_step(g: Graph, night: Night, prefix: Seq<u32>, v: u32, p: Seq<u32>)
    requires
        1 <= prefix.len() <= night.spec_nb_moves(),
        valid_step(g, night, prefix.last(), v, prefix.len() as int),
    ensures
        is_completion(g, night, prefix.push(v), p) <==> (is_completion(g, night, prefix, p)
            && p[prefix.len() as int] == v),
{
    let n = prefix.len() as int;
    if is_completion(g, night, prefix.push(v), p) {
        assert(p.take(n + 1) == prefix.push(v));
        assert(p.take(n) =~= prefix) by {
            assert forall|i: int| 0 <= i < n implies p.take(n)[i] == prefix[i] by {
                assert(p.take(n + 1)[i] == prefix.push(v)[i]);
            }
        }
        assert(p[n] == p.take(n + 1)[n]);
        assert(prefix.push(v)[n] == v);
        assert(valid_step(g, night, p[n - 1], p[n], n)) by {
            assert(p[n - 1] == prefix[n - 1]);
        }
    }
    if is_completion(g, night, prefix, p) && p[n] == v {
        assert(p.take(n + 1) =~= prefix.push(v)) by {
            assert forall|i: int| 0 <= i < n + 1 implies p.take(n + 1)[i] == prefix.push(v)[i] by {
                if i < n {
                    assert(p.take(n)[i] == prefix[i]);
                }
            }
        }
    }
}

/// A prefix of full length completes only to itself, and only when it
/// covers the known locations.
proof fn lemma_completion_terminal(g: Graph, night: Night, prefix: Seq<u32>, p: Seq<u32>)
    requires
        prefix.len() == night.spec_nb_moves() + 1,
    ensures
        is_completion(g, night, prefix, p) <==> (p == prefix && covers(night, prefix)),
{
    if is_completion(g, night, prefix, p) {
        assert(p =~= prefix) by {
            assert(p.take(prefix.len() as int) == prefix);
            assert forall|i: int| 0 <= i < p.len() implies p[i] == prefix[i] by {
                assert(p.take(prefix.len() as int)[i] == prefix[i]);
            }
        }
    }
    if p == prefix && covers(night, prefix) {
        assert(p.take(prefix.len() as int) =~= prefix);
    }
}

/// The completions of the one-location prefix at the murder location are
/// exactly the solutions.
proof fn lemma_completion_is_solution(g: Graph, night: Night, p: Seq<u32>)
    requires
        g.wf(),
        night.wf(),
    ensures
        is_completion(g, night, seq![night.spec_murder_location()], p) <==> is_solution(
            g,
            night,
            p,
        ),
{
    let prefix = seq![night.spec_murder_location()];
    if is_completion(g, night, prefix, p) {
        assert(p[0] == p.take(1)[0]);
        assert(p[0] == night.spec_murder_location());
        assert(forall|i: int| 0 <= i < 1 ==> valid_location(#[trigger] p[i]));
        lemma_steps_give_validity(g, night, p, 1);
        assert(partial_path(g, night, p));
    }
    if is_solution(g, night, p) {
        assert(p.take(1) =~= prefix);
    }
}

/// A completion that visits a location outside the prefix contains a
/// walk from the current location to it within the remaining moves.
#[verifier::rlimit(100)]
proof fn lemma_completion_reaches(
    g: Graph,
    night: Night,
    prefix: Seq<u32>,
    target: u32,
    p: Seq<u32>,
)
    requires
        g.wf(),
        partial_path(g, night, prefix),
        1 <= prefix.len() <= night.spec_nb_moves(),
        !prefix.contains(target),
        is_completion(g, night, prefix, p),
        p.contains(target),
    ensures
        exists|q: Seq<u32>|
            #[trigger] union_path(g, q) && q.first() == prefix.last() && q.last() == target && q.len()
                - 1 <= night.spec_nb_moves() + 1 - prefix.len(),
{
    let n = prefix.len() as int;
    assert(forall|i: int| 0 <= i < n ==> valid_location(#[trigger] p[i])) by {
        assert forall|i: int| 0 <= i < n implies valid_location(#[trigger] p[i]) by {
            assert(p[i] == p.take(n)[i]);
            assert(valid_location(prefix[i]));
        }
    }
    lemma_steps_give_validity(g, night, p, n);
    let s = choose|s: int| 0 <= s < p.len() && p[s] == target;
    assert(s >= n) by {
        if s < n {
            assert(prefix[s] == p.take(n)[s]);
            assert(prefix.contains(target));
        }
    }
    let q = p.subrange(n - 1, s + 1);
    assert(union_path(g, q)) by {
        assert forall|t: int| 1 <= t < q.len() implies union_edge(g, q[t - 1], #[trigger] q[t]) by {
            assert(q[t - 1] == p[n - 1 + t - 1] && q[t] == p[n - 1 + t]);
            lemma_step_is_edge(g, night, p[n - 1 + t - 1], p[n - 1 + t], n - 1 + t);
        }
    }
    assert(q.first() == prefix.last()) by {
        assert(q[0] == p[n - 1]);
        assert(p[n - 1] == p.take(n)[n - 1]);
    }
    assert(q.last() == target);
    assert(q.len() - 1 == s - n + 1);
}

/// Pruning is sound: when a still-required location lies farther from the
/// current location than the moves that remain, no completion exists.
proof fn lemma_prune_sound(
    g: Graph,
    night: Night,
    d: Seq<Seq<u32>>,
    prefix: Seq<u32>,
    target: u32,
    p: Seq<u32>,
)
    requires
        g.wf(),
        night.wf(),
        distance_table_wf(g, d),
        partial_path(g, night, prefix),
        1 <= prefix.len() <= night.spec_nb_moves(),
        valid_location(target),
        !prefix.contains(target),
        is_completion(g, night, prefix, p),
        p.contains(target),
    ensures
        d[prefix.last() - 1][target - 1] <= night.spec_nb_moves() + 1 - prefix.len(),
{
    lemma_completion_reaches(g, night, prefix, target, p);
    let q = choose|q: Seq<u32>|
        #[trigger] union_path(g, q) && q.first() == prefix.last() && q.last() == target && q.len()
            - 1 <= night.spec_nb_moves() + 1 - prefix.len();
    lemma_distance_bounds_walk(g, d, q);
}

/// Every prefix of an admissible route is admissible.
proof fn lemma_partial_take(g: Graph, night: Night, p: Seq<u32>, n: int)
    requires
        partial_path(g, night, p),
        1 <= n <= p.len(),
    ensures
        partial_path(g, night, p.take(n)),
{
    let q = p.take(n);
    assert(q[0] == p[0]);
    assert forall|t: int| 1 <= t < q.len() implies valid_step(
        g,
        night,
        q[t - 1],
        #[trigger] q[t],
        t,
    ) by {
        assert(q[t - 1] == p[t - 1] && q[t] == p[t]);
    }
}

/// The solver: a graph and its precomputed distance table.
#[derive(Debug)]
pub struct Solver {
    graph: Graph,
    shortest_distances: Vec<Vec<u32>>,
}

impl Solver {
    /// The graph the solver was built over.
    pub closed spec fn spec_graph(&self) -> Graph {
        self.graph
    }

    /// The distance table.
    pub closed spec fn dist(&self) -> Seq<Seq<u32>> {
        matrix_view(self.shortest_distances@)
    }

    /// A well-formed solver holds a well-formed graph and that graph's
    /// distance table.
    pub open spec fn wf(&self) -> bool {
        &&& self.spec_graph().wf()
        &&& distance_table_wf(self.spec_graph(), self.dist())
    }

    /// Builds a solver by precomputing the distance table of the graph.
    pub fn from_graph(graph: Graph) -> (r: Solver)
        requires
            graph.wf(),
        ensures
            r.wf(),
            r.spec_graph() == graph,
    {
        let shortest_distances = Solver::precompute_shortest_distances(&graph);
        Solver { graph, shortest_distances }
    }

    /// Computes the all-pairs shortest distances over the union of both
    /// edge classes by triple-nested relaxation, with `UNREACHABLE` for
    /// pairs joined by no walk: each self-distance is zero, the matrix is
    /// symmetric, the triangle inequality holds for every triple, each
    /// listed edge measures at most one step, and every entry below the
    /// sentinel is the length of an actual walk.
    #[verifier::loop_isolation(false)]
    pub fn precompute_shortest_distances(graph: &Graph) -> (r: Vec<Vec<u32>>)
        requires
            graph.wf(),
        ensures
            distance_table_wf(*graph, matrix_view(r@)),
    {
        let mut dist = Solver::init_distances(graph);
        for k in 0..195usize
            invariant
                table_base(matrix_view(dist@)),
                closure_upto(matrix_view(dist@), k as int),
                edges_bounded(*graph, matrix_view(dist@)),
                entries_witnessed(*graph, matrix_view(dist@)),
        {
            let ghost d0 = matrix_view(dist@);
            Solver::relax_pass(&mut dist, k);
            proof {
                lemma_relax_step(*graph, d0, matrix_view(dist@), k as int);
            }
        }
        dist
    }

    /// Builds the starting matrix: the sentinel everywhere, one step for
    /// each listed edge (in both directions), zero on the diagonal.
    #[verifier::loop_isolation(false)]
    #[verifier::rlimit(60)]
    fn init_distances(graph: &Graph) -> (r: Vec<Vec<u32>>)
        requires
            graph.wf(),
        ensures
            table_base(matrix_view(r@)),
            edges_bounded(*graph, matrix_view(r@)),
            entries_witnessed(*graph, matrix_view(r@)),
    {
        let mut dist: Vec<Vec<u32>> = Vec::new();
        for i in 0..195usize
            invariant
                dist@.len() == i,
                forall|a: int| 0 <= a < i ==> (#[trigger] dist@[a])@.len() == 195,
                forall|a: int, b: int|
                    #![trigger dist@[a]@[b]]
                    0 <= a < i && 0 <= b < 195 ==> dist@[a]@[b] == 1000,
        {
            let mut row: Vec<u32> = Vec::new();
            for b in 0..195usize
                invariant
                    row@.len() == b,
                    forall|y: int| 0 <= y < b ==> row@[y] == 1000,
            {
                row.push(UNREACHABLE);
            }
            dist.push(row);
        }

        for l in 0..195usize
            invariant
                dist@.len() == 195,
                forall|a: int| 0 <= a < 195 ==> (#[trigger] dist@[a])@.len() == 195,
                forall|a: int| 0 <= a < l ==> #[trigger] dist@[a]@[a] == 0,
                forall|a: int| l <= a < 195 ==> #[trigger] dist@[a]@[a] == 1000,
                forall|a: int, b: int|
                    #![trigger dist@[a]@[b]]
                    0 <= a < 195 && 0 <= b < 195 && a != b ==> dist@[a]@[b] == (
                    if edge_written(*graph, a, b, l as int) {
                        1u32
                    } else {
                        1000u32
                    }),
        {
            let current: u32 = (l as u32) + 1;
            let all_cnx = graph.all_connections_for_location(&current).unwrap();
            for c in 0..all_cnx.len()
                invariant
                    dist@.len() == 195,
                    forall|a: int| 0 <= a < 195 ==> (#[trigger] dist@[a])@.len() == 195,
                    forall|a: int| 0 <= a < l ==> #[trigger] dist@[a]@[a] == 0,
                    forall|a: int| l <= a < 195 ==> #[trigger] dist@[a]@[a] == 1000,
                    forall|a: int, b: int|
                        #![trigger dist@[a]@[b]]
                        0 <= a < 195 && 0 <= b < 195 && a != b ==> dist@[a]@[b] == (
                        if edge_written(*graph, a, b, l as int) || ((a == l
                            && all_cnx@.take(c as int).contains((b + 1) as u32)) || (b == l
                            && all_cnx@.take(c as int).contains((a + 1) as u32))) {
                            1u32
                        } else {
                            1000u32
                        }),
            {
                let connection = all_cnx[c];
                proof {
                    assert(all_cnx@.contains(all_cnx@[c as int]));
                    lemma_listed_neighbor_valid(*graph, l as int, connection);
                    assert(all_cnx@.take(c + 1) =~= all_cnx@.take(c as int).push(
                        all_cnx@[c as int],
                    ));
                }
                if connection != current {
                    let y = (connection as usize) - 1;
                    dist[l].set(y, 1);
                    dist[y].set(l, 1);
                }
            }
            proof {
                assert(all_cnx@.take(all_cnx@.len() as int) =~= all_cnx@);
            }
            dist[l].set(l, 0);
        }

        proof {
            assert forall|a: int| 0 <= a < 195 implies (#[trigger] matrix_view(dist@)[a])
                == dist@[a]@ by {}
            assert forall|a: int, b: int|
                0 <= a < 195 && 0 <= b < 195 implies #[trigger] matrix_view(dist@)[a][b] == dist@[
                a
            ]@[b] by {}
            assert(table_base(matrix_view(dist@)));
            assert forall|a: int, b: int|
                0 <= a < 195 && 0 <= b < 195 implies (#[trigger] matrix_view(dist@)[a][b] == 1000
                || connects(*graph, a, b, matrix_view(dist@)[a][b] as int)) by {
                if a == b {
                    lemma_connects_self(*graph, a);
                } else if dist@[a]@[b] != 1000 {
                    assert(edge_written(*graph, a, b, 195));
                    assert(union_edge(*graph, (a + 1) as u32, (b + 1) as u32));
                    lemma_connects_edge(*graph, (a + 1) as u32, (b + 1) as u32);
                }
            }
            assert forall|u: u32, v: u32| #[trigger]
                union_edge(*graph, u, v) implies matrix_view(dist@)[u - 1][v - 1] <= 1 by {
                if u != v {
                    assert(edge_written(*graph, (u - 1) as int, (v - 1) as int, 195));
                }
            }
        }
        dist
    }

    /// One pass of the relaxation: brings every cell to the minimum of its
    /// old value and the two-leg route through intermediate `k`, keeping
    /// the mirror cell in step.
    #[verifier::loop_isolation(false)]
    #[verifier::rlimit(60)]
    fn relax_pass(dist: &mut Vec<Vec<u32>>, k: usize)
        requires
            k < 195,
            table_base(matrix_view(old(dist)@)),
        ensures
            table_shape(matrix_view(final(dist)@)),
            forall|a: int, b: int|
                #![trigger matrix_view(final(dist)@)[a][b]]
                0 <= a < 195 && 0 <= b < 195 ==> matrix_view(final(dist)@)[a][b] as int
                    == relax_val(matrix_view(old(dist)@), k as int, a, b),
    {
        let ghost d0 = matrix_view(dist@);
        proof {
            assert(dist@.len() == 195);
            assert forall|a: int| 0 <= a < 195 implies (#[trigger] dist@[a])@.len() == 195 by {
                assert(matrix_view(dist@)[a] == dist@[a]@);
            }
            assert forall|a: int, b: int|
                0 <= a < 195 && 0 <= b < 195 implies #[trigger] d0[a][b] == dist@[a]@[b] by {}
        }
        for i in 0..195usize
            invariant
                dist@.len() == 195,
                forall|a: int| 0 <= a < 195 ==> (#[trigger] dist@[a])@.len() == 195,
                forall|a: int, b: int|
                    #![trigger dist@[a]@[b]]
                    0 <= a < 195 && 0 <= b < 195 ==> dist@[a]@[b] as int == (if cell_touched(
                        a,
                        b,
                        i as int,
                        0,
                    ) {
                        relax_val(d0, k as int, a, b)
                    } else {
                        d0[a][b] as int
                    }),
        {
            for j in 0..195usize
                invariant
                    dist@.len() == 195,
                    forall|a: int| 0 <= a < 195 ==> (#[trigger] dist@[a])@.len() == 195,
                    forall|a: int, b: int|
                        #![trigger dist@[a]@[b]]
                        0 <= a < 195 && 0 <= b < 195 ==> dist@[a]@[b] as int == (if cell_touched(
                            a,
                            b,
                            i as int,
                            j as int,
                        ) {
                            relax_val(d0, k as int, a, b)
                        } else {
                            d0[a][b] as int
                        }),
            {
                let ghost ii = i as int;
                let ghost jj = j as int;
                let ghost kk = k as int;
                proof {
                    assert(d0[kk][kk] == 0);
                    assert(dist@[ii]@[kk] as int == d0[ii][kk] as int);
                    assert(dist@[kk]@[jj] as int == d0[kk][jj] as int);
                    assert(d0[ii][kk] <= 1000 && d0[kk][jj] <= 1000);
                }
                let d_ik = dist[i][k];
                let d_kj = dist[k][j];
                let dist_ikj = d_ik + d_kj;
                let ghost mcur = dist@;
                if dist[i][j] > dist_ikj {
                    dist[i].set(j, dist_ikj);
                    dist[j].set(i, dist_ikj);
                }
                proof {
                    assert(d0[jj][ii] == d0[ii][jj]);
                    assert(d0[jj][kk] == d0[kk][jj]);
                    assert(d0[ii][kk] == d0[kk][ii]);
                    assert(relax_val(d0, kk, jj, ii) == relax_val(d0, kk, ii, jj));
                    assert(mcur[ii]@[jj] as int == (if cell_touched(ii, jj, ii, jj) {
                        relax_val(d0, kk, ii, jj)
                    } else {
                        d0[ii][jj] as int
                    }));
                    assert(mcur[jj]@[ii] as int == (if cell_touched(jj, ii, ii, jj) {
                        relax_val(d0, kk, jj, ii)
                    } else {
                        d0[jj][ii] as int
                    }));
                    assert(cell_touched(ii, jj, ii, jj) == cell_touched(jj, ii, ii, jj));
                    assert(dist@[ii]@[jj] as int == relax_val(d0, kk, ii, jj));
                    assert(dist@[jj]@[ii] as int == relax_val(d0, kk, jj, ii));
                    assert forall|a: int, b: int|
                        0 <= a < 195 && 0 <= b < 195 implies #[trigger] dist@[a]@[b] as int == (
                    if cell_touched(a, b, ii, jj + 1) {
                        relax_val(d0, kk, a, b)
                    } else {
                        d0[a][b] as int
                    }) by {
                        if !((a == ii && b == jj) || (a == jj && b == ii)) {
                            assert(cell_touched(a, b, ii, jj + 1) == cell_touched(a, b, ii, jj));
                            assert(dist@[a]@[b] == mcur[a]@[b]);
                        }
                    }
                }
            }
        }
        proof {
            assert forall|a: int, b: int|
                0 <= a < 195 && 0 <= b < 195 implies #[trigger] matrix_view(dist@)[a][b] as int
                == relax_val(d0, k as int, a, b) by {
                assert(cell_touched(a, b, 195, 0));
                assert(matrix_view(dist@)[a][b] == dist@[a]@[b]);
            }
        }
    }

    /// The measured distance between two locations.
    fn distance_between_locations(&self, location: &u32, destination: &u32) -> (r: u32)
        requires
            self.wf(),
            valid_location(*location),
            valid_location(*destination),
        ensures
            r == self.dist()[*location - 1][*destination - 1],
    {
        proof {
            assert(self.dist()[*location - 1] == self.shortest_distances@[*location - 1]@);
        }
        self.shortest_distances[(*location as usize) - 1][(*destination as usize) - 1]
    }

    /// Enumerates every path of exactly the night's move budget that
    /// starts at the murder location, takes each turn's mandated edge
    /// class, is allowed by the derived knowledge at every turn, and
    /// visits every known location; returns `None` when there is none.
    pub fn solve_night(&self, night: Night) -> (r: Option<Vec<Vec<u32>>>)
        requires
            self.wf(),
            night.wf(),
        ensures
            r matches Some(paths) ==> solve_result_matches(
                self.spec_graph(),
                night,
                Some(paths.deep_view()),
            ),
            r is None ==> solve_result_matches(self.spec_graph(), night, None::<Seq<Seq<u32>>>),
    {
        let ghost g = self.spec_graph();
        let mut possible_paths: Vec<Vec<u32>> = Vec::new();
        let mut current_path: Vec<u32> = Vec::new();
        let mut required_locations: Vec<u32> = Vec::new();
        let murder = *night.murder_location();
        current_path.push(murder);

        let known_ref = night.jack_known_locations();
        for i in 0..known_ref.len()
            invariant
                distinct_values(required_locations@),
                forall|v: u32|
                    #[trigger] required_locations@.contains(v) <==> (known_ref@.take(
                        i as int,
                    ).contains(v) && v != murder),
        {
            let v = known_ref[i];
            proof {
                assert(known_ref@.take(i + 1) =~= known_ref@.take(i as int).push(
                    known_ref@[i as int],
                ));
            }
            if v != murder && !contains_location(&required_locations, v) {
                required_locations.push(v);
            }
        }
        proof {
            assert(known_ref@.take(known_ref@.len() as int) =~= known_ref@);
            assert(current_path@ =~= seq![murder]);
            assert(partial_path(g, night, current_path@));
            assert forall|v: u32| #[trigger]
                required_locations@.contains(v) <==> (night.spec_known().contains(v)
                && !current_path@.contains(v)) by {
                assert(current_path@.contains(v) <==> v == murder);
            }
        }

        self.find_next_possible_locations(
            &night,
            &mut possible_paths,
            &mut current_path,
            &mut required_locations,
            1,
        );

        proof {
            assert forall|i: int|
                0 <= i < possible_paths@.len() implies is_solution(
                g,
                night,
                #[trigger] possible_paths@[i]@,
            ) by {
                lemma_completion_is_solution(g, night, possible_paths@[i]@);
            }
            assert forall|p: Seq<u32>| #[trigger]
                is_solution(g, night, p) implies exists|i: int|
                0 <= i < possible_paths@.len() && possible_paths@[i]@ == p by {
                lemma_completion_is_solution(g, night, p);
                assert(is_completion(g, night, seq![night.spec_murder_location()], p));
            }
        }

        if possible_paths.len() == 0 {
            proof {
                assert forall|p: Seq<u32>| !(#[trigger] is_solution(g, night, p)) by {
                    if is_solution(g, night, p) {
                        let i = choose|i: int|
                            0 <= i < possible_paths@.len() && possible_paths@[i]@ == p;
                    }
                }
            }
            return None;
        }
        proof {
            assert forall|i: int|
                0 <= i < possible_paths@.len() implies #[trigger] possible_paths.deep_view()[i]
                == possible_paths@[i]@ by {
                assert(possible_paths.deep_view()[i] =~= possible_paths@[i]@);
            }
            assert forall|p: Seq<u32>| #[trigger]
                is_solution(g, night, p) implies possible_paths.deep_view().contains(p) by {
                let i = choose|i: int| 0 <= i < possible_paths@.len() && possible_paths@[i]@ == p;
                assert(possible_paths.deep_view()[i] == p);
            }
        }
        Some(possible_paths)
    }

    /// Depth-first backtracking: extends the current path one eligible
    /// neighbour at a time, abandoning a branch as soon as some
    /// still-required location is measurably out of reach, and records
    /// every completion; the path and the required set are restored on
    /// return.
    #[verifier::loop_isolation(false)]
    #[verifier::rlimit(100)]
    fn find_next_possible_locations(
        &self,
        night: &Night,
        possible_paths: &mut Vec<Vec<u32>>,
        current_path: &mut Vec<u32>,
        required_locations: &mut Vec<u32>,
        current_turn: u64,
    )
        requires
            self.wf(),
            night.wf(),
            1 <= current_turn <= night.spec_nb_moves() + 1,
            old(current_path)@.len() == current_turn,
            partial_path(self.spec_graph(), *night, old(current_path)@),
            distinct_values(old(required_locations)@),
            forall|v: u32|
                #[trigger] old(required_locations)@.contains(v) <==> (night.spec_known().contains(v) && !old(current_path)@.contains(v)),
        ensures
            final(current_path)@ == old(current_path)@,
            final(required_locations)@.len() == old(required_locations)@.len(),
            distinct_values(final(required_locations)@),
            forall|v: u32|
                #[trigger] final(required_locations)@.contains(v) <==> old(required_locations)@.contains(v),
            old(possible_paths)@.len() <= final(possible_paths)@.len(),
            forall|i: int|
                0 <= i < old(possible_paths)@.len() ==> #[trigger] final(possible_paths)@[i] == old(possible_paths)@[i],
            forall|i: int|
                old(possible_paths)@.len() <= i < final(possible_paths)@.len()
                    ==> is_completion(
                    self.spec_graph(),
                    *night,
                    old(current_path)@,
                    (#[trigger] final(possible_paths)@[i])@,
                ),
            forall|p: Seq<u32>|
                #[trigger] is_completion(self.spec_graph(), *night, old(current_path)@, p)
                    ==> exists|i: int|
                    old(possible_paths)@.len() <= i < final(possible_paths)@.len() && (final(possible_paths)@[i])@ == p,
        decreases night.spec_nb_moves() + 1 - current_turn,
    {
        let ghost g = self.spec_graph();
        let ghost prefix = current_path@;
        let ghost req0 = required_locations@;
        let ghost pp0 = possible_paths@;
        let nb_moves = *night.jack_nb_moves();

        if current_turn > nb_moves as u64 {
            proof {
                lemma_completion_terminal(g, *night, prefix, prefix);
            }
            if required_locations.len() == 0 {
                proof {
                    assert forall|i: int|
                        0 <= i < night.spec_known().len() implies prefix.contains(
                        #[trigger] night.spec_known()[i],
                    ) by {
                        let v = night.spec_known()[i];
                        assert(!req0.contains(v));
                    }
                    assert(covers(*night, prefix));
                }
                let copied = Self::copy_path(current_path);
                possible_paths.push(copied);
                proof {
                    assert forall|p: Seq<u32>| #[trigger]
                        is_completion(g, *night, prefix, p) implies exists|i: int|
                        pp0.len() <= i < possible_paths@.len() && (possible_paths@[i])@ == p by {
                        lemma_completion_terminal(g, *night, prefix, p);
                        assert((possible_paths@[pp0.len() as int])@ == prefix);
                    }
                }
            } else {
                proof {
                    let w = req0[0];
                    assert(req0.contains(w));
                    assert forall|p: Seq<u32>| !(#[trigger] is_completion(g, *night, prefix, p)) by {
                        if is_completion(g, *night, prefix, p) {
                            lemma_completion_terminal(g, *night, prefix, p);
                            let i = choose|i: int|
                                0 <= i < night.spec_known().len() && night.spec_known()[i] == w;
                            assert(prefix.contains(night.spec_known()[i]));
                        }
                    }
                }
            }
            return ;
        }

        let last_idx = current_path.len() - 1;
        let current_location = current_path[last_idx];
        let moves_left: u64 = nb_moves as u64 + 1 - current_turn;

        for ri in 0..required_locations.len()
            invariant
                current_path@ == prefix,
                required_locations@ == req0,
                possible_paths@ == pp0,
        {
            let target = required_locations[ri];
            proof {
                assert(req0.contains(req0[ri as int]));
                lemma_known_member_valid(*night, target);
            }
            let d = self.distance_between_locations(&current_location, &target);
            if d as u64 > moves_left {
                proof {
                    assert forall|p: Seq<u32>| !(#[trigger] is_completion(g, *night, prefix, p)) by {
                        if is_completion(g, *night, prefix, p) {
                            assert(p.contains(target)) by {
                                let i = choose|i: int|
                                    0 <= i < night.spec_known().len() && night.spec_known()[i]
                                        == target;
                                assert(p.contains(night.spec_known()[i]));
                            }
                            lemma_prune_sound(g, *night, self.dist(), prefix, target, p);
                        }
                    }
                }
                return ;
            }
        }

        let move_type = night.jack_move_type_for_turn(&(current_turn as u32));
        let connections = match move_type {
            MoveType::Alleyway => self.graph.alleyway_connections_for_location(&current_location),
            MoveType::Regular => self.graph.connections_for_location(&current_location),
        }.unwrap();
        proof {
            assert(connections@ == class_list(g, *night, current_location, current_turn as u32));
        }

        for ci in 0..connections.len()
            invariant
                current_path@ == prefix,
                required_locations@.len() == req0.len(),
                distinct_values(required_locations@),
                forall|v: u32|
                    #[trigger] required_locations@.contains(v) <==> req0.contains(v),
                pp0.len() <= possible_paths@.len(),
                forall|i: int|
                    0 <= i < pp0.len() ==> #[trigger] possible_paths@[i] == pp0[i],
                forall|i: int|
                    pp0.len() <= i < possible_paths@.len() ==> is_completion(
                        g,
                        *night,
                        prefix,
                        (#[trigger] possible_paths@[i])@,
                    ),
                forall|p: Seq<u32>|
                    (#[trigger] is_completion(g, *night, prefix, p) && exists|cj: int|
                        0 <= cj < ci && connections@[cj] == p[prefix.len() as int]) ==> exists|
                        i: int,
                    |
                        pp0.len() <= i < possible_paths@.len() && (possible_paths@[i])@ == p,
        {
            let connection = connections[ci];
            proof {
                assert(connections@.contains(connections@[ci as int]));
                lemma_listed_neighbor_valid(g, current_location - 1, connection);
            }
            let status = night.jack_visit_status_for_location(&connection);
            let should_visit = match status {
                Location::NeverVisitedAsOf(turn2) => !(current_turn <= *turn2 as u64),
                Location::VisitedAfter(turn2) => !(current_turn <= *turn2 as u64),
                _ => true,
            };
            proof {
                assert(should_visit == eligible(*night, connection, current_turn as int));
            }
            if should_visit {
                proof {
                    assert(valid_step(g, *night, current_location, connection, current_turn as int));
                    assert(prefix.last() == current_location);
                }
                current_path.push(connection);
                let removed = Self::take_out(required_locations, connection);
                let ghost prefix2 = current_path@;
                let ghost req_in = required_locations@;
                let ghost pp_before = possible_paths@;
                proof {
                    assert(prefix2 == prefix.push(connection));
                    assert(partial_path(g, *night, prefix2)) by {
                        assert forall|t: int|
                            1 <= t < prefix2.len() implies valid_step(
                            g,
                            *night,
                            prefix2[t - 1],
                            #[trigger] prefix2[t],
                            t,
                        ) by {
                            if t < prefix.len() {
                                assert(prefix2[t - 1] == prefix[t - 1] && prefix2[t] == prefix[t]);
                            } else {
                                assert(prefix2[t - 1] == prefix.last() && prefix2[t] == connection);
                            }
                        }
                    }
                    assert forall|v: u32|
                        #[trigger] req_in.contains(v) <==> (night.spec_known().contains(v)
                        && !prefix2.contains(v)) by {
                        assert(prefix2.contains(v) <==> (prefix.contains(v) || v == connection));
                    }
                }
                self.find_next_possible_locations(
                    night,
                    possible_paths,
                    current_path,
                    required_locations,
                    current_turn + 1,
                );
                let ghost ret_req = required_locations@;
                let _last = current_path.pop();
                proof {
                    assert(current_path@ =~= prefix);
                    assert(!ret_req.contains(connection));
                }
                if removed {
                    required_locations.push(connection);
                }
                proof {
                    if removed {
                        assert(required_locations@ == ret_req.push(connection));
                        assert(required_locations@.len() == req0.len());
                        assert forall|a: int, b: int|
                            0 <= a < b < required_locations@.len() implies required_locations@[a]
                            != required_locations@[b] by {
                            if b == required_locations@.len() - 1 {
                                assert(ret_req.contains(ret_req[a]));
                            }
                        }
                        assert forall|v: u32|
                            #[trigger] required_locations@.contains(v) <==> req0.contains(v) by {
                            assert(required_locations@.contains(v) <==> (ret_req.contains(v) || v
                                == connection));
                            assert(ret_req.contains(v) <==> req_in.contains(v));
                        }
                    } else {
                        assert(required_locations@ == ret_req);
                        assert forall|v: u32|
                            #[trigger] required_locations@.contains(v) <==> req0.contains(v) by {
                            assert(ret_req.contains(v) <==> req_in.contains(v));
                        }
                    }
                    assert forall|p: Seq<u32>|
                        (#[trigger] is_completion(g, *night, prefix, p) && exists|cj: int|
                            0 <= cj < ci + 1 && connections@[cj] == p[prefix.len() as int])
                        implies exists|i: int|
                        pp0.len() <= i < possible_paths@.len() && (possible_paths@[i])@ == p by {
                        if p[prefix.len() as int] == connection {
                            lemma_completion_step(g, *night, prefix, connection, p);
                            assert(is_completion(g, *night, prefix2, p));
                            let i = choose|i: int|
                                pp_before.len() <= i < possible_paths@.len() && (possible_paths@[
                                    i
                                ])@ == p;
                        } else {
                            let cj = choose|cj: int|
                                0 <= cj < ci + 1 && connections@[cj] == p[prefix.len() as int];
                            assert(cj != ci);
                            let i = choose|i: int|
                                pp0.len() <= i < pp_before.len() && (pp_before[i])@ == p;
                            assert(possible_paths@[i] == pp_before[i]);
                        }
                    }
                    assert forall|i: int|
                        pp0.len() <= i < possible_paths@.len() implies is_completion(
                        g,
                        *night,
                        prefix,
                        (#[trigger] possible_paths@[i])@,
                    ) by {
                        if pp_before.len() <= i {
                            lemma_completion_step(
                                g,
                                *night,
                                prefix,
                                connection,
                                (possible_paths@[i])@,
                            );
                        } else {
                            assert(possible_paths@[i] == pp_before[i]);
                        }
                    }
                }
            } else {
                proof {
                    assert forall|p: Seq<u32>|
                        (#[trigger] is_completion(g, *night, prefix, p) && exists|cj: int|
                            0 <= cj < ci + 1 && connections@[cj] == p[prefix.len() as int])
                        implies exists|i: int|
                        pp0.len() <= i < possible_paths@.len() && (possible_paths@[i])@ == p by {
                        if p[prefix.len() as int] == connection {
                            assert(valid_step(
                                g,
                                *night,
                                p[prefix.len() - 1],
                                p[prefix.len() as int],
                                prefix.len() as int,
                            ));
                            assert(eligible(*night, connection, prefix.len() as int));
                        }
                    }
                }
            }
        }
        proof {
            assert forall|p: Seq<u32>| #[trigger]
                is_completion(g, *night, prefix, p) implies exists|i: int|
                pp0.len() <= i < possible_paths@.len() && (possible_paths@[i])@ == p by {
                assert(valid_step(
                    g,
                    *night,
                    p[prefix.len() - 1],
                    p[prefix.len() as int],
                    prefix.len() as int,
                ));
                assert(connections@.contains(p[prefix.len() as int]));
                let cj = choose|cj: int|
                    0 <= cj < connections@.len() && connections@[cj] == p[prefix.len() as int];
            }
        }
    }

    /// Copies a path so that an accepted solution never aliases the live
    /// backtracking stack.
    fn copy_path(path: &Vec<u32>) -> (r: Vec<u32>)
        ensures
            r@ == path@,
    {
        let mut out: Vec<u32> = Vec::new();
        for i in 0..path.len()
            invariant
                out@ == path@.take(i as int),
        {
            out.push(path[i]);
            proof {
                assert(path@.take(i + 1) =~= path@.take(i as int).push(path@[i as int]));
            }
        }
        proof {
            assert(path@.take(path@.len() as int) =~= path@);
        }
        out
    }

    /// Removes the value from a duplicate-free list if present, reporting
    /// whether it was there.
    #[verifier::loop_isolation(false)]
    fn take_out(list: &mut Vec<u32>, value: u32) -> (removed: bool)
        requires
            distinct_values(old(list)@),
        ensures
            distinct_values(final(list)@),
            removed == old(list)@.contains(value),
            removed ==> final(list)@.len() == old(list)@.len() - 1,
            !removed ==> final(list)@ == old(list)@,
            forall|v: u32|
                #[trigger] final(list)@.contains(v) <==> (old(list)@.contains(v) && v != value),
    {
        let ghost l0 = list@;
        let mut found = false;
        let mut idx: usize = 0;
        for i in 0..list.len()
            invariant
                !found ==> !l0.take(i as int).contains(value),
                found ==> idx < l0.len() && l0[idx as int] == value,
        {
            proof {
                assert(l0.take(i + 1) =~= l0.take(i as int).push(l0[i as int]));
            }
            if !found && list[i] == value {
                found = true;
                idx = i;
            }
        }
        proof {
            assert(l0.take(l0.len() as int) =~= l0);
        }
        if !found {
            proof {
                assert forall|v: u32|
                    #[trigger] list@.contains(v) <==> (l0.contains(v) && v != value) by {}
            }
            return false;
        }
        list.swap_remove(idx);
        proof {
            let l1 = list@;
            assert(l1 =~= l0.update(idx as int, l0.last()).drop_last());
            assert forall|v: u32| #[trigger] l1.contains(v) implies (l0.contains(v) && v != value) by {
                let i = choose|i: int| 0 <= i < l1.len() && l1[i] == v;
                if i == idx as int {
                    assert(l0[l0.len() - 1] == v);
                } else {
                    assert(l0[i] == v);
                }
                if v == value {
                    if i == idx as int {
                        assert(l0[l0.len() - 1] == l0[idx as int] && idx as int != l0.len() - 1);
                    } else {
                        assert(l0[i] == l0[idx as int]);
                    }
                }
            }
            assert forall|v: u32| (l0.contains(v) && v != value) implies #[trigger] l1.contains(v) by {
                let i = choose|i: int| 0 <= i < l0.len() && l0[i] == v;
                if i < l0.len() - 1 {
                    assert(l1[i] == v);
                } else {
                    assert(idx as int != i);
                    assert(l1[idx as int] == v);
                }
            }
            assert forall|a: int, b: int| 0 <= a < b < l1.len() implies l1[a] != l1[b] by {
                if b == idx as int {
                    assert(l1[b] == l0[l0.len() - 1]);
                } else if a == idx as int {
                    assert(l1[a] == l0[l0.len() - 1]);
                }
            }
        }
        true
    }

    /// Breadth-first enumeration without distance pruning: grows every
    /// admissible partial path level by level, then keeps the full-length
    /// paths that visit every known location. Slower than the pruning
    /// search, but it finds the same solutions.
    #[verifier::loop_isolation(false)]
    #[verifier::rlimit(100)]
    pub fn solve_night_non_recurs_slow(&self, night: Night) -> (r: Option<Vec<Vec<u32>>>)
        requires
            self.wf(),
            night.wf(),
        ensures
            r matches Some(paths) ==> solve_result_matches(
                self.spec_graph(),
                night,
                Some(paths.deep_view()),
            ),
            r is None ==> solve_result_matches(self.spec_graph(), night, None::<Seq<Seq<u32>>>),
    {
        let ghost g = self.spec_graph();
        let max_nb_moves = *night.jack_nb_moves();
        let mut frontier: Vec<Vec<u32>> = Vec::new();
        let mut start_path: Vec<u32> = Vec::new();
        start_path.push(*night.murder_location());
        frontier.push(start_path);
        proof {
            assert((frontier@[0])@ =~= seq![night.spec_murder_location()]);
            assert(partial_path(g, night, (frontier@[0])@));
            assert forall|p: Seq<u32>|
                #[trigger] partial_path(g, night, p) && p.len() == 1 implies exists|i: int|
                0 <= i < frontier@.len() && (frontier@[i])@ == p by {
                assert(p =~= (frontier@[0])@);
            }
        }

        let mut turn: u64 = 1;
        while turn <= max_nb_moves as u64
            invariant
                1 <= turn <= max_nb_moves as u64 + 1,
                forall|i: int|
                    0 <= i < frontier@.len() ==> partial_path(g, night, (#[trigger] frontier@[i])@)
                        && (frontier@[i])@.len() == turn,
                forall|p: Seq<u32>|
                    #[trigger] partial_path(g, night, p) && p.len() == turn ==> exists|i: int|
                        0 <= i < frontier@.len() && (frontier@[i])@ == p,
            decreases max_nb_moves as u64 + 1 - turn,
        {
            let mut next_frontier: Vec<Vec<u32>> = Vec::new();
            for fi in 0..frontier.len()
                invariant
                    forall|i: int|
                        0 <= i < next_frontier@.len() ==> partial_path(
                            g,
                            night,
                            (#[trigger] next_frontier@[i])@,
                        ) && (next_frontier@[i])@.len() == turn + 1,
                    forall|p: Seq<u32>|
                        (#[trigger] partial_path(g, night, p) && p.len() == turn + 1 && exists|
                            fj: int,
                        |
                            0 <= fj < fi && (frontier@[fj])@ == p.take(turn as int)) ==> exists|
                            i: int,
                        |
                            0 <= i < next_frontier@.len() && (next_frontier@[i])@ == p,
            {
                let path_ref = &frontier[fi];
                let last_idx = path_ref.len() - 1;
                let current_location = path_ref[last_idx];
                let ghost base = path_ref@;
                proof {
                    assert(base.last() == current_location);
                }
                let move_type = night.jack_move_type_for_turn(&(turn as u32));
                let connections = match move_type {
                    MoveType::Alleyway => self.graph.alleyway_connections_for_location(
                        &current_location,
                    ),
                    MoveType::Regular => self.graph.connections_for_location(&current_location),
                }.unwrap();
                proof {
                    assert(connections@ == class_list(g, night, current_location, turn as u32));
                }
                for ci in 0..connections.len()
                    invariant
                        forall|i: int|
                            0 <= i < next_frontier@.len() ==> partial_path(
                                g,
                                night,
                                (#[trigger] next_frontier@[i])@,
                            ) && (next_frontier@[i])@.len() == turn + 1,
                        forall|p: Seq<u32>|
                            (#[trigger] partial_path(g, night, p) && p.len() == turn + 1 && exists|
                                fj: int,
                            |
                                0 <= fj < fi && (frontier@[fj])@ == p.take(turn as int)) ==> exists|
                                i: int,
                            |
                                0 <= i < next_frontier@.len() && (next_frontier@[i])@ == p,
                        forall|p: Seq<u32>|
                            (#[trigger] partial_path(g, night, p) && p.len() == turn + 1 && p.take(
                                turn as int,
                            ) == base && exists|cj: int|
                                0 <= cj < ci && connections@[cj] == p[turn as int]) ==> exists|
                                i: int,
                            |
                                0 <= i < next_frontier@.len() && (next_frontier@[i])@ == p,
                {
                    let connection = connections[ci];
                    proof {
                        assert(connections@.contains(connections@[ci as int]));
                        lemma_listed_neighbor_valid(g, current_location - 1, connection);
                    }
                    let status = night.jack_visit_status_for_location(&connection);
                    let should_visit = match status {
                        Location::NeverVisitedAsOf(turn2) => !(turn <= *turn2 as u64),
                        Location::VisitedAfter(turn2) => !(turn <= *turn2 as u64),
                        _ => true,
                    };
                    proof {
                        assert(should_visit == eligible(night, connection, turn as int));
                    }
                    if should_visit {
                        let mut new_path = Self::copy_path(path_ref);
                        new_path.push(connection);
                        let ghost np = new_path@;
                        proof {
                            assert(np == base.push(connection));
                            assert(valid_step(g, night, current_location, connection, turn as int));
                            assert(partial_path(g, night, np)) by {
                                assert forall|t: int|
                                    1 <= t < np.len() implies valid_step(
                                    g,
                                    night,
                                    np[t - 1],
                                    #[trigger] np[t],
                                    t,
                                ) by {
                                    if t < base.len() {
                                        assert(np[t - 1] == base[t - 1] && np[t] == base[t]);
                                    } else {
                                        assert(np[t - 1] == base.last() && np[t] == connection);
                                    }
                                }
                            }
                        }
                        let ghost nf_prev = next_frontier@;
                        next_frontier.push(new_path);
                        proof {
                            assert forall|p: Seq<u32>|
                                (#[trigger] partial_path(g, night, p) && p.len() == turn + 1
                                    && p.take(turn as int) == base && exists|cj: int|
                                    0 <= cj < ci + 1 && connections@[cj] == p[turn as int])
                                implies exists|i: int|
                                0 <= i < next_frontier@.len() && (next_frontier@[i])@ == p by {
                                if p[turn as int] == connection {
                                    assert(p =~= np) by {
                                        assert forall|x: int| 0 <= x < p.len() implies p[x] == np[x] by {
                                            if x < turn as int {
                                                assert(p.take(turn as int)[x] == base[x]);
                                            }
                                        }
                                    }
                                    assert((next_frontier@[next_frontier@.len() - 1])@ == p);
                                } else {
                                    let i = choose|i: int|
                                        0 <= i < nf_prev.len() && (nf_prev[i])@ == p;
                                    assert(next_frontier@[i] == nf_prev[i]);
                                }
                            }
                            assert forall|p: Seq<u32>|
                                (#[trigger] partial_path(g, night, p) && p.len() == turn + 1
                                    && exists|fj: int|
                                    0 <= fj < fi && (frontier@[fj])@ == p.take(turn as int))
                                implies exists|i: int|
                                0 <= i < next_frontier@.len() && (next_frontier@[i])@ == p by {
                                let i = choose|i: int| 0 <= i < nf_prev.len() && (nf_prev[i])@ == p;
                                assert(next_frontier@[i] == nf_prev[i]);
                            }
                        }
                    } else {
                        proof {
                            assert forall|p: Seq<u32>|
                                (#[trigger] partial_path(g, night, p) && p.len() == turn + 1
                                    && p.take(turn as int) == base && exists|cj: int|
                                    0 <= cj < ci + 1 && connections@[cj] == p[turn as int])
                                implies exists|i: int|
                                0 <= i < next_frontier@.len() && (next_frontier@[i])@ == p by {
                                if p[turn as int] == connection {
                                    assert(valid_step(
                                        g,
                                        night,
                                        p[turn - 1],
                                        p[turn as int],
                                        turn as int,
                                    ));
                                    assert(eligible(night, connection, turn as int));
                                }
                            }
                        }
                    }
                }
                proof {
                    assert forall|p: Seq<u32>|
                        (#[trigger] partial_path(g, night, p) && p.len() == turn + 1 && exists|
                            fj: int,
                        |
                            0 <= fj < fi + 1 && (frontier@[fj])@ == p.take(turn as int))
                        implies exists|i: int|
                        0 <= i < next_frontier@.len() && (next_frontier@[i])@ == p by {
                        let fj = choose|fj: int|
                            0 <= fj < fi + 1 && (frontier@[fj])@ == p.take(turn as int);
                        if fj == fi {
                            assert(p.take(turn as int) == base);
                            assert(valid_step(g, night, p[turn - 1], p[turn as int], turn as int));
                            assert(p[turn - 1] == p.take(turn as int)[turn - 1]);
                            assert(p[turn - 1] == current_location);
                            assert(connections@.contains(p[turn as int]));
                            let cj = choose|cj: int|
                                0 <= cj < connections@.len() && connections@[cj] == p[turn as int];
                        }
                    }
                }
            }
            frontier = next_frontier;
            proof {
                assert forall|p: Seq<u32>|
                    #[trigger] partial_path(g, night, p) && p.len() == turn + 1 implies exists|
                    i: int,
                |
                    0 <= i < frontier@.len() && (frontier@[i])@ == p by {
                    lemma_partial_take(g, night, p, turn as int);
                }
            }
            turn = turn + 1;
        }

        let mut possible_paths: Vec<Vec<u32>> = Vec::new();
        let known_ref = night.jack_known_locations();
        for fi in 0..frontier.len()
            invariant
                forall|i: int|
                    0 <= i < possible_paths@.len() ==> is_solution(
                        g,
                        night,
                        (#[trigger] possible_paths@[i])@,
                    ),
                forall|p: Seq<u32>|
                    (#[trigger] is_solution(g, night, p) && exists|fj: int|
                        0 <= fj < fi && (frontier@[fj])@ == p) ==> exists|i: int|
                        0 <= i < possible_paths@.len() && (possible_paths@[i])@ == p,
        {
            let path_ref = &frontier[fi];
            let mut all_found = true;
            for ki in 0..known_ref.len()
                invariant
                    all_found <==> (forall|k: int|
                        0 <= k < ki ==> path_ref@.contains(#[trigger] known_ref@[k])),
            {
                if !contains_location(path_ref, known_ref[ki]) {
                    all_found = false;
                }
            }
            let ghost pp_prev = possible_paths@;
            if all_found {
                proof {
                    assert(covers(night, path_ref@));
                    assert(is_solution(g, night, path_ref@));
                }
                possible_paths.push(Self::copy_path(path_ref));
            }
            proof {
                assert forall|p: Seq<u32>|
                    (#[trigger] is_solution(g, night, p) && exists|fj: int|
                        0 <= fj < fi + 1 && (frontier@[fj])@ == p) implies exists|i: int|
                    0 <= i < possible_paths@.len() && (possible_paths@[i])@ == p by {
                    let fj = choose|fj: int| 0 <= fj < fi + 1 && (frontier@[fj])@ == p;
                    if fj == fi {
                        assert(p == path_ref@);
                        assert(all_found);
                        assert((possible_paths@[possible_paths@.len() - 1])@ == p);
                    } else {
                        let i = choose|i: int| 0 <= i < pp_prev.len() && (pp_prev[i])@ == p;
                        assert(possible_paths@[i] == pp_prev[i]);
                    }
                }
            }
        }

        proof {
            assert forall|p: Seq<u32>| #[trigger]
                is_solution(g, night, p) implies exists|i: int|
                0 <= i < possible_paths@.len() && (possible_paths@[i])@ == p by {
                assert(partial_path(g, night, p) && p.len() == turn);
            }
        }
        if possible_paths.len() == 0 {
            proof {
                assert forall|p: Seq<u32>| !(#[trigger] is_solution(g, night, p)) by {
                    if is_solution(g, night, p) {
                        let i = choose|i: int|
                            0 <= i < possible_paths@.len() && (possible_paths@[i])@ == p;
                    }
                }
            }
            return None;
        }
        proof {
            assert forall|i: int|
                0 <= i < possible_paths@.len() implies #[trigger] possible_paths.deep_view()[i]
                == (possible_paths@[i])@ by {
                assert(possible_paths.deep_view()[i] =~= (possible_paths@[i])@);
            }
            assert forall|p: Seq<u32>| #[trigger]
                is_solution(g, night, p) implies possible_paths.deep_view().contains(p) by {
                let i = choose|i: int| 0 <= i < possible_paths@.len() && (possible_paths@[i])@ == p;
                assert(possible_paths.deep_view()[i] == p);
            }
        }
        Some(possible_paths)
    }
}

/// The two enumeration strategies agree: on one graph and night, the
/// pruning depth-first search and the unpruned breadth-first search both
/// succeed or both fail, and when they succeed they return the same set
/// of paths.
pub proof fn lemma_strategies_agree(
    g: Graph,
    night: Night,
    r1: Option<Seq<Seq<u32>>>,
    r2: Option<Seq<Seq<u32>>>,
)
    requires
        solve_result_matches(g, night, r1),
        solve_result_matches(g, night, r2),
    ensures
        r1 is Some <==> r2 is Some,
        r1 matches Some(a) ==> r2 matches Some(b) ==> a.to_set() == b.to_set(),
{
    broadcast use vstd::seq_lib::group_seq_properties;

    if r1 is Some && r2 is None {
        let a = r1->0;
        assert(is_solution(g, night, a[0]));
    }
    if r2 is Some && r1 is None {
        let b = r2->0;
        assert(is_solution(g, night, b[0]));
    }
    if r1 is Some && r2 is Some {
        let a = r1->0;
        let b = r2->0;
        assert forall|p: Seq<u32>| #[trigger] a.to_set().contains(p) implies b.to_set().contains(
            p,
        ) by {
            assert(a.contains(p));
            let i = choose|i: int| 0 <= i < a.len() && a[i] == p;
            assert(is_solution(g, night, p));
            assert(b.contains(p));
        }
        assert forall|p: Seq<u32>| #[trigger] b.to_set().contains(p) implies a.to_set().contains(
            p,
        ) by {
            assert(b.contains(p));
            let i = choose|i: int| 0 <= i < b.len() && b[i] == p;
            assert(is_solution(g, night, p));
            assert(a.contains(p));
        }
        assert(a.to_set() =~= b.to_set());
    }
}

/// No solution places the agent at a location on a turn the knowledge
/// rules out: where a location's status says it was not visited up to
/// some turn, a solution stands there only strictly later.
pub proof fn lemma_solution_respects_knowledge(g: Graph, night: Night, p: Seq<u32>, t: int)
    requires
        is_solution(g, night, p),
        1 <= t < p.len(),
    ensures
        night.spec_statuses()[p[t] - 1] matches Location::NeverVisitedAsOf(t2) ==> t > t2,
        night.spec_statuses()[p[t] - 1] matches Location::VisitedAfter(t2) ==> t > t2,
{
    assert(valid_step(g, night, p[t - 1], p[t], t));
    assert(eligible(night, p[t], t));
}

} // verus!
