//! The dependency graph of a command list as the topological iterator encodes
//! it, and the facts its correctness rests on.

use vstd::prelude::*;
use crate::error::ExplorerError;
use crate::explore::explorer::CmdNode;
use vstd::set_lib::{lemma_int_range, lemma_len_subset, set_int_range};
use vstd::arithmetic::div_mod::{lemma_mod_self_0, lemma_small_mod};

verus! {

// ---------------------------------------------------------------------------
// The dependency graph as the iterator sees it.
// ---------------------------------------------------------------------------

/// Node `i` exists and is not marked as failed.
pub open spec fn live(nodes: Seq<CmdNode>, failed: Set<int>, i: int) -> bool {
    0 <= i < nodes.len() && !failed.contains(i)
}

/// The dependency lists of the live nodes among the first `n`, concatenated.
pub open spec fn dep_list(nodes: Seq<CmdNode>, failed: Set<int>, n: int) -> Seq<u8>
    decreases n,
{
    if n <= 0 {
        Seq::empty()
    } else {
        dep_list(nodes, failed, n - 1) + (if failed.contains(n - 1) {
            Seq::empty()
        } else {
            nodes[n - 1].deps@
        })
    }
}

/// The edges `(node, dependency)` of the live nodes among the first `n`, node by
/// node and, within a node, in the order of its dependency list.
pub open spec fn edge_list(nodes: Seq<CmdNode>, failed: Set<int>, n: int) -> Seq<(u8, u8)>
    decreases n,
{
    if n <= 0 {
        Seq::empty()
    } else {
        edge_list(nodes, failed, n - 1) + (if failed.contains(n - 1) {
            Seq::empty()
        } else {
            node_edges(nodes[n - 1].deps@, n - 1)
        })
    }
}

/// The edges of node `i`, whose dependency list is `deps`.
pub open spec fn node_edges(deps: Seq<u8>, i: int) -> Seq<(u8, u8)> {
    deps.map_values(|d: u8| (i as u8, d))
}

/// How often `x` occurs in `s`.
pub open spec fn count_of(s: Seq<u8>, x: int) -> nat
    decreases s.len(),
{
    if s.len() == 0 {
        0
    } else {
        count_of(s.drop_last(), x) + (if s.last() == x {
            1nat
        } else {
            0nat
        })
    }
}

/// The number of live nodes among the first `n`.
pub open spec fn live_count(nodes: Seq<CmdNode>, failed: Set<int>, n: int) -> nat
    decreases n,
{
    if n <= 0 {
        0
    } else {
        live_count(nodes, failed, n - 1) + (if failed.contains(n - 1) {
            0nat
        } else {
            1nat
        })
    }
}

pub open spec fn sat_u8(x: int) -> u8 {
    if x > 255 {
        255
    } else {
        x as u8
    }
}

pub open spec fn sat_u16(x: int) -> u16 {
    if x > 65535 {
        65535
    } else {
        x as u16
    }
}

/// The initial in-degree of each of `cap` slots: the length of a live node's
/// dependency list, saturated at 255.
pub open spec fn init_degrees(nodes: Seq<CmdNode>, failed: Set<int>, cap: int) -> Seq<u8> {
    Seq::new(
        cap as nat,
        |i: int|
            if live(nodes, failed, i) {
                sat_u8(nodes[i].deps@.len() as int)
            } else {
                0u8
            },
    )
}

/// How many live nodes depend on each of `cap` slots, saturated at 65535.
pub open spec fn init_counts(nodes: Seq<CmdNode>, failed: Set<int>, cap: int) -> Seq<u16> {
    Seq::new(
        cap as nat,
        |d: int| sat_u16(count_of(dep_list(nodes, failed, nodes.len() as int), d) as int),
    )
}

/// The start of the reverse-adjacency slice of node `i`: the saturated sum of
/// the counts before it.
pub open spec fn prefix_offset(counts: Seq<u16>, i: int) -> u16
    decreases i,
{
    if i <= 0 {
        0
    } else {
        sat_u16(prefix_offset(counts, i - 1) + counts[i - 1])
    }
}

/// The offsets of the first `len` of `cap` slots; the rest stay 0.
pub open spec fn init_offsets(counts: Seq<u16>, len: int, cap: int) -> Seq<u16> {
    Seq::new(
        cap as nat,
        |i: int|
            if i < len {
                prefix_offset(counts, i)
            } else {
                0u16
            },
    )
}

/// Writes each edge's node into the flat reverse-adjacency array at the write
/// pointer of its dependency, which then advances (saturating).
pub open spec fn fill(edges: Seq<(u8, u8)>, flat0: Seq<u8>, wp0: Seq<u16>) -> (Seq<u8>, Seq<u16>)
    decreases edges.len(),
{
    if edges.len() == 0 {
        (flat0, wp0)
    } else {
        let (flat, wp) = fill(edges.drop_last(), flat0, wp0);
        let (v, d) = edges.last();
        (flat.update(wp[d as int] as int, v), wp.update(d as int, sat_u16(wp[d as int] + 1)))
    }
}

/// Every write of `fill` lands inside an array of `max` entries.
pub open spec fn fill_in_bounds(edges: Seq<(u8, u8)>, flat0: Seq<u8>, wp0: Seq<u16>, max: int) -> bool
    decreases edges.len(),
{
    if edges.len() == 0 {
        true
    } else {
        fill_in_bounds(edges.drop_last(), flat0, wp0, max) && fill(
            edges.drop_last(),
            flat0,
            wp0,
        ).1[edges.last().1 as int] < max
    }
}

/// The live nodes among the first `n` without dependencies, in increasing order.
pub open spec fn init_queue(nodes: Seq<CmdNode>, failed: Set<int>, n: int) -> Seq<u8>
    decreases n,
{
    if n <= 0 {
        Seq::empty()
    } else {
        init_queue(nodes, failed, n - 1) + (if live(nodes, failed, n - 1) && nodes[n
            - 1].deps@.len() == 0 {
            seq![(n - 1) as u8]
        } else {
            Seq::empty()
        })
    }
}

/// Every dependency index of a live node lies below `cap`.
pub open spec fn deps_below(nodes: Seq<CmdNode>, failed: Set<int>, cap: int) -> bool {
    forall|k: int| 0 <= k < dep_list(nodes, failed, nodes.len() as int).len()
        ==> #[trigger] dep_list(nodes, failed, nodes.len() as int)[k] < cap
}

/// The state the reverse-adjacency construction reaches before its final fill.
pub open spec fn layout_ready(nodes: Seq<CmdNode>, failed: Set<int>, n: int, max: int) -> bool {
    &&& nodes.len() <= n
    &&& deps_below(nodes, failed, nodes.len() as int)
    &&& prefix_offset(init_counts(nodes, failed, n), nodes.len() as int) <= max
}

/// The error `TopologicalIter::new` reports, if any.
pub open spec fn new_error(nodes: Seq<CmdNode>, failed: Set<int>, n: int, max: int) -> Option<
    ExplorerError,
> {
    if nodes.len() > n {
        Some(ExplorerError::TooManyCommands)
    } else if !deps_below(nodes, failed, nodes.len() as int) {
        Some(ExplorerError::InvalidDependencyIndex)
    } else if prefix_offset(init_counts(nodes, failed, n), nodes.len() as int) > max {
        Some(ExplorerError::BufferOverflow)
    } else {
        None
    }
}

/// The flat reverse-adjacency array `TopologicalIter::new` builds.
pub open spec fn init_flat(nodes: Seq<CmdNode>, failed: Set<int>, n: int, max: int) -> Seq<u8> {
    fill(
        edge_list(nodes, failed, nodes.len() as int),
        Seq::new(max as nat, |k: int| 0u8),
        init_offsets(init_counts(nodes, failed, n), nodes.len() as int, n),
    ).0
}

/// The construction of the reverse adjacency writes only inside the flat array.
pub open spec fn layout_in_bounds(nodes: Seq<CmdNode>, failed: Set<int>, n: int, max: int) -> bool {
    fill_in_bounds(
        edge_list(nodes, failed, nodes.len() as int),
        Seq::new(max as nat, |k: int| 0u8),
        init_offsets(init_counts(nodes, failed, n), nodes.len() as int, n),
        max,
    )
}


// ---------------------------------------------------------------------------
// Lemmas on the graph encodings.
// ---------------------------------------------------------------------------

pub proof fn lemma_count_of_concat(a: Seq<u8>, b: Seq<u8>, x: int)
    ensures
        count_of(a + b, x) == count_of(a, x) + count_of(b, x),
    decreases b.len(),
{
    if b.len() == 0 {
        assert(a + b =~= a);
    } else {
        assert((a + b).drop_last() =~= a + b.drop_last());
        lemma_count_of_concat(a, b.drop_last(), x);
    }
}

pub proof fn lemma_count_of_push(a: Seq<u8>, y: u8, x: int)
    ensures
        count_of(a.push(y), x) == count_of(a, x) + (if y == x {
            1nat
        } else {
            0nat
        }),
{
    assert(a.push(y).drop_last() =~= a);
}

pub proof fn lemma_dep_list_prefix(nodes: Seq<CmdNode>, failed: Set<int>, i: int, n: int)
    requires
        0 <= i <= n,
    ensures
        dep_list(nodes, failed, i).len() <= dep_list(nodes, failed, n).len(),
        dep_list(nodes, failed, n).subrange(0, dep_list(nodes, failed, i).len() as int)
            =~= dep_list(nodes, failed, i),
    decreases n - i,
{
    if i < n {
        lemma_dep_list_prefix(nodes, failed, i, n - 1);
    }
}

pub proof fn lemma_edge_list_prefix(nodes: Seq<CmdNode>, failed: Set<int>, i: int, n: int)
    requires
        0 <= i <= n,
    ensures
        edge_list(nodes, failed, i).len() <= edge_list(nodes, failed, n).len(),
        edge_list(nodes, failed, n).subrange(0, edge_list(nodes, failed, i).len() as int)
            =~= edge_list(nodes, failed, i),
    decreases n - i,
{
    if i < n {
        lemma_edge_list_prefix(nodes, failed, i, n - 1);
    }
}

pub proof fn lemma_fill_in_bounds_prefix(
    edges: Seq<(u8, u8)>,
    flat0: Seq<u8>,
    wp0: Seq<u16>,
    max: int,
    k: int,
)
    requires
        0 <= k <= edges.len(),
        fill_in_bounds(edges, flat0, wp0, max),
    ensures
        fill_in_bounds(edges.subrange(0, k), flat0, wp0, max),
    decreases edges.len() - k,
{
    if k < edges.len() {
        assert(edges.drop_last() =~= edges.subrange(0, edges.len() - 1));
        lemma_fill_in_bounds_prefix(edges.drop_last(), flat0, wp0, max, k);
        assert(edges.drop_last().subrange(0, k) =~= edges.subrange(0, k));
    } else {
        assert(edges.subrange(0, k) =~= edges);
    }
}

pub proof fn lemma_init_queue_len(nodes: Seq<CmdNode>, failed: Set<int>, n: int)
    requires
        0 <= n,
    ensures
        init_queue(nodes, failed, n).len() <= n,
    decreases n,
{
    if n > 0 {
        lemma_init_queue_len(nodes, failed, n - 1);
    }
}

pub proof fn lemma_u8_cast_below(x: int, cap: int)
    requires
        0 <= x < cap,
    ensures
        (x as u8) < cap,
{
    if x < 256 {
        assert(x as u8 == x);
    } else {
        assert((x as u8) < 256);
    }
}

pub proof fn lemma_init_queue_bounded(nodes: Seq<CmdNode>, failed: Set<int>, n: int, cap: int, k: int)
    requires
        0 <= n <= cap,
        0 <= k < init_queue(nodes, failed, n).len(),
    ensures
        init_queue(nodes, failed, n)[k] < cap,
    decreases n,
{
    if n > 0 {
        let prev = init_queue(nodes, failed, n - 1);
        if k < prev.len() {
            lemma_init_queue_bounded(nodes, failed, n - 1, cap, k);
        } else {
            lemma_u8_cast_below(n - 1, cap);
        }
    }
}

pub proof fn lemma_edge_sources_bounded(nodes: Seq<CmdNode>, failed: Set<int>, n: int, cap: int, k: int)
    requires
        0 <= n <= cap,
        0 <= k < edge_list(nodes, failed, n).len(),
    ensures
        edge_list(nodes, failed, n)[k].0 < cap,
    decreases n,
{
    if n > 0 {
        let prev = edge_list(nodes, failed, n - 1);
        if k < prev.len() {
            lemma_edge_sources_bounded(nodes, failed, n - 1, cap, k);
        } else {
            lemma_u8_cast_below(n - 1, cap);
        }
    }
}

/// `fill` keeps the lengths of its arrays when every write is in bounds, and
/// only writes edge sources, so every entry stays below `cap` when the initial
/// entries and all sources do.
pub proof fn lemma_fill_entries_bounded_gen(edges: Seq<(u8, u8)>, flat0: Seq<u8>, wp0: Seq<u16>, cap: int)
    requires
        forall|k: int| 0 <= k < flat0.len() ==> #[trigger] flat0[k] < cap,
        forall|k: int| 0 <= k < edges.len() ==> #[trigger] edges[k].0 < cap,
        forall|k: int| 0 <= k < edges.len() ==> (#[trigger] edges[k]).1 < wp0.len(),
        fill_in_bounds(edges, flat0, wp0, flat0.len() as int),
    ensures
        fill(edges, flat0, wp0).0.len() == flat0.len(),
        fill(edges, flat0, wp0).1.len() == wp0.len(),
        forall|k: int|
            0 <= k < fill(edges, flat0, wp0).0.len() ==> #[trigger] fill(edges, flat0, wp0).0[k]
                < cap,
    decreases edges.len(),
{
    if edges.len() > 0 {
        assert forall|k: int| 0 <= k < edges.drop_last().len() implies #[trigger] edges.drop_last()[k].0
            < cap && edges.drop_last()[k].1 < wp0.len() by {
            assert(edges.drop_last()[k] == edges[k]);
        }
        lemma_fill_entries_bounded_gen(edges.drop_last(), flat0, wp0, cap);
        assert(edges.last() == edges[edges.len() - 1]);
    }
}

pub proof fn lemma_edge_list_deps(nodes: Seq<CmdNode>, failed: Set<int>, n: int)
    requires
        0 <= n,
    ensures
        edge_list(nodes, failed, n).len() == dep_list(nodes, failed, n).len(),
        forall|k: int|
            0 <= k < edge_list(nodes, failed, n).len() ==> (#[trigger] edge_list(nodes, failed, n)[k]).1
                == dep_list(nodes, failed, n)[k],
    decreases n,
{
    if n > 0 {
        lemma_edge_list_deps(nodes, failed, n - 1);
    }
}

pub proof fn lemma_fill_entries_bounded(
    nodes: Seq<CmdNode>,
    failed: Set<int>,
    zeros: Seq<u8>,
    offsets: Seq<u16>,
    cap: int,
)
    requires
        0 < cap,
        nodes.len() <= cap,
        offsets.len() == cap,
        deps_below(nodes, failed, cap),
        forall|k: int| 0 <= k < zeros.len() ==> #[trigger] zeros[k] == 0,
        fill_in_bounds(
            edge_list(nodes, failed, nodes.len() as int),
            zeros,
            offsets,
            zeros.len() as int,
        ),
    ensures
        fill(edge_list(nodes, failed, nodes.len() as int), zeros, offsets).0.len() == zeros.len(),
        forall|k: int|
            0 <= k < zeros.len() ==> #[trigger] fill(
                edge_list(nodes, failed, nodes.len() as int),
                zeros,
                offsets,
            ).0[k] < cap,
{
    let edges = edge_list(nodes, failed, nodes.len() as int);
    lemma_edge_list_deps(nodes, failed, nodes.len() as int);
    assert forall|k: int| 0 <= k < edges.len() implies #[trigger] edges[k].0 < cap && edges[k].1
        < offsets.len() by {
        lemma_edge_sources_bounded(nodes, failed, nodes.len() as int, cap, k);
        assert(edges[k].1 == dep_list(nodes, failed, nodes.len() as int)[k]);
    }
    lemma_fill_entries_bounded_gen(edges, zeros, offsets, cap);
}

pub proof fn lemma_live_count_le(nodes: Seq<CmdNode>, failed: Set<int>, n: int)
    requires
        0 <= n,
    ensures
        live_count(nodes, failed, n) <= n,
    decreases n,
{
    if n > 0 {
        lemma_live_count_le(nodes, failed, n - 1);
    }
}

pub proof fn lemma_prefix_offset_mono(counts: Seq<u16>, i: int, j: int)
    requires
        0 <= i <= j,
    ensures
        prefix_offset(counts, i) <= prefix_offset(counts, j),
    decreases j - i,
{
    if i < j {
        lemma_prefix_offset_mono(counts, i, j - 1);
    }
}

/// The first index of node `u`'s slice of the flat reverse-adjacency array.
pub open spec fn nbr_start(offsets: Seq<u16>, u: int) -> int {
    offsets[u] as int
}

/// The end of node `u`'s slice: the next node's offset, or the number of
/// entries laid out, `total`, for the last of `len` nodes.
pub open spec fn nbr_end(offsets: Seq<u16>, u: int, len: int, total: int) -> int {
    if u + 1 < len {
        offsets[u + 1] as int
    } else {
        total
    }
}

/// Decrements (saturating) the in-degree of each neighbour in turn, queueing
/// every neighbour whose in-degree is then 0.
pub open spec fn relax(deg: Seq<u8>, q: Seq<u8>, nb: Seq<u8>) -> (Seq<u8>, Seq<u8>)
    decreases nb.len(),
{
    if nb.len() == 0 {
        (deg, q)
    } else {
        let (d1, q1) = relax(deg, q, nb.drop_last());
        let v = nb.last() as int;
        let nd: u8 = if d1[v] == 0 {
            0u8
        } else {
            (d1[v] - 1) as u8
        };
        (d1.update(v, nd), if nd == 0 {
            q1.push(nb.last())
        } else {
            q1
        })
    }
}

pub proof fn lemma_relax_bounded(deg: Seq<u8>, q: Seq<u8>, nb: Seq<u8>, cap: int)
    requires
        forall|i: int| 0 <= i < q.len() ==> #[trigger] q[i] < cap,
        forall|i: int| 0 <= i < nb.len() ==> #[trigger] nb[i] < cap,
    ensures
        forall|i: int| 0 <= i < relax(deg, q, nb).1.len() ==> #[trigger] relax(deg, q, nb).1[i] < cap,
        q.len() <= relax(deg, q, nb).1.len(),
    decreases nb.len(),
{
    if nb.len() > 0 {
        assert forall|i: int| 0 <= i < nb.drop_last().len() implies #[trigger] nb.drop_last()[i] < cap by {
            assert(nb.drop_last()[i] == nb[i]);
        }
        lemma_relax_bounded(deg, q, nb.drop_last(), cap);
        assert(nb.last() == nb[nb.len() - 1]);
    }
}



// ---------------------------------------------------------------------------
// The layout of the reverse adjacency on well-formed graphs.
// ---------------------------------------------------------------------------

/// Every entry of `s` lies below `m`.
pub open spec fn all_below(s: Seq<u8>, m: int) -> bool {
    forall|k: int| 0 <= k < s.len() ==> #[trigger] s[k] < m
}

/// The number of entries of `s` below `m`, counted value by value.
pub open spec fn sum_counts(s: Seq<u8>, m: int) -> nat
    decreases m,
{
    if m <= 0 {
        0
    } else {
        sum_counts(s, m - 1) + count_of(s, m - 1)
    }
}

/// The sources of the edges of `e` whose target is `d`, in order.
pub open spec fn srcs(e: Seq<(u8, u8)>, d: int) -> Seq<u8>
    decreases e.len(),
{
    if e.len() == 0 {
        Seq::empty()
    } else {
        srcs(e.drop_last(), d) + (if e.last().1 == d {
            seq![e.last().0]
        } else {
            Seq::empty()
        })
    }
}

/// The graph is one the iterator handles as Kahn's algorithm: at most `n`
/// (and at most 256) nodes, every dependency of a live node names an existing
/// node, at most 255 dependencies per node and 65535 in all, and the flat
/// array has room for every dependency of a live node.
pub open spec fn faithful(nodes: Seq<CmdNode>, failed: Set<int>, n: int, max: int) -> bool {
    let len = nodes.len() as int;
    let dl = dep_list(nodes, failed, len);
    &&& len <= n <= 256
    &&& all_below(dl, len)
    &&& dl.len() <= 65535
    &&& forall|i: int| live(nodes, failed, i) ==> (#[trigger] nodes[i]).deps@.len() <= 255
    &&& dl.len() <= max
}

pub proof fn lemma_count_of_le_len(s: Seq<u8>, x: int)
    ensures
        count_of(s, x) <= s.len(),
    decreases s.len(),
{
    if s.len() > 0 {
        lemma_count_of_le_len(s.drop_last(), x);
    }
}

pub proof fn lemma_count_of_prefix(s: Seq<u8>, k: int, x: int)
    requires
        0 <= k <= s.len(),
    ensures
        count_of(s.take(k), x) <= count_of(s, x),
    decreases s.len() - k,
{
    if k < s.len() {
        lemma_count_of_prefix(s.drop_last(), k, x);
        assert(s.drop_last().take(k) =~= s.take(k));
    } else {
        assert(s.take(k) =~= s);
    }
}

pub proof fn lemma_count_of_take_step(s: Seq<u8>, k: int, x: int)
    requires
        0 <= k < s.len(),
    ensures
        count_of(s.take(k + 1), x) == count_of(s.take(k), x) + (if s[k] == x {
            1nat
        } else {
            0nat
        }),
{
    assert(s.take(k + 1) =~= s.take(k).push(s[k]));
    lemma_count_of_push(s.take(k), s[k], x);
}

pub proof fn lemma_sum_counts_push(s: Seq<u8>, y: u8, m: int)
    ensures
        sum_counts(s.push(y), m) == sum_counts(s, m) + (if 0 <= y < m {
            1nat
        } else {
            0nat
        }),
    decreases m,
{
    if m > 0 {
        lemma_sum_counts_push(s, y, m - 1);
        lemma_count_of_push(s, y, m - 1);
    }
}

pub proof fn lemma_sum_counts_total(s: Seq<u8>, m: int)
    requires
        all_below(s, m),
    ensures
        sum_counts(s, m) == s.len(),
    decreases s.len(),
{
    if s.len() == 0 {
        lemma_sum_counts_empty(s, m);
    } else {
        assert forall|k: int| 0 <= k < s.drop_last().len() implies #[trigger] s.drop_last()[k] < m by {
            assert(s.drop_last()[k] == s[k]);
        }
        lemma_sum_counts_total(s.drop_last(), m);
        assert(s.drop_last().push(s.last()) =~= s);
        assert(s.last() == s[s.len() - 1]);
        lemma_sum_counts_push(s.drop_last(), s.last(), m);
    }
}

pub proof fn lemma_sum_counts_empty(s: Seq<u8>, m: int)
    requires
        s.len() == 0,
    ensures
        sum_counts(s, m) == 0,
    decreases m,
{
    if m > 0 {
        lemma_sum_counts_empty(s, m - 1);
    }
}

pub proof fn lemma_sum_counts_mono(s: Seq<u8>, i: int, j: int)
    requires
        i <= j,
    ensures
        sum_counts(s, i) <= sum_counts(s, j),
    decreases j - i,
{
    if i < j {
        lemma_sum_counts_mono(s, i, j - 1);
    }
}

/// On a faithful graph the counts and offsets do not saturate: the offset of
/// node `i` is the number of dependencies on nodes before it.
pub proof fn lemma_offsets_exact(nodes: Seq<CmdNode>, failed: Set<int>, n: int, max: int, i: int)
    requires
        faithful(nodes, failed, n, max),
        0 <= i <= nodes.len(),
    ensures
        prefix_offset(init_counts(nodes, failed, n), i) == sum_counts(
            dep_list(nodes, failed, nodes.len() as int),
            i,
        ),
        forall|d: int|
            0 <= d < n ==> #[trigger] init_counts(nodes, failed, n)[d] == count_of(
                dep_list(nodes, failed, nodes.len() as int),
                d,
            ),
    decreases i,
{
    let dl = dep_list(nodes, failed, nodes.len() as int);
    assert forall|d: int| 0 <= d < n implies #[trigger] init_counts(nodes, failed, n)[d]
        == count_of(dl, d) by {
        lemma_count_of_le_len(dl, d);
    }
    if i > 0 {
        lemma_offsets_exact(nodes, failed, n, max, i - 1);
        lemma_sum_counts_mono(dl, i, nodes.len() as int);
        lemma_sum_counts_total(dl, nodes.len() as int);
    }
}

/// A faithful graph passes every check of `TopologicalIter::new`.
pub proof fn lemma_faithful_no_error(nodes: Seq<CmdNode>, failed: Set<int>, n: int, max: int)
    requires
        faithful(nodes, failed, n, max),
        0 <= max,
    ensures
        new_error(nodes, failed, n, max) is None,
        layout_ready(nodes, failed, n, max),
{
    let dl = dep_list(nodes, failed, nodes.len() as int);
    lemma_offsets_exact(nodes, failed, n, max, nodes.len() as int);
    lemma_sum_counts_total(dl, nodes.len() as int);
    assert forall|k: int| 0 <= k < dl.len() implies #[trigger] dl[k] < n by {
        assert(dl[k] < nodes.len());
    }
}

/// A graph that would be faithful with room for all its dependency entries,
/// but has more of them than `max`, is refused by `TopologicalIter::new`
/// for the room it lacks.
pub proof fn lemma_over_capacity(nodes: Seq<CmdNode>, failed: Set<int>, n: int, max: int)
    requires
        faithful(nodes, failed, n, dep_list(nodes, failed, nodes.len() as int).len() as int),
        0 <= max < dep_list(nodes, failed, nodes.len() as int).len(),
    ensures
        new_error(nodes, failed, n, max) == Some(ExplorerError::BufferOverflow),
{
    let len = nodes.len() as int;
    let dl = dep_list(nodes, failed, len);
    lemma_faithful_no_error(nodes, failed, n, dl.len() as int);
    lemma_offsets_exact(nodes, failed, n, dl.len() as int, len);
    lemma_sum_counts_total(dl, len);
}

pub proof fn lemma_srcs_concat(a: Seq<(u8, u8)>, b: Seq<(u8, u8)>, d: int)
    ensures
        srcs(a + b, d) == srcs(a, d) + srcs(b, d),
    decreases b.len(),
{
    if b.len() == 0 {
        assert(a + b =~= a);
        assert(srcs(a, d) + srcs(b, d) =~= srcs(a, d));
    } else {
        assert((a + b).drop_last() =~= a + b.drop_last());
        lemma_srcs_concat(a, b.drop_last(), d);
        assert(srcs(a + b, d) =~= srcs(a, d) + srcs(b, d));
    }
}

/// The edges of one node contribute its index once per dependency on `d`.
pub proof fn lemma_srcs_node(deps: Seq<u8>, i: int, d: int, v: int)
    ensures
        count_of(srcs(node_edges(deps, i), d), v) == (if v == (i as u8) {
            count_of(deps, d)
        } else {
            0
        }),
        forall|k: int|
            0 <= k < srcs(node_edges(deps, i), d).len() ==> #[trigger] srcs(node_edges(deps, i), d)[k]
                == i as u8,
    decreases deps.len(),
{
    if deps.len() > 0 {
        assert(node_edges(deps, i).drop_last() =~= node_edges(deps.drop_last(), i));
        lemma_srcs_node(deps.drop_last(), i, d, v);
        let prev = srcs(node_edges(deps.drop_last(), i), d);
        assert(node_edges(deps, i).last() == (i as u8, deps.last()));
        if deps.last() == d {
            lemma_count_of_push(prev, i as u8, v);
            assert(srcs(node_edges(deps, i), d) =~= prev.push(i as u8));
        } else {
            assert(srcs(node_edges(deps, i), d) =~= prev);
        }
    }
}

/// Node `v` appears among the sources of dependency `u` once per occurrence of
/// `u` in its dependency list, if it is live, and never otherwise.
pub proof fn lemma_srcs_edges(nodes: Seq<CmdNode>, failed: Set<int>, n: int, u: int, v: int)
    requires
        0 <= n <= nodes.len(),
        nodes.len() <= 256,
        0 <= v,
    ensures
        count_of(srcs(edge_list(nodes, failed, n), u), v) == (if v < n && live(nodes, failed, v) {
            count_of(nodes[v].deps@, u)
        } else {
            0
        }),
        all_below(srcs(edge_list(nodes, failed, n), u), n),
    decreases n,
{
    if n > 0 {
        lemma_srcs_edges(nodes, failed, n - 1, u, v);
        let prev = edge_list(nodes, failed, n - 1);
        let mine: Seq<(u8, u8)> = if failed.contains(n - 1) {
            Seq::empty()
        } else {
            node_edges(nodes[n - 1].deps@, n - 1)
        };
        assert(edge_list(nodes, failed, n) == prev + mine);
        lemma_srcs_concat(prev, mine, u);
        lemma_count_of_concat(srcs(prev, u), srcs(mine, u), v);
        assert(((n - 1) as u8) == n - 1);
        if failed.contains(n - 1) {
            assert(srcs(mine, u) =~= Seq::<u8>::empty());
        } else {
            lemma_srcs_node(nodes[n - 1].deps@, n - 1, u, v);
        }
        let all = srcs(edge_list(nodes, failed, n), u);
        assert forall|k: int| 0 <= k < all.len() implies #[trigger] all[k] < n by {
            if k < srcs(prev, u).len() {
                assert(all[k] == srcs(prev, u)[k]);
            } else {
                assert(all[k] == srcs(mine, u)[k - srcs(prev, u).len()]);
                if !failed.contains(n - 1) {
                    lemma_srcs_node(nodes[n - 1].deps@, n - 1, u, v);
                }
            }
        }
    } else {
        assert(srcs(edge_list(nodes, failed, n), u) =~= Seq::<u8>::empty());
    }
}


/// The zero-filled flat array of `max` entries.
pub open spec fn zeros(max: int) -> Seq<u8> {
    Seq::new(max as nat, |k: int| 0u8)
}

/// The offsets `TopologicalIter::new` computes for a graph.
pub open spec fn graph_offsets(nodes: Seq<CmdNode>, failed: Set<int>, n: int) -> Seq<u16> {
    init_offsets(init_counts(nodes, failed, n), nodes.len() as int, n)
}

/// On a faithful graph, after the first `k` edges have been written, the
/// write pointer of each node `d` sits at its offset plus the number of edges
/// to `d` written so far, and the slice from its offset to its write pointer
/// holds exactly the sources of those edges, in order.
pub proof fn lemma_fill_layout(nodes: Seq<CmdNode>, failed: Set<int>, n: int, max: int, k: int)
    requires
        faithful(nodes, failed, n, max),
        0 <= max,
        0 <= k <= edge_list(nodes, failed, nodes.len() as int).len(),
    ensures
        fill(
            edge_list(nodes, failed, nodes.len() as int).take(k),
            zeros(max),
            graph_offsets(nodes, failed, n),
        ).0.len() == max,
        fill(
            edge_list(nodes, failed, nodes.len() as int).take(k),
            zeros(max),
            graph_offsets(nodes, failed, n),
        ).1.len() == n,
        forall|d: int|
            0 <= d < nodes.len() ==> #[trigger] fill(
                edge_list(nodes, failed, nodes.len() as int).take(k),
                zeros(max),
                graph_offsets(nodes, failed, n),
            ).1[d] == sum_counts(dep_list(nodes, failed, nodes.len() as int), d) + count_of(
                dep_list(nodes, failed, nodes.len() as int).take(k),
                d,
            ),
        forall|d: int|
            0 <= d < nodes.len() ==> #[trigger] fill(
                edge_list(nodes, failed, nodes.len() as int).take(k),
                zeros(max),
                graph_offsets(nodes, failed, n),
            ).0.subrange(
                sum_counts(dep_list(nodes, failed, nodes.len() as int), d) as int,
                (sum_counts(dep_list(nodes, failed, nodes.len() as int), d) + count_of(
                    dep_list(nodes, failed, nodes.len() as int).take(k),
                    d,
                )) as int,
            ) == srcs(edge_list(nodes, failed, nodes.len() as int).take(k), d),
        fill_in_bounds(
            edge_list(nodes, failed, nodes.len() as int).take(k),
            zeros(max),
            graph_offsets(nodes, failed, n),
            max,
        ),
    decreases k,
{
    let len = nodes.len() as int;
    let edges = edge_list(nodes, failed, len);
    let dl = dep_list(nodes, failed, len);
    let offs = graph_offsets(nodes, failed, n);
    lemma_edge_list_deps(nodes, failed, len);
    lemma_offsets_exact(nodes, failed, n, max, len);
    lemma_sum_counts_total(dl, len);
    if k == 0 {
        assert(edges.take(0) =~= Seq::<(u8, u8)>::empty());
        assert forall|d: int| 0 <= d < len implies #[trigger] offs[d] == sum_counts(dl, d) + count_of(
            dl.take(0),
            d,
        ) by {
            lemma_offsets_exact(nodes, failed, n, max, d);
            assert(dl.take(0) =~= Seq::<u8>::empty());
        }
        assert forall|d: int| 0 <= d < len implies #[trigger] zeros(max).subrange(
            sum_counts(dl, d) as int,
            (sum_counts(dl, d) + count_of(dl.take(0), d)) as int,
        ) == srcs(edges.take(0), d) by {
            assert(dl.take(0) =~= Seq::<u8>::empty());
            lemma_sum_counts_mono(dl, d, len);
            assert(dl.len() <= max);
            assert(zeros(max).subrange(sum_counts(dl, d) as int, sum_counts(dl, d) as int)
                =~= Seq::<u8>::empty());
        }
    } else {
        let j = k - 1;
        lemma_fill_layout(nodes, failed, n, max, j);
        let pre = edges.take(j);
        let cur = edges.take(k);
        assert(cur.drop_last() =~= pre);
        assert(cur.last() == edges[j]);
        let f = fill(pre, zeros(max), offs).0;
        let w = fill(pre, zeros(max), offs).1;
        let v = edges[j].0;
        let d = edges[j].1 as int;
        assert(d == dl[j]);
        assert(d < len);
        // The new entry lands inside node d's own region.
        lemma_count_of_take_step(dl, j, d);
        lemma_count_of_prefix(dl, k, d);
        lemma_sum_counts_mono(dl, d + 1, len);
        assert(dl.len() <= max);
        assert(w[d] < max);
        assert forall|e: int| 0 <= e < len implies #[trigger] fill(cur, zeros(max), offs).1[e]
            == sum_counts(dl, e) + count_of(dl.take(k), e) by {
            lemma_count_of_take_step(dl, j, e);
        }
        assert forall|e: int| 0 <= e < len implies #[trigger] fill(cur, zeros(max), offs).0.subrange(
            sum_counts(dl, e) as int,
            (sum_counts(dl, e) + count_of(dl.take(k), e)) as int,
        ) == srcs(cur, e) by {
            lemma_count_of_take_step(dl, j, e);
            lemma_count_of_prefix(dl, k, e);
            lemma_count_of_prefix(dl, j, e);
            lemma_sum_counts_mono(dl, e + 1, len);
            let lo = sum_counts(dl, e) as int;
            let hi_old = lo + count_of(dl.take(j), e);
            if e == d {
                assert(fill(cur, zeros(max), offs).0.subrange(lo, hi_old + 1) =~= f.subrange(
                    lo,
                    hi_old,
                ).push(v));
            } else {
                lemma_count_of_prefix(dl, j, e);
                if e < d {
                    lemma_sum_counts_mono(dl, e + 1, d);
                } else {
                    lemma_sum_counts_mono(dl, d + 1, e);
                }
                assert(fill(cur, zeros(max), offs).0.subrange(lo, hi_old) =~= f.subrange(
                    lo,
                    hi_old,
                ));
            }
        }
    }
}


// ---------------------------------------------------------------------------
// Kahn's algorithm.
// ---------------------------------------------------------------------------

/// The entries of a dependency list that are not yet in `done`.
pub open spec fn pending(s: Seq<u8>, done: Seq<int>) -> nat
    decreases s.len(),
{
    if s.len() == 0 {
        0
    } else {
        pending(s.drop_last(), done) + (if done.contains(s.last() as int) {
            0nat
        } else {
            1nat
        })
    }
}

pub proof fn lemma_push_contains<A>(s: Seq<A>, u: A, x: A)
    ensures
        s.push(u).contains(x) <==> (s.contains(x) || x == u),
{
    if s.contains(x) {
        let i = choose|i: int| 0 <= i < s.len() && s[i] == x;
        assert(s.push(u)[i] == x);
    }
    if x == u {
        assert(s.push(u)[s.len() as int] == x);
    }
    if s.push(u).contains(x) {
        let i = choose|i: int| 0 <= i < s.push(u).len() && s.push(u)[i] == x;
        if i < s.len() {
            assert(s[i] == x);
        }
    }
}

pub proof fn lemma_pending_push(s: Seq<u8>, done: Seq<int>, u: int)
    requires
        !done.contains(u),
    ensures
        pending(s, done.push(u)) + count_of(s, u) == pending(s, done),
    decreases s.len(),
{
    if s.len() > 0 {
        lemma_pending_push(s.drop_last(), done, u);
        lemma_push_contains(done, u, s.last() as int);
    }
}

pub proof fn lemma_pending_zero(s: Seq<u8>, done: Seq<int>)
    requires
        pending(s, done) == 0,
    ensures
        forall|j: int| 0 <= j < s.len() ==> done.contains(#[trigger] s[j] as int),
    decreases s.len(),
{
    if s.len() > 0 {
        lemma_pending_zero(s.drop_last(), done);
        assert forall|j: int| 0 <= j < s.len() implies done.contains(#[trigger] s[j] as int) by {
            if j < s.len() - 1 {
                assert(s.drop_last()[j] == s[j]);
            }
        }
    }
}

pub proof fn lemma_pending_empty(s: Seq<u8>)
    ensures
        pending(s, Seq::empty()) == s.len(),
    decreases s.len(),
{
    if s.len() > 0 {
        lemma_pending_empty(s.drop_last());
    }
}

/// On a queue and in-degrees that can absorb every decrement, `relax`
/// subtracts from each node its number of occurrences among the neighbours
/// and appends, once each, exactly the neighbours whose in-degree reaches 0.
pub proof fn lemma_relax_effect(deg0: Seq<u8>, q0: Seq<u8>, nb: Seq<u8>)
    requires
        all_below(nb, deg0.len() as int),
        forall|v: int| 0 <= v < deg0.len() ==> count_of(nb, v) <= #[trigger] deg0[v],
    ensures
        relax(deg0, q0, nb).0.len() == deg0.len(),
        forall|v: int|
            0 <= v < deg0.len() ==> #[trigger] relax(deg0, q0, nb).0[v] == deg0[v] - count_of(nb, v),
        q0.len() <= relax(deg0, q0, nb).1.len(),
        relax(deg0, q0, nb).1.subrange(0, q0.len() as int) == q0,
        relax(deg0, q0, nb).1.subrange(q0.len() as int, relax(deg0, q0, nb).1.len() as int).no_duplicates(),
        forall|x: u8|
            #![trigger relax(deg0, q0, nb).1.subrange(q0.len() as int, relax(deg0, q0, nb).1.len() as int).contains(x)]
            relax(deg0, q0, nb).1.subrange(q0.len() as int, relax(deg0, q0, nb).1.len() as int).contains(x)
                <==> (x < deg0.len() && count_of(nb, x as int) > 0 && deg0[x as int] == count_of(
                nb,
                x as int,
            )),
    decreases nb.len(),
{
    if nb.len() == 0 {
        assert(relax(deg0, q0, nb).1.subrange(q0.len() as int, q0.len() as int) =~= Seq::<u8>::empty());
        assert(relax(deg0, q0, nb).1.subrange(0, q0.len() as int) =~= q0);
    } else {
        let nb1 = nb.drop_last();
        let y = nb.last();
        assert(y == nb[nb.len() - 1]);
        assert forall|k: int| 0 <= k < nb1.len() implies #[trigger] nb1[k] < deg0.len() by {
            assert(nb1[k] == nb[k]);
        }
        assert(nb1.push(y) =~= nb);
        assert forall|v: int| 0 <= v < deg0.len() implies count_of(nb1, v) <= #[trigger] deg0[v] by {
            lemma_count_of_push(nb1, y, v);
        }
        lemma_relax_effect(deg0, q0, nb1);
        let (d1, q1) = relax(deg0, q0, nb1);
        let p1 = q1.subrange(q0.len() as int, q1.len() as int);
        let (d2, q2) = relax(deg0, q0, nb);
        let p2 = q2.subrange(q0.len() as int, q2.len() as int);
        lemma_count_of_push(nb1, y, y as int);
        assert forall|v: int| 0 <= v < deg0.len() implies #[trigger] d2[v] == deg0[v] - count_of(nb, v) by {
            lemma_count_of_push(nb1, y, v);
        }
        let pushed = deg0[y as int] == count_of(nb, y as int);
        if pushed {
            assert(q2 =~= q1.push(y));
            assert(p2 =~= p1.push(y));
            assert(!p1.contains(y));
        } else {
            assert(q2 =~= q1);
            assert(p2 =~= p1);
        }
        assert(q2.subrange(0, q0.len() as int) =~= q0) by {
            assert(q1.subrange(0, q0.len() as int) =~= q0);
        }
        assert forall|x: u8| #[trigger] p2.contains(x) <==> (x < deg0.len() && count_of(nb, x as int) > 0
            && deg0[x as int] == count_of(nb, x as int)) by {
            lemma_count_of_push(nb1, y, x as int);
            if pushed {
                lemma_push_contains(p1, y, x);
            }
        }
    }
}

/// A sequence of distinct values below `m` has at most `m` entries.
pub proof fn lemma_distinct_bounded(s: Seq<u8>, m: int)
    requires
        s.no_duplicates(),
        all_below(s, m),
        0 <= m,
    ensures
        s.len() <= m,
{
    let t = s.map_values(|x: u8| x as int);
    assert forall|i: int, j: int| 0 <= i < t.len() && 0 <= j < t.len() && i != j implies t[i] != t[j] by {
        assert(s[i] != s[j]);
    }
    assert(t.no_duplicates());
    t.unique_seq_to_set();
    assert forall|x: int| t.to_set().contains(x) implies set_int_range(0, m).contains(x) by {
        let i = choose|i: int| 0 <= i < t.len() && t[i] == x;
        assert(s[i] < m);
    }
    lemma_int_range(0, m);
    lemma_len_subset(t.to_set(), set_int_range(0, m));
}


pub proof fn lemma_count_pos_exists(s: Seq<u8>, x: int)
    requires
        count_of(s, x) > 0,
    ensures
        exists|j: int| 0 <= j < s.len() && s[j] == x,
    decreases s.len(),
{
    if s.last() == x {
        assert(s[s.len() - 1] == x);
    } else {
        lemma_count_pos_exists(s.drop_last(), x);
        let j = choose|j: int| 0 <= j < s.drop_last().len() && s.drop_last()[j] == x;
        assert(s[j] == x);
    }
}

pub proof fn lemma_pending_pos_exists(s: Seq<u8>, done: Seq<int>)
    requires
        pending(s, done) > 0,
    ensures
        exists|j: int| 0 <= j < s.len() && !done.contains(#[trigger] s[j] as int),
    decreases s.len(),
{
    if !done.contains(s.last() as int) {
        assert(s[s.len() - 1] == s.last());
    } else {
        lemma_pending_pos_exists(s.drop_last(), done);
        let j = choose|j: int| 0 <= j < s.drop_last().len() && !done.contains(
            #[trigger] s.drop_last()[j] as int,
        );
        assert(s[j] == s.drop_last()[j]);
    }
}

/// A value among the dependencies stays pending while it is not done.
pub proof fn lemma_pending_ge_count(s: Seq<u8>, done: Seq<int>, x: int)
    requires
        !done.contains(x),
    ensures
        count_of(s, x) <= pending(s, done),
        pending(s, done) == 0 ==> count_of(s, x) == 0,
{
    lemma_pending_push(s, done, x);
}

pub proof fn lemma_no_dup_concat<A>(a: Seq<A>, b: Seq<A>)
    requires
        a.no_duplicates(),
        b.no_duplicates(),
        forall|x: A| a.contains(x) ==> !b.contains(x),
    ensures
        (a + b).no_duplicates(),
{
    assert forall|i: int, j: int| 0 <= i < (a + b).len() && 0 <= j < (a + b).len() && i != j implies (a
        + b)[i] != (a + b)[j] by {
        if i < a.len() && j >= a.len() {
            assert(a.contains(a[i]));
            assert(b.contains(b[j - a.len()]));
        } else if j < a.len() && i >= a.len() {
            assert(a.contains(a[j]));
            assert(b.contains(b[i - a.len()]));
        }
    }
}

/// The queue `TopologicalIter::new` starts from: distinct, and holding exactly
/// the live nodes without dependencies.
#[verifier::spinoff_prover]
pub proof fn lemma_init_queue_members(nodes: Seq<CmdNode>, failed: Set<int>, n: int)
    requires
        0 <= n <= nodes.len(),
        nodes.len() <= 256,
    ensures
        init_queue(nodes, failed, n).no_duplicates(),
        forall|k: int|
            0 <= k < init_queue(nodes, failed, n).len() ==> (#[trigger] init_queue(nodes, failed, n)[k])
                < n,
        forall|x: int|
            0 <= x < 256 ==> (init_queue(nodes, failed, n).contains(x as u8) <==> (x < n && live(
                nodes,
                failed,
                x,
            ) && nodes[x].deps@.len() == 0)),
    decreases n,
{
    if n > 0 {
        lemma_init_queue_members(nodes, failed, n - 1);
        let prev = init_queue(nodes, failed, n - 1);
        assert(((n - 1) as u8) as int == n - 1);
        if live(nodes, failed, n - 1) && nodes[n - 1].deps@.len() == 0 {
            assert(init_queue(nodes, failed, n) =~= prev.push((n - 1) as u8));
            assert forall|x: int| 0 <= x < 256 implies (init_queue(nodes, failed, n).contains(x as u8) <==> (
            x < n && live(nodes, failed, x) && nodes[x].deps@.len() == 0)) by {
                lemma_push_contains(prev, (n - 1) as u8, x as u8);
                assert((x as u8) as int == x);
            }
            assert(!prev.contains((n - 1) as u8));
            assert forall|i: int, j: int|
                0 <= i < init_queue(nodes, failed, n).len() && 0 <= j < init_queue(nodes, failed, n).len()
                    && i != j implies init_queue(nodes, failed, n)[i] != init_queue(nodes, failed, n)[j] by {
                if i < prev.len() && j < prev.len() {
                } else if i < prev.len() {
                    assert(prev.contains(prev[i]));
                } else if j < prev.len() {
                    assert(prev.contains(prev[j]));
                }
            }
        } else {
            assert(init_queue(nodes, failed, n) =~= prev);
            assert forall|x: int| 0 <= x < 256 implies (init_queue(nodes, failed, n).contains(x as u8) <==> (
            x < n && live(nodes, failed, x) && nodes[x].deps@.len() == 0)) by {
                assert((x as u8) as int == x);
                assert(prev.contains(x as u8) <==> (x < n - 1 && live(nodes, failed, x)
                    && nodes[x].deps@.len() == 0));
            }
        }
    }
}

/// The live nodes among the first `n`.
pub open spec fn live_set(nodes: Seq<CmdNode>, failed: Set<int>, n: int) -> Set<int> {
    Set::new(|i: int| 0 <= i < n && i < nodes.len() && !failed.contains(i))
}

pub proof fn lemma_live_set_len(nodes: Seq<CmdNode>, failed: Set<int>, n: int)
    requires
        0 <= n <= nodes.len(),
    ensures
        live_set(nodes, failed, n).finite(),
        live_set(nodes, failed, n).len() == live_count(nodes, failed, n),
    decreases n,
{
    if n == 0 {
        assert(live_set(nodes, failed, n) =~= Set::<int>::empty());
    } else {
        lemma_live_set_len(nodes, failed, n - 1);
        if failed.contains(n - 1) {
            assert(live_set(nodes, failed, n) =~= live_set(nodes, failed, n - 1));
        } else {
            assert(live_set(nodes, failed, n) =~= live_set(nodes, failed, n - 1).insert(n - 1));
        }
    }
}


/// A sequence of distinct integers in `[0, m)` has at most `m` entries.
pub proof fn lemma_distinct_bounded_int(s: Seq<int>, m: int)
    requires
        s.no_duplicates(),
        forall|k: int| 0 <= k < s.len() ==> 0 <= #[trigger] s[k] < m,
        0 <= m,
    ensures
        s.len() <= m,
{
    s.unique_seq_to_set();
    assert forall|x: int| s.to_set().contains(x) implies set_int_range(0, m).contains(x) by {
        let i = choose|i: int| 0 <= i < s.len() && s[i] == x;
    }
    lemma_int_range(0, m);
    lemma_len_subset(s.to_set(), set_int_range(0, m));
}


/// Each node's slice of the flat array, between its offset and the next
/// node's offset (or the number of entries laid out, `total`, for the last
/// node), lists the live nodes that depend on it.
pub open spec fn layout_matches(
    nodes: Seq<CmdNode>,
    failed: Set<int>,
    flat: Seq<u8>,
    offsets: Seq<u16>,
    total: int,
) -> bool {
    forall|u: int|
        0 <= u < nodes.len() ==> nbr_start(offsets, u) <= nbr_end(offsets, u, nodes.len() as int, total)
            && #[trigger] flat.subrange(
            nbr_start(offsets, u),
            nbr_end(offsets, u, nodes.len() as int, total),
        ) == srcs(edge_list(nodes, failed, nodes.len() as int), u)
}


/// On a faithful graph the reverse adjacency is built inside its array, and
/// each node's slice lists exactly the live nodes that depend on it.
pub proof fn lemma_faithful_layout(nodes: Seq<CmdNode>, failed: Set<int>, n: int, max: int)
    requires
        faithful(nodes, failed, n, max),
        0 <= max,
    ensures
        layout_ready(nodes, failed, n, max),
        layout_in_bounds(nodes, failed, n, max),
        new_error(nodes, failed, n, max) is None,
        layout_matches(
            nodes,
            failed,
            init_flat(nodes, failed, n, max),
            graph_offsets(nodes, failed, n),
            prefix_offset(init_counts(nodes, failed, n), nodes.len() as int) as int,
        ),
{
    let len = nodes.len() as int;
    let edges = edge_list(nodes, failed, len);
    let dl = dep_list(nodes, failed, len);
    let offs = graph_offsets(nodes, failed, n);
    lemma_faithful_no_error(nodes, failed, n, max);
    lemma_edge_list_deps(nodes, failed, len);
    lemma_fill_layout(nodes, failed, n, max, edges.len() as int);
    assert(edges.take(edges.len() as int) =~= edges);
    assert(dl.take(dl.len() as int) =~= dl);
    assert(zeros(max) =~= Seq::new(max as nat, |k: int| 0u8));
    let flat = init_flat(nodes, failed, n, max);
    lemma_sum_counts_total(dl, len);
    let total = prefix_offset(init_counts(nodes, failed, n), len) as int;
    lemma_offsets_exact(nodes, failed, n, max, len);
    assert forall|u: int| 0 <= u < nodes.len() implies nbr_start(offs, u) <= nbr_end(offs, u, len, total)
        && #[trigger] flat.subrange(nbr_start(offs, u), nbr_end(offs, u, len, total)) == srcs(edges, u) by {
        lemma_offsets_exact(nodes, failed, n, max, u);
        assert(offs[u] == sum_counts(dl, u));
        lemma_sum_counts_mono(dl, u + 1, len);
        if u + 1 < len {
            lemma_offsets_exact(nodes, failed, n, max, u + 1);
        }
    }
}


/// `c` is a dependency cycle of live nodes: each node depends on the next,
/// and the last on the first.
pub open spec fn is_dep_cycle(nodes: Seq<CmdNode>, failed: Set<int>, c: Seq<int>) -> bool {
    &&& c.len() > 0
    &&& forall|i: int| 0 <= i < c.len() ==> live(nodes, failed, #[trigger] c[i])
    &&& forall|i: int|
        0 <= i < c.len() ==> nodes[#[trigger] c[i]].deps@.contains(c[(i + 1) % (c.len() as int)] as u8)
}

/// Every node of `done` comes after all of its dependencies.
pub open spec fn deps_first(nodes: Seq<CmdNode>, done: Seq<int>) -> bool {
    forall|k: int, j: int|
        0 <= k < done.len() && 0 <= j < nodes[done[k]].deps@.len() ==> done.take(k).contains(
            #[trigger] nodes[done[k]].deps@[j] as int,
        )
}

/// The position of `x` in `done`.
pub open spec fn pos_in(done: Seq<int>, x: int) -> int {
    choose|m: int| 0 <= m < done.len() && done[m] == x
}

proof fn lemma_cycle_step(nodes: Seq<CmdNode>, failed: Set<int>, done: Seq<int>, c: Seq<int>, i: int)
    requires
        is_dep_cycle(nodes, failed, c),
        nodes.len() <= 256,
        deps_first(nodes, done),
        done.no_duplicates(),
        forall|k: int| 0 <= k < c.len() ==> done.contains(#[trigger] c[k]),
        0 <= i < c.len(),
    ensures
        0 <= pos_in(done, c[(i + 1) % (c.len() as int)]) < pos_in(done, c[i]) < done.len(),
        done[pos_in(done, c[i])] == c[i],
{
    let l = c.len() as int;
    let x = c[i];
    let y = c[(i + 1) % l];
    assert(0 <= (i + 1) % l < l);
    assert(done.contains(x));
    assert(done.contains(y));
    let px = pos_in(done, x);
    let py = pos_in(done, y);
    assert(live(nodes, failed, x));
    assert(live(nodes, failed, y));
    assert(nodes[x].deps@.contains(y as u8));
    let j = choose|j: int| 0 <= j < nodes[x].deps@.len() && nodes[x].deps@[j] == y as u8;
    assert((y as u8) as int == y);
    assert(done.take(px).contains(nodes[done[px]].deps@[j] as int));
    let m = choose|m: int| 0 <= m < done.take(px).len() && done.take(px)[m] == y;
    assert(done[m] == y);
    if m != py {
        assert(done[m] == done[py]);
    }
}

proof fn lemma_cycle_descends(
    nodes: Seq<CmdNode>,
    failed: Set<int>,
    done: Seq<int>,
    c: Seq<int>,
    i: int,
)
    requires
        is_dep_cycle(nodes, failed, c),
        nodes.len() <= 256,
        deps_first(nodes, done),
        done.no_duplicates(),
        forall|k: int| 0 <= k < c.len() ==> done.contains(#[trigger] c[k]),
        0 <= i < c.len(),
    ensures
        pos_in(done, c[i]) + i <= pos_in(done, c[0]),
    decreases i,
{
    if i > 0 {
        lemma_cycle_descends(nodes, failed, done, c, i - 1);
        lemma_cycle_step(nodes, failed, done, c, i - 1);
        lemma_small_mod(i as nat, c.len());
        assert(i - 1 + 1 == i);
    }
}

/// No order of nodes that puts every node after its dependencies holds a
/// whole dependency cycle.
#[verifier::spinoff_prover]
pub proof fn lemma_cycle_not_ordered(nodes: Seq<CmdNode>, failed: Set<int>, done: Seq<int>, c: Seq<int>)
    requires
        is_dep_cycle(nodes, failed, c),
        nodes.len() <= 256,
        deps_first(nodes, done),
        done.no_duplicates(),
    ensures
        exists|k: int| 0 <= k < c.len() && !done.contains(#[trigger] c[k]),
{
    if forall|k: int| 0 <= k < c.len() ==> done.contains(#[trigger] c[k]) {
        let l = c.len() as int;
        lemma_cycle_descends(nodes, failed, done, c, l - 1);
        lemma_cycle_step(nodes, failed, done, c, l - 1);
        lemma_mod_self_0(l);
        assert(l - 1 + 1 == l);
    }
}

/// Every entry of `o` is a live node and comes after all of its dependencies.
pub open spec fn dep_ordered(nodes: Seq<CmdNode>, failed: Set<int>, o: Seq<int>) -> bool {
    &&& forall|k: int| 0 <= k < o.len() ==> live(nodes, failed, #[trigger] o[k])
    &&& deps_first(nodes, o)
}

/// The live nodes can all be put in one order in which every node comes after
/// all of its dependencies.
pub open spec fn orderable(nodes: Seq<CmdNode>, failed: Set<int>) -> bool {
    exists|o: Seq<int>|
        dep_ordered(nodes, failed, o) && forall|v: int| live(nodes, failed, v) ==> #[trigger] o.contains(v)
}

/// `order` is what Kahn's algorithm returns: distinct live nodes, each after
/// all of its dependencies, and among them every node that can be preceded by
/// all of its dependencies at all (every entry of every such sequence).
pub open spec fn kahn_order(nodes: Seq<CmdNode>, failed: Set<int>, order: Seq<int>) -> bool {
    &&& order.no_duplicates()
    &&& dep_ordered(nodes, failed, order)
    &&& forall|o: Seq<int>, k: int|
        #![trigger dep_ordered(nodes, failed, o), o[k]]
        dep_ordered(nodes, failed, o) && 0 <= k < o.len() ==> order.contains(o[k])
}

/// For Kahn's order, the graph is orderable exactly when the order holds every
/// live node.
pub proof fn lemma_kahn_order_orderable(nodes: Seq<CmdNode>, failed: Set<int>, order: Seq<int>)
    requires
        kahn_order(nodes, failed, order),
    ensures
        orderable(nodes, failed) <==> forall|v: int| live(nodes, failed, v) ==> #[trigger] order.contains(v),
{
    if orderable(nodes, failed) {
        let o = choose|o: Seq<int>|
            dep_ordered(nodes, failed, o) && forall|v: int| live(nodes, failed, v) ==> #[trigger] o.contains(v);
        assert forall|v: int| live(nodes, failed, v) implies #[trigger] order.contains(v) by {
            assert(o.contains(v));
            let k = choose|k: int| 0 <= k < o.len() && o[k] == v;
            assert(dep_ordered(nodes, failed, o));
            assert(order.contains(o[k]));
        }
    }
    if forall|v: int| live(nodes, failed, v) ==> #[trigger] order.contains(v) {
        assert(dep_ordered(nodes, failed, order));
    }
}

/// A dependency list with every entry done has nothing pending.
pub proof fn lemma_pending_all_done(s: Seq<u8>, done: Seq<int>)
    requires
        forall|j: int| 0 <= j < s.len() ==> done.contains(#[trigger] s[j] as int),
    ensures
        pending(s, done) == 0,
    decreases s.len(),
{
    if s.len() > 0 {
        assert forall|j: int| 0 <= j < s.drop_last().len() implies done.contains(
            #[trigger] s.drop_last()[j] as int,
        ) by {
            assert(s.drop_last()[j] == s[j]);
        }
        lemma_pending_all_done(s.drop_last(), done);
        assert(done.contains(s[s.len() - 1] as int));
    }
}

/// Without live nodes there is nothing to queue and no edge to lay out.
pub proof fn lemma_no_live(nodes: Seq<CmdNode>, failed: Set<int>, n: int)
    requires
        0 <= n <= nodes.len(),
        live_count(nodes, failed, n) == 0,
    ensures
        forall|i: int| 0 <= i < n ==> failed.contains(i),
        init_queue(nodes, failed, n) =~= Seq::<u8>::empty(),
        edge_list(nodes, failed, n) =~= Seq::<(u8, u8)>::empty(),
        dep_list(nodes, failed, n) =~= Seq::<u8>::empty(),
    decreases n,
{
    if n > 0 {
        lemma_no_live(nodes, failed, n - 1);
    }
}

/// Without live nodes, the empty order is Kahn's order and the graph is
/// (trivially) orderable.
pub proof fn lemma_no_live_order(nodes: Seq<CmdNode>, failed: Set<int>)
    requires
        live_count(nodes, failed, nodes.len() as int) == 0,
    ensures
        kahn_order(nodes, failed, Seq::empty()),
        orderable(nodes, failed),
        forall|v: int| !live(nodes, failed, v),
{
    lemma_no_live(nodes, failed, nodes.len() as int);
    assert forall|v: int| !live(nodes, failed, v) by {
        if 0 <= v < nodes.len() {
            assert(failed.contains(v));
        }
    }
    let e = Seq::<int>::empty();
    assert forall|o: Seq<int>, k: int|
        #![trigger dep_ordered(nodes, failed, o), o[k]]
        dep_ordered(nodes, failed, o) && 0 <= k < o.len() implies e.contains(o[k]) by {
        assert(live(nodes, failed, o[k]));
    }
    assert(dep_ordered(nodes, failed, e));
    assert(forall|v: int| live(nodes, failed, v) ==> #[trigger] e.contains(v));
}


/// Node `v` stands in some sequence of live nodes, each after its
/// dependencies.
pub open spec fn in_some_order(nodes: Seq<CmdNode>, failed: Set<int>, v: int) -> bool {
    exists|o: Seq<int>| dep_ordered(nodes, failed, o) && #[trigger] o.contains(v)
}

proof fn lemma_concat_ordered(nodes: Seq<CmdNode>, failed: Set<int>, a: Seq<int>, b: Seq<int>)
    requires
        dep_ordered(nodes, failed, a),
        dep_ordered(nodes, failed, b),
    ensures
        dep_ordered(nodes, failed, a + b),
{
    let c = a + b;
    assert forall|k: int| 0 <= k < c.len() implies live(nodes, failed, #[trigger] c[k]) by {
        if k < a.len() {
            assert(c[k] == a[k]);
        } else {
            assert(c[k] == b[k - a.len()]);
        }
    }
    assert forall|k: int, j: int|
        0 <= k < c.len() && 0 <= j < nodes[c[k]].deps@.len() implies c.take(k).contains(
        #[trigger] nodes[c[k]].deps@[j] as int,
    ) by {
        let d = nodes[c[k]].deps@[j] as int;
        if k < a.len() {
            assert(c[k] == a[k]);
            assert(a.take(k).contains(d));
            let m = choose|m: int| 0 <= m < a.take(k).len() && a.take(k)[m] == d;
            assert(c.take(k)[m] == d);
        } else {
            let kb = k - a.len();
            assert(c[k] == b[kb]);
            assert(b.take(kb).contains(d));
            let m = choose|m: int| 0 <= m < b.take(kb).len() && b.take(kb)[m] == d;
            assert(c.take(k)[a.len() + m] == d);
        }
    }
}

/// A sequence of live nodes, each after its dependencies, that holds the
/// first `j` entries of `vs` whenever each of them is in some order.
proof fn lemma_gather(nodes: Seq<CmdNode>, failed: Set<int>, vs: Seq<int>, j: int) -> (o: Seq<int>)
    requires
        0 <= j <= vs.len(),
        forall|k: int| 0 <= k < j ==> in_some_order(nodes, failed, #[trigger] vs[k]),
    ensures
        dep_ordered(nodes, failed, o),
        forall|k: int| 0 <= k < j ==> o.contains(#[trigger] vs[k]),
    decreases j,
{
    if j == 0 {
        Seq::empty()
    } else {
        let prev = lemma_gather(nodes, failed, vs, j - 1);
        assert(in_some_order(nodes, failed, vs[j - 1]));
        let p = choose|p: Seq<int>| dep_ordered(nodes, failed, p) && #[trigger] p.contains(vs[j - 1]);
        lemma_concat_ordered(nodes, failed, prev, p);
        let o = prev + p;
        assert forall|k: int| 0 <= k < j implies o.contains(#[trigger] vs[k]) by {
            if k < j - 1 {
                let m = choose|m: int| 0 <= m < prev.len() && prev[m] == vs[k];
                assert(o[m] == vs[k]);
            } else {
                let m = choose|m: int| 0 <= m < p.len() && p[m] == vs[k];
                assert(o[prev.len() + m] == vs[k]);
            }
        }
        o
    }
}

/// A live node whose dependencies are all in some order is in some order.
proof fn lemma_deps_ordered(nodes: Seq<CmdNode>, failed: Set<int>, v: int)
    requires
        live(nodes, failed, v),
        forall|j: int| 0 <= j < nodes[v].deps@.len() ==> in_some_order(nodes, failed, #[trigger] nodes[v].deps@[j] as int),
    ensures
        in_some_order(nodes, failed, v),
{
    let vs = nodes[v].deps@.map_values(|d: u8| d as int);
    assert forall|k: int| 0 <= k < vs.len() implies in_some_order(nodes, failed, #[trigger] vs[k]) by {
        assert(vs[k] == nodes[v].deps@[k] as int);
    }
    let o = lemma_gather(nodes, failed, vs, vs.len() as int);
    let o2 = o.push(v);
    assert forall|k: int| 0 <= k < o2.len() implies live(nodes, failed, #[trigger] o2[k]) by {
        if k < o.len() {
            assert(o2[k] == o[k]);
        }
    }
    assert forall|k: int, j: int|
        0 <= k < o2.len() && 0 <= j < nodes[o2[k]].deps@.len() implies o2.take(k).contains(
        #[trigger] nodes[o2[k]].deps@[j] as int,
    ) by {
        if k < o.len() {
            assert(o2[k] == o[k]);
            assert(o2.take(k) =~= o.take(k));
        } else {
            assert(o2.take(k) =~= o);
            assert(vs[j] == nodes[v].deps@[j] as int);
            assert(o.contains(vs[j]));
        }
    }
    assert(o2[o.len() as int] == v);
    assert(dep_ordered(nodes, failed, o2) && o2.contains(v));
}

/// The walk from `v` that steps, `k` times, to a dependency in no order.
spec fn stuck_walk(nodes: Seq<CmdNode>, failed: Set<int>, v: int, k: nat) -> Seq<int>
    decreases k,
{
    if k == 0 {
        seq![v]
    } else {
        let w = stuck_walk(nodes, failed, v, (k - 1) as nat);
        let u = w.last();
        w.push(
            choose|d: int|
                nodes[u].deps@.contains(d as u8) && 0 <= d < 256 && !in_some_order(nodes, failed, d),
        )
    }
}

proof fn lemma_stuck_walk(nodes: Seq<CmdNode>, v: int, k: nat)
    requires
        live(nodes, Set::empty(), v),
        !in_some_order(nodes, Set::empty(), v),
        deps_below(nodes, Set::empty(), nodes.len() as int),
    ensures
        stuck_walk(nodes, Set::empty(), v, k).len() == k + 1,
        forall|i: int|
            0 <= i <= k ==> live(nodes, Set::empty(), #[trigger] stuck_walk(nodes, Set::empty(), v, k)[i])
                && !in_some_order(nodes, Set::empty(), stuck_walk(nodes, Set::empty(), v, k)[i]),
        forall|i: int|
            0 <= i < k ==> nodes[#[trigger] stuck_walk(nodes, Set::empty(), v, k)[i]].deps@.contains(
                stuck_walk(nodes, Set::empty(), v, k)[i + 1] as u8,
            ),
    decreases k,
{
    let failed = Set::<int>::empty();
    if k > 0 {
        lemma_stuck_walk(nodes, v, (k - 1) as nat);
        let w = stuck_walk(nodes, failed, v, (k - 1) as nat);
        let u = w.last();
        assert(live(nodes, failed, w[k - 1]));
        assert(!in_some_order(nodes, failed, u));
        if forall|j: int| 0 <= j < nodes[u].deps@.len() ==> in_some_order(nodes, failed, #[trigger] nodes[u].deps@[j] as int) {
            lemma_deps_ordered(nodes, failed, u);
        }
        let j = choose|j: int| 0 <= j < nodes[u].deps@.len() && !in_some_order(nodes, failed, #[trigger] nodes[u].deps@[j] as int);
        let dd = nodes[u].deps@[j] as int;
        assert(nodes[u].deps@.contains(dd as u8));
        let d = choose|d: int|
            nodes[u].deps@.contains(d as u8) && 0 <= d < 256 && !in_some_order(nodes, failed, d);
        let w2 = stuck_walk(nodes, failed, v, k);
        assert(w2 == w.push(d));
        let m = choose|m: int| 0 <= m < nodes[u].deps@.len() && nodes[u].deps@[m] == d as u8;
        lemma_dep_list_member(nodes, failed, u, m);
        assert(d == (d as u8) as int);
        assert forall|i: int|
            0 <= i <= k implies live(nodes, failed, #[trigger] w2[i]) && !in_some_order(nodes, failed, w2[i]) by {
            if i < k {
                assert(w2[i] == w[i]);
            }
        }
        assert forall|i: int| 0 <= i < k implies nodes[#[trigger] w2[i]].deps@.contains(w2[i + 1] as u8) by {
            assert(w2[i] == w[i]);
            if i < k - 1 {
                assert(w2[i + 1] == w[i + 1]);
            }
        }
    }
}

/// A dependency of a live node is below `len` when every dependency in the
/// live part of the graph is.
proof fn lemma_dep_list_member(nodes: Seq<CmdNode>, failed: Set<int>, u: int, m: int)
    requires
        live(nodes, failed, u),
        0 <= m < nodes[u].deps@.len(),
        deps_below(nodes, failed, nodes.len() as int),
    ensures
        nodes[u].deps@[m] < nodes.len(),
{
    let dl = dep_list(nodes, failed, nodes.len() as int);
    let pre = dep_list(nodes, failed, u);
    let cur = dep_list(nodes, failed, u + 1);
    assert(cur == pre + nodes[u].deps@);
    lemma_dep_list_prefix(nodes, failed, u + 1, nodes.len() as int);
    assert(cur[pre.len() + m] == nodes[u].deps@[m]);
    assert(dl[pre.len() + m] == cur[pre.len() + m]);
}

/// With no node marked as failed and every dependency a node, a graph whose
/// nodes cannot all be ordered has a dependency cycle.
#[verifier::spinoff_prover]
#[verifier::rlimit(50)]
pub proof fn law_unorderable_has_cycle(nodes: Seq<CmdNode>)
    requires
        deps_below(nodes, Set::empty(), nodes.len() as int),
        !orderable(nodes, Set::empty()),
    ensures
        exists|c: Seq<int>| #[trigger] is_dep_cycle(nodes, Set::empty(), c),
{
    let failed = Set::<int>::empty();
    let len = nodes.len() as int;
    let vs = Seq::new(len as nat, |i: int| i);
    if forall|k: int| 0 <= k < len ==> in_some_order(nodes, failed, #[trigger] vs[k]) {
        let o = lemma_gather(nodes, failed, vs, len);
        assert forall|v: int| live(nodes, failed, v) implies #[trigger] o.contains(v) by {
            assert(vs[v] == v);
        }
        assert(false);
    }
    let v = choose|k: int| 0 <= k < len && !in_some_order(nodes, failed, #[trigger] vs[k]);
    assert(vs[v] == v);
    lemma_stuck_walk(nodes, v, len as nat);
    let w = stuck_walk(nodes, failed, v, len as nat);
    if w.no_duplicates() {
        assert forall|k: int| 0 <= k < w.len() implies 0 <= #[trigger] w[k] < len by {
            assert(live(nodes, failed, w[k]));
        }
        lemma_distinct_bounded_int(w, len);
        assert(false);
    }
    let (i, j) = choose|i: int, j: int| 0 <= i < w.len() && 0 <= j < w.len() && i != j && w[i] == w[j];
    let lo = if i < j { i } else { j };
    let hi = if i < j { j } else { i };
    let c = w.subrange(lo, hi);
    let l = c.len() as int;
    assert forall|k: int| 0 <= k < l implies live(nodes, failed, #[trigger] c[k]) by {
        assert(c[k] == w[lo + k]);
    }
    assert forall|k: int| 0 <= k < l implies nodes[#[trigger] c[k]].deps@.contains(c[(k + 1) % l] as u8) by {
        assert(c[k] == w[lo + k]);
        if k < l - 1 {
            lemma_small_mod((k + 1) as nat, l as nat);
            assert(c[(k + 1) % l] == w[lo + k + 1]);
        } else {
            lemma_mod_self_0(l);
            assert((k + 1) % l == 0);
            assert(c[0] == w[lo]);
            assert(w[lo + k + 1] == w[hi]);
        }
    }
    assert(is_dep_cycle(nodes, failed, c));
}

} // verus!
