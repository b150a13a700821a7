//! Command dependency graphs and the topological ordering of their commands.

use vstd::prelude::*;
use crate::compat::util::{law_bitflags_bounded, BitFlags};
use crate::compat::text::{byte_hex_text, decimal_text, push_byte_hex, push_decimal};
use crate::compat::util::{garbled_lines, prevent_garbled};
use vstd::set_lib::{lemma_len_subset, lemma_subset_equality};
use crate::compat::err_compat::HalErrorExt;
use crate::compat::i2c_compat::{I2cCompat, WriteEntry};
use crate::scanner::outcome_of;
use crate::error::{explorer_error_of, ErrorKind, ExecutorError, ExplorerError};
use crate::explore::graph::{
    dep_list, deps_below, edge_list, fill, fill_in_bounds, init_counts, init_degrees, init_flat,
    init_offsets, init_queue, layout_in_bounds, layout_ready, lemma_count_of_push,
    lemma_dep_list_prefix, lemma_edge_list_prefix, lemma_fill_entries_bounded,
    lemma_fill_in_bounds_prefix, lemma_init_queue_bounded, lemma_init_queue_len,
    lemma_live_count_le, lemma_prefix_offset_mono, lemma_relax_bounded, live, live_count,
    nbr_end, nbr_start, new_error, node_edges, prefix_offset, relax, sat_u16, sat_u8, count_of,
    all_below, faithful, lemma_count_pos_exists, lemma_distinct_bounded, lemma_pending_zero, lemma_distinct_bounded_int,
    lemma_no_dup_concat, lemma_pending_ge_count, lemma_pending_push, lemma_push_contains,
    lemma_relax_effect, lemma_srcs_edges, pending, srcs, layout_matches, graph_offsets,
    lemma_faithful_layout, lemma_init_queue_members, lemma_pending_empty, deps_first, is_dep_cycle,
    lemma_cycle_not_ordered, lemma_live_set_len, lemma_pending_pos_exists, live_set, dep_ordered,
    orderable, kahn_order, law_unorderable_has_cycle, lemma_kahn_order_orderable, lemma_pending_all_done,
};

verus! {

/// One initialization command: the bytes to send and the indices of the
/// commands that must run before it.
#[derive(Copy, Clone)]
pub struct CmdNode {
    pub bytes: &'static [u8],
    pub deps: &'static [u8],
}

/// Holds all initialization commands of a device and their dependencies.
/// `N` bounds the number of commands and `MAX_DEPS_TOTAL` the number of
/// dependency edges.
pub struct Explorer<const N: usize, const MAX_DEPS_TOTAL: usize> {
    pub nodes: &'static [CmdNode],
}

/// What an exploration found: the addresses in the first `found_addrs_len`
/// entries of `found_addrs`, and the number of orders tried.
pub struct ExploreResult {
    pub found_addrs: [u8; 128],
    pub found_addrs_len: usize,
    pub permutations_tested: usize,
}

// ---------------------------------------------------------------------------
// The iterator.
// ---------------------------------------------------------------------------

/// A stateful iterator for generating a single topological sort using Kahn's algorithm.
/// This avoids allocating the entire sorted sequence in memory at once.
pub struct TopologicalIter<'a, const N: usize, const MAX_DEPS_TOTAL: usize> {
    nodes: &'a [CmdNode],
    in_degree: [u8; N],
    adj_list_rev_flat: [u8; MAX_DEPS_TOTAL],
    adj_list_rev_offsets: [u16; N],
    queue: Vec<u8>,
    visited_count: usize,
    total_non_failed: usize,
    /// The number of entries laid out in the flat reverse-adjacency array.
    edge_total: usize,
    /// The indices returned so far, oldest first.
    emitted: Ghost<Seq<int>>,
    /// The failed nodes the iterator was built with.
    failed: Ghost<Set<int>>,
}

impl<'a, const N: usize, const MAX_DEPS_TOTAL: usize> TopologicalIter<'a, N, MAX_DEPS_TOTAL> {
    pub closed spec fn node_seq(&self) -> Seq<CmdNode> {
        self.nodes@
    }

    pub closed spec fn degrees(&self) -> Seq<u8> {
        self.in_degree@
    }

    pub closed spec fn flat(&self) -> Seq<u8> {
        self.adj_list_rev_flat@
    }

    pub closed spec fn offsets(&self) -> Seq<u16> {
        self.adj_list_rev_offsets@
    }

    /// The nodes ready to be returned; the last one comes next.
    pub closed spec fn queue_view(&self) -> Seq<u8> {
        self.queue@
    }

    pub closed spec fn visited(&self) -> nat {
        self.visited_count as nat
    }

    pub closed spec fn total(&self) -> nat {
        self.total_non_failed as nat
    }

    /// The number of entries laid out in the flat reverse-adjacency array.
    pub closed spec fn edge_count(&self) -> int {
        self.edge_total as int
    }

    /// The indices returned so far, oldest first.
    pub closed spec fn emitted(&self) -> Seq<int> {
        self.emitted@
    }

    /// The failed nodes the iterator was built with.
    pub closed spec fn failed_set(&self) -> Set<int> {
        self.failed@
    }

    /// The shape every iterator keeps: array sizes, and queue and array entries
    /// that index the in-degree array.
    pub closed spec fn wf(&self) -> bool {
        &&& self.queue@.len() <= N
        &&& forall|k: int| 0 <= k < self.queue@.len() ==> #[trigger] self.queue@[k] < N
        &&& N > 0 ==> forall|k: int|
            0 <= k < MAX_DEPS_TOTAL ==> #[trigger] self.adj_list_rev_flat@[k] < N
        &&& forall|k: int| 0 <= k < N ==> #[trigger] self.adj_list_rev_offsets@[k] <= MAX_DEPS_TOTAL
        &&& self.edge_total <= MAX_DEPS_TOTAL
        &&& self.nodes@.len() <= N
    }

    /// The state `new` builds for `nodes` and the failed set `failed`: the
    /// initial in-degrees, reverse adjacency and queue, nothing returned yet.
    pub open spec fn built_from(&self, nodes: Seq<CmdNode>, failed: Set<int>) -> bool {
        let len = nodes.len() as int;
        &&& self.wf()
        &&& self.node_seq() == nodes
        &&& self.failed_set() == failed
        &&& self.degrees() == init_degrees(nodes, failed, N as int)
        &&& self.offsets() == init_offsets(init_counts(nodes, failed, N as int), len, N as int)
        &&& self.flat() == init_flat(nodes, failed, N as int, MAX_DEPS_TOTAL as int)
        &&& self.edge_count() == prefix_offset(init_counts(nodes, failed, N as int), len) as int
        &&& self.queue_view() == init_queue(nodes, failed, len)
        &&& self.visited() == 0
        &&& self.total() == live_count(nodes, failed, len)
        &&& self.emitted() == Seq::<int>::empty()
    }

    pub fn new(explorer: &'a Explorer<N, MAX_DEPS_TOTAL>, failed_nodes: &BitFlags) -> (r: Result<
        Self,
        ExplorerError,
    >)
        requires
            layout_ready(explorer.nodes@, failed_nodes@, N as int, MAX_DEPS_TOTAL as int)
                ==> layout_in_bounds(explorer.nodes@, failed_nodes@, N as int, MAX_DEPS_TOTAL as int),
        ensures
            match new_error(explorer.nodes@, failed_nodes@, N as int, MAX_DEPS_TOTAL as int) {
                Some(e) => r == Err::<Self, ExplorerError>(e),
                None => r is Ok,
            },
            r matches Ok(it) ==> it.built_from(explorer.nodes@, failed_nodes@),
            faithful(explorer.nodes@, failed_nodes@, N as int, MAX_DEPS_TOTAL as int) ==> (r matches Ok(
                it,
            ) && it.kahn_inv()),
    {
        let ghost nodes = explorer.nodes@;
        let ghost failed = failed_nodes@;
        proof {
            if faithful(nodes, failed, N as int, MAX_DEPS_TOTAL as int) {
                lemma_faithful_layout(nodes, failed, N as int, MAX_DEPS_TOTAL as int);
            }
        }
        let len = explorer.nodes.len();
        if len > N {
            return Err(ExplorerError::TooManyCommands);
        }
        let mut in_degree: [u8; N] = [0u8; N];
        let mut adj_list_rev_offsets: [u16; N] = [0u16; N];
        let mut adj_list_rev_flat: [u8; MAX_DEPS_TOTAL] = [0u8; MAX_DEPS_TOTAL];
        let mut total_non_failed: usize = 0;

        // Pass 1: Calculate in-degrees and count the reverse edges of each node.
        let mut rev_adj_counts: [u16; N] = [0u16; N];
        let mut i: usize = 0;
        while i < len
            invariant
                len == nodes.len(),
                len <= N,
                nodes == explorer.nodes@,
                failed == failed_nodes@,
                i <= len,
                total_non_failed == live_count(nodes, failed, i as int),
                forall|d: int|
                    0 <= d < N ==> #[trigger] rev_adj_counts@[d] == sat_u16(
                        count_of(dep_list(nodes, failed, i as int), d) as int,
                    ),
                forall|k: int|
                    0 <= k < N ==> #[trigger] in_degree@[k] == (if k < i && live(nodes, failed, k) {
                        sat_u8(nodes[k].deps@.len() as int)
                    } else {
                        0u8
                    }),
                forall|k: int|
                    0 <= k < dep_list(nodes, failed, i as int).len() ==> #[trigger] dep_list(
                        nodes,
                        failed,
                        i as int,
                    )[k] < len,
            decreases len - i,
        {
            let node = explorer.nodes[i];
            let is_failed = match failed_nodes.get(i) {
                Ok(b) => b,
                Err(_) => false,
            };
            proof {
                law_bitflags_bounded(*failed_nodes, i as int);
            }
            assert(is_failed == failed.contains(i as int));
            if !is_failed {
                proof {
                    lemma_live_count_le(nodes, failed, i as int);
                }
                total_non_failed += 1;
                let deps = node.deps;
                let ghost base = dep_list(nodes, failed, i as int);
                let mut j: usize = 0;
                while j < deps.len()
                    invariant
                        len == nodes.len(),
                        len <= N,
                        i < len,
                        nodes == explorer.nodes@,
                        failed == failed_nodes@,
                        !failed.contains(i as int),
                        deps@ == nodes[i as int].deps@,
                        base == dep_list(nodes, failed, i as int),
                        j <= deps@.len(),
                        forall|d: int|
                            0 <= d < N ==> #[trigger] rev_adj_counts@[d] == sat_u16(
                                count_of(base + deps@.take(j as int), d) as int,
                            ),
                        forall|k: int|
                            0 <= k < N ==> #[trigger] in_degree@[k] == (if k < i && live(
                                nodes,
                                failed,
                                k,
                            ) {
                                sat_u8(nodes[k].deps@.len() as int)
                            } else if k == i {
                                sat_u8(j as int)
                            } else {
                                0u8
                            }),
                        forall|k: int|
                            0 <= k < (base + deps@.take(j as int)).len() ==> #[trigger] (base
                                + deps@.take(j as int))[k] < len,
                    decreases deps@.len() - j,
                {
                    let dep_idx = deps[j] as usize;
                    if dep_idx >= len {
                        proof {
                            assert(!failed.contains(i as int));
                            assert(dep_list(nodes, failed, i + 1) =~= base + deps@);
                            lemma_dep_list_prefix(nodes, failed, i + 1, len as int);
                            let k = base.len() + j;
                            let dl = dep_list(nodes, failed, len as int);
                            let pre = dep_list(nodes, failed, i + 1);
                            assert(dl.subrange(0, pre.len() as int)[k] == pre[k]);
                            assert(pre[k] == deps@[j as int]);
                            assert(dl[k] == deps@[j as int]);
                        }
                        return Err(ExplorerError::InvalidDependencyIndex);
                    }
                    in_degree[i] = in_degree[i].saturating_add(1);
                    rev_adj_counts[dep_idx] = rev_adj_counts[dep_idx].saturating_add(1);
                    proof {
                        assert(base + deps@.take(j + 1) =~= (base + deps@.take(j as int)).push(
                            deps@[j as int],
                        ));
                        assert forall|d: int| 0 <= d < N implies #[trigger] rev_adj_counts@[d]
                            == sat_u16(count_of(base + deps@.take(j + 1), d) as int) by {
                            lemma_count_of_push(base + deps@.take(j as int), deps@[j as int], d);
                        }
                    }
                    j += 1;
                }
                proof {
                    assert(deps@.take(j as int) =~= deps@);
                    assert(dep_list(nodes, failed, i + 1) =~= base + deps@);
                }
            } else {
                proof {
                    assert(dep_list(nodes, failed, i + 1) =~= dep_list(nodes, failed, i as int));
                }
            }
            i += 1;
        }
        assert(deps_below(nodes, failed, len as int));
        assert(deps_below(nodes, failed, N as int));
        proof {
            assert(rev_adj_counts@ =~= init_counts(nodes, failed, N as int));
            assert(in_degree@ =~= init_degrees(nodes, failed, N as int));
        }
        let ghost counts = init_counts(nodes, failed, N as int);

        // The offset of each node's slice in the flat array.
        let mut current_offset: u16 = 0;
        let mut i: usize = 0;
        while i < len
            invariant
                len == nodes.len(),
                len <= N,
                i <= len,
                rev_adj_counts@ == counts,
                counts.len() == N,
                current_offset == prefix_offset(counts, i as int),
                forall|k: int|
                    0 <= k < N ==> #[trigger] adj_list_rev_offsets@[k] == (if k < i {
                        prefix_offset(counts, k)
                    } else {
                        0u16
                    }),
            decreases len - i,
        {
            adj_list_rev_offsets[i] = current_offset;
            current_offset = current_offset.saturating_add(rev_adj_counts[i]);
            i += 1;
        }
        if current_offset as usize > MAX_DEPS_TOTAL {
            return Err(ExplorerError::BufferOverflow);
        }
        let ghost offsets = init_offsets(counts, len as int, N as int);
        assert(adj_list_rev_offsets@ =~= offsets);
        let ghost edges = edge_list(nodes, failed, len as int);
        let ghost zeros = Seq::new(MAX_DEPS_TOTAL as nat, |k: int| 0u8);
        assert(adj_list_rev_flat@ =~= zeros);
        assert(layout_ready(nodes, failed, N as int, MAX_DEPS_TOTAL as int));
        assert(fill_in_bounds(edges, zeros, offsets, MAX_DEPS_TOTAL as int));

        // Pass 2: Populate the flat array using the pre-calculated offsets.
        let mut write_pointers: [u16; N] = adj_list_rev_offsets;
        let mut i: usize = 0;
        while i < len
            invariant
                len == nodes.len(),
                len <= N,
                nodes == explorer.nodes@,
                failed == failed_nodes@,
                i <= len,
                edges == edge_list(nodes, failed, len as int),
                deps_below(nodes, failed, N as int),
                fill_in_bounds(edges, zeros, offsets, MAX_DEPS_TOTAL as int),
                (adj_list_rev_flat@, write_pointers@) == fill(
                    edge_list(nodes, failed, i as int),
                    zeros,
                    offsets,
                ),
            decreases len - i,
        {
            let node = explorer.nodes[i];
            let is_failed = match failed_nodes.get(i) {
                Ok(b) => b,
                Err(_) => false,
            };
            proof {
                law_bitflags_bounded(*failed_nodes, i as int);
            }
            assert(is_failed == failed.contains(i as int));
            if !is_failed {
                let deps = node.deps;
                let ghost base = edge_list(nodes, failed, i as int);
                let ghost mine = node_edges(deps@, i as int);
                proof {
                    assert(edge_list(nodes, failed, i + 1) =~= base + mine);
                    lemma_edge_list_prefix(nodes, failed, i + 1, len as int);
                    lemma_dep_list_prefix(nodes, failed, i + 1, len as int);
                    assert(dep_list(nodes, failed, i + 1) =~= dep_list(nodes, failed, i as int)
                        + deps@);
                    lemma_dep_list_prefix(nodes, failed, i as int, i + 1);
                    let dl = dep_list(nodes, failed, len as int);
                    let a = dep_list(nodes, failed, i as int).len() as int;
                    let b = dep_list(nodes, failed, i + 1).len() as int;
                    assert(dl.subrange(a, b) =~= dl.subrange(0, b).subrange(a, b));
                }
                let mut j: usize = 0;
                while j < deps.len()
                    invariant
                        len == nodes.len(),
                        len <= N,
                        i < len,
                        deps@ == nodes[i as int].deps@,
                        !failed.contains(i as int),
                        base == edge_list(nodes, failed, i as int),
                        mine == node_edges(deps@, i as int),
                        edges == edge_list(nodes, failed, len as int),
                        (base + mine).len() <= edges.len(),
                        edges.subrange(0, (base + mine).len() as int) =~= base + mine,
                        dep_list(nodes, failed, len as int).subrange(
                            dep_list(nodes, failed, i as int).len() as int,
                            (dep_list(nodes, failed, i as int).len() + deps@.len()) as int,
                        ) =~= deps@,
                        dep_list(nodes, failed, i as int).len() + deps@.len() <= dep_list(
                            nodes,
                            failed,
                            len as int,
                        ).len(),
                        deps_below(nodes, failed, N as int),
                        fill_in_bounds(edges, zeros, offsets, MAX_DEPS_TOTAL as int),
                        j <= deps@.len(),
                        (adj_list_rev_flat@, write_pointers@) == fill(
                            base + mine.take(j as int),
                            zeros,
                            offsets,
                        ),
                    decreases deps@.len() - j,
                {
                    let dep_idx = deps[j] as usize;
                    proof {
                        let k = dep_list(nodes, failed, i as int).len() + j;
                        assert(dep_list(nodes, failed, len as int)[k] == deps@[j as int]);
                        let pre = base + mine.take(j + 1);
                        assert(pre =~= (base + mine).subrange(0, pre.len() as int));
                        assert(edges.subrange(0, pre.len() as int) =~= edges.subrange(
                            0,
                            (base + mine).len() as int,
                        ).subrange(0, pre.len() as int));
                        assert(pre =~= edges.subrange(0, pre.len() as int));
                        lemma_fill_in_bounds_prefix(
                            edges,
                            zeros,
                            offsets,
                            MAX_DEPS_TOTAL as int,
                            pre.len() as int,
                        );
                        assert(pre.drop_last() =~= base + mine.take(j as int));
                        assert(pre.last() == (i as u8, deps@[j as int]));
                    }
                    let write_pos = write_pointers[dep_idx] as usize;
                    adj_list_rev_flat[write_pos] = i as u8;
                    write_pointers[dep_idx] = write_pointers[dep_idx].saturating_add(1);
                    j += 1;
                }
                proof {
                    assert(mine.take(j as int) =~= mine);
                }
            } else {
                proof {
                    assert(edge_list(nodes, failed, i + 1) =~= edge_list(nodes, failed, i as int));
                }
            }
            i += 1;
        }

        // The nodes without dependencies start the queue.
        let mut queue: Vec<u8> = Vec::new();
        let mut i: usize = 0;
        while i < len
            invariant
                len == nodes.len(),
                len <= N,
                nodes == explorer.nodes@,
                failed == failed_nodes@,
                i <= len,
                in_degree@ == init_degrees(nodes, failed, N as int),
                queue@ == init_queue(nodes, failed, i as int),
            decreases len - i,
        {
            let is_failed = match failed_nodes.get(i) {
                Ok(b) => b,
                Err(_) => false,
            };
            proof {
                law_bitflags_bounded(*failed_nodes, i as int);
                lemma_init_queue_len(nodes, failed, i as int);
            }
            if in_degree[i] == 0 && !is_failed {
                if queue.len() >= N {
                    return Err(ExplorerError::BufferOverflow);
                }
                queue.push(i as u8);
            }
            proof {
                assert(queue@ =~= init_queue(nodes, failed, i + 1));
            }
            i += 1;
        }
        proof {
            lemma_init_queue_len(nodes, failed, len as int);
            assert forall|k: int| 0 <= k < queue@.len() implies #[trigger] queue@[k] < N by {
                lemma_init_queue_bounded(nodes, failed, len as int, N as int, k);
            }
            if N > 0 {
                lemma_fill_entries_bounded(nodes, failed, zeros, offsets, N as int);
            }
            assert(adj_list_rev_flat@ == fill(edges, zeros, offsets).0);
            assert forall|k: int| 0 <= k < N implies #[trigger] adj_list_rev_offsets@[k]
                <= MAX_DEPS_TOTAL by {
                if k < len {
                    lemma_prefix_offset_mono(counts, k, len as int);
                }
            }
        }
        let it = Self {
            nodes: explorer.nodes,
            in_degree,
            adj_list_rev_flat,
            adj_list_rev_offsets,
            queue,
            visited_count: 0,
            total_non_failed,
            edge_total: current_offset as usize,
            emitted: Ghost(Seq::empty()),
            failed: Ghost(failed),
        };
        proof {
            if faithful(nodes, failed, N as int, MAX_DEPS_TOTAL as int) {
                Self::lemma_init_kahn(&it);
            }
        }
        Ok(it)
    }

    /// A freshly built iterator over a faithful graph satisfies the invariant.
    #[verifier::spinoff_prover]
    proof fn lemma_init_kahn(it: &Self)
        requires
            faithful(it.node_seq(), it.failed_set(), N as int, MAX_DEPS_TOTAL as int),
            it.wf(),
            it.degrees() == init_degrees(it.node_seq(), it.failed_set(), N as int),
            it.offsets() == graph_offsets(it.node_seq(), it.failed_set(), N as int),
            it.flat() == init_flat(it.node_seq(), it.failed_set(), N as int, MAX_DEPS_TOTAL as int),
            it.edge_count() == prefix_offset(
                init_counts(it.node_seq(), it.failed_set(), N as int),
                it.node_seq().len() as int,
            ) as int,
            it.queue_view() == init_queue(it.node_seq(), it.failed_set(), it.node_seq().len() as int),
            it.visited() == 0,
            it.total() == live_count(it.node_seq(), it.failed_set(), it.node_seq().len() as int),
            it.emitted() == Seq::<int>::empty(),
        ensures
            it.kahn_inv(),
    {
        let nodes = it.node_seq();
        let failed = it.failed_set();
        let len = nodes.len() as int;
        let done = it.emitted();
        lemma_faithful_layout(nodes, failed, N as int, MAX_DEPS_TOTAL as int);
        lemma_init_queue_members(nodes, failed, len);
        let q = it.queue_view();
        assert forall|v: int| 0 <= v < N implies #[trigger] it.degrees()[v] == (if live(nodes, failed, v)
            && !done.contains(v) {
            pending(nodes[v].deps@, done)
        } else {
            0
        }) by {
            lemma_pending_empty(nodes[v].deps@);
        }
        assert forall|k: int| 0 <= k < q.len() implies live(nodes, failed, #[trigger] q[k] as int)
            && !done.contains(q[k] as int) && pending(nodes[q[k] as int].deps@, done) == 0 by {
            let v = q[k] as int;
            assert(q.contains(q[k]));
            assert(q[k] < len);
            assert(v as u8 == q[k]);
            assert(q.contains(v as u8));
            assert(live(nodes, failed, v) && nodes[v].deps@.len() == 0);
            lemma_pending_empty(nodes[v].deps@);
            assert(pending(nodes[v].deps@, done) == 0);
            assert(!done.contains(v));
        }
        assert forall|v: int| live(nodes, failed, v) && !done.contains(v) && #[trigger] pending(
            nodes[v].deps@,
            done,
        ) == 0 implies q.contains(v as u8) by {
            lemma_pending_empty(nodes[v].deps@);
        }
    }
}


impl<'a, const N: usize, const MAX_DEPS_TOTAL: usize> TopologicalIter<'a, N, MAX_DEPS_TOTAL> {
    /// The neighbours (dependents) of node `u` as `next` reads them.
    pub open spec fn nbrs(&self, u: int) -> Seq<u8> {
        self.flat().subrange(
            nbr_start(self.offsets(), u),
            nbr_end(self.offsets(), u, self.node_seq().len() as int, self.edge_count()),
        )
    }

    /// `next` can take its step without a panic: the slice of the node it takes
    /// is well ordered, the queue does not outgrow its capacity `N`, and the
    /// visit counter does not overflow.
    pub open spec fn step_ok(&self) -> bool {
        self.queue_view().len() > 0 ==> {
            let u = self.queue_view().last() as int;
            &&& nbr_start(self.offsets(), u) <= nbr_end(
                self.offsets(),
                u,
                self.node_seq().len() as int,
                self.edge_count(),
            )
            &&& relax(self.degrees(), self.queue_view().drop_last(), self.nbrs(u)).1.len() <= N
            &&& self.visited() < usize::MAX
        }
    }

    /// Checks if a cycle was detected after the iteration is complete.
    pub fn is_cycle_detected(&self) -> (r: bool)
        ensures
            r == (self.visited() != self.total()),
    {
        self.visited_count != self.total_non_failed
    }

    /// Returns the index of the next node, or `None` once the queue is empty.
    pub fn next(&mut self) -> (r: Option<usize>)
        requires
            old(self).wf(),
            old(self).step_ok(),
        ensures
            final(self).wf(),
            old(self).kahn_inv() ==> final(self).kahn_inv(),
            final(self).node_seq() == old(self).node_seq(),
            final(self).offsets() == old(self).offsets(),
            final(self).flat() == old(self).flat(),
            final(self).edge_count() == old(self).edge_count(),
            final(self).total() == old(self).total(),
            final(self).failed_set() == old(self).failed_set(),
            old(self).queue_view().len() == 0 ==> {
                &&& r is None
                &&& final(self).degrees() == old(self).degrees()
                &&& final(self).queue_view() == old(self).queue_view()
                &&& final(self).visited() == old(self).visited()
                &&& final(self).emitted() == old(self).emitted()
            },
            old(self).queue_view().len() > 0 ==> {
                let u = old(self).queue_view().last();
                let (deg, q) = relax(
                    old(self).degrees(),
                    old(self).queue_view().drop_last(),
                    old(self).nbrs(u as int),
                );
                &&& r == Some(u as usize)
                &&& final(self).degrees() == deg
                &&& final(self).queue_view() == q
                &&& final(self).visited() == old(self).visited() + 1
                &&& final(self).emitted() == old(self).emitted().push(u as int)
            },
    {
        if self.queue.len() == 0 {
            return None;
        }
        let u_u8 = match self.queue.pop() {
            Some(x) => x,
            None => {
                return None;
            },
        };
        let u = u_u8 as usize;
        self.visited_count += 1;
        let start_offset = self.adj_list_rev_offsets[u] as usize;
        let end_offset = if u + 1 < self.nodes.len() {
            self.adj_list_rev_offsets[u + 1] as usize
        } else {
            self.edge_total
        };
        let ghost deg0 = self.in_degree@;
        let ghost q0 = self.queue@;
        let ghost flat = self.adj_list_rev_flat@;
        let ghost nb = flat.subrange(start_offset as int, end_offset as int);
        // Process neighbors of 'u'
        let mut k = start_offset;
        while k < end_offset
            invariant
                start_offset <= k <= end_offset <= MAX_DEPS_TOTAL,
                flat == self.adj_list_rev_flat@,
                N > 0 ==> forall|i: int| 0 <= i < MAX_DEPS_TOTAL ==> #[trigger] flat[i] < N,
                N > 0,
                self.nodes@ == old(self).node_seq(),
                self.adj_list_rev_offsets@ == old(self).offsets(),
                self.edge_total == old(self).edge_count(),
                self.edge_total <= MAX_DEPS_TOTAL,
                self.nodes@.len() <= N,
                self.total_non_failed == old(self).total(),
                self.failed@ == old(self).failed_set(),
                self.emitted@ == old(self).emitted(),
                self.visited_count == old(self).visited() + 1,
                (self.in_degree@, self.queue@) == relax(
                    deg0,
                    q0,
                    flat.subrange(start_offset as int, k as int),
                ),
            decreases end_offset - k,
        {
            let v_u8 = self.adj_list_rev_flat[k];
            let v = v_u8 as usize;
            proof {
                let pre = flat.subrange(start_offset as int, k + 1);
                assert(pre.drop_last() =~= flat.subrange(start_offset as int, k as int));
                assert(pre.last() == v_u8);
            }
            self.in_degree[v] = self.in_degree[v].saturating_sub(1);
            if self.in_degree[v] == 0 {
                self.queue.push(v_u8);
            }
            k += 1;
        }
        proof {
            self.emitted@ = self.emitted@.push(u_u8 as int);
            assert(flat.subrange(start_offset as int, end_offset as int) =~= nb);
            assert forall|i: int| 0 <= i < q0.len() implies #[trigger] q0[i] < N by {
                assert(q0[i] == old(self).queue_view()[i]);
            }
            assert forall|i: int| 0 <= i < nb.len() implies #[trigger] nb[i] < N by {
                assert(nb[i] == flat[start_offset + i]);
            }
            lemma_relax_bounded(deg0, q0, nb, N as int);
            if old(self).kahn_inv() {
                Self::lemma_next_keeps(old(self), self);
            }
        }
        Some(u)
    }
}


impl<'a, const N: usize, const MAX_DEPS_TOTAL: usize> TopologicalIter<'a, N, MAX_DEPS_TOTAL> {
    /// The dependency list of node `v`.
    pub open spec fn deps_of(&self, v: int) -> Seq<u8> {
        self.node_seq()[v].deps@
    }

    /// The invariant of Kahn's algorithm on a faithful graph: the returned nodes
    /// are distinct live nodes, each after all of its dependencies; the queue
    /// holds, once each, exactly the live nodes not yet returned whose
    /// dependencies have all been returned; every in-degree counts the
    /// dependencies not yet returned; and each node's slice of the flat array
    /// lists the nodes that depend on it.
    pub open spec fn kahn_inv(&self) -> bool {
        let nodes = self.node_seq();
        let failed = self.failed_set();
        let done = self.emitted();
        let q = self.queue_view();
        let len = nodes.len() as int;
        &&& faithful(nodes, failed, N as int, MAX_DEPS_TOTAL as int)
        &&& self.wf()
        &&& self.degrees().len() == N
        &&& done.no_duplicates()
        &&& forall|k: int| 0 <= k < done.len() ==> live(nodes, failed, #[trigger] done[k])
        &&& forall|k: int, j: int|
            0 <= k < done.len() && 0 <= j < nodes[done[k]].deps@.len() ==> done.take(k).contains(
                #[trigger] nodes[done[k]].deps@[j] as int,
            )
        &&& q.no_duplicates()
        &&& forall|k: int|
            0 <= k < q.len() ==> live(nodes, failed, #[trigger] q[k] as int) && !done.contains(
                q[k] as int,
            ) && pending(nodes[q[k] as int].deps@, done) == 0
        &&& forall|v: int|
            live(nodes, failed, v) && !done.contains(v) && #[trigger] pending(nodes[v].deps@, done)
                == 0 ==> q.contains(v as u8)
        &&& forall|v: int|
            0 <= v < N ==> #[trigger] self.degrees()[v] == (if live(nodes, failed, v) && !done.contains(
                v,
            ) {
                pending(nodes[v].deps@, done)
            } else {
                0
            })
        &&& layout_matches(nodes, failed, self.flat(), self.offsets(), self.edge_count())
        &&& self.visited() == done.len()
        &&& self.total() == live_count(nodes, failed, len)
    }

    /// One step of Kahn's algorithm from an invariant state: the in-degrees and
    /// the queue `relax` produces are those the invariant asks for once the
    /// last queued node has been returned, and the queue fits its capacity.
    pub proof fn lemma_step_facts(&self)
        requires
            self.kahn_inv(),
            self.queue_view().len() > 0,
        ensures
            ({
                let nodes = self.node_seq();
                let failed = self.failed_set();
                let u = self.queue_view().last() as int;
                let done = self.emitted().push(u);
                let (deg, q) = relax(
                    self.degrees(),
                    self.queue_view().drop_last(),
                    self.nbrs(u),
                );
                &&& live(nodes, failed, u)
                &&& !self.emitted().contains(u)
                &&& pending(nodes[u].deps@, self.emitted()) == 0
                &&& deg.len() == N
                &&& forall|v: int|
                    0 <= v < N ==> #[trigger] deg[v] == (if live(nodes, failed, v) && !done.contains(
                        v,
                    ) {
                        pending(nodes[v].deps@, done)
                    } else {
                        0
                    })
                &&& q.no_duplicates()
                &&& forall|k: int|
                    0 <= k < q.len() ==> live(nodes, failed, #[trigger] q[k] as int) && !done.contains(
                        q[k] as int,
                    ) && pending(nodes[q[k] as int].deps@, done) == 0
                &&& forall|v: int|
                    live(nodes, failed, v) && !done.contains(v) && #[trigger] pending(
                        nodes[v].deps@,
                        done,
                    ) == 0 ==> q.contains(v as u8)
                &&& q.len() <= nodes.len()
            }),
    {
        let nodes = self.node_seq();
        let failed = self.failed_set();
        let len = nodes.len() as int;
        let done = self.emitted();
        let q0 = self.queue_view();
        let uu = q0.last();
        let u = uu as int;
        assert(q0[q0.len() - 1] == uu);
        assert(live(nodes, failed, u) && !done.contains(u) && pending(nodes[u].deps@, done) == 0);
        let done2 = done.push(u);
        let nb = self.nbrs(u);
        let edges = edge_list(nodes, failed, len);
        assert(nb == srcs(edges, u)) by {
            assert(self.nbrs(u) == self.flat().subrange(
                nbr_start(self.offsets(), u),
                nbr_end(self.offsets(), u, self.node_seq().len() as int, self.edge_count()),
            ));
        }
        let deg0 = self.degrees();
        let qd = q0.drop_last();
        lemma_pending_ge_count(nodes[u].deps@, done, u);
        assert forall|v: int| 0 <= v < N implies count_of(nb, v) <= #[trigger] deg0[v] && count_of(nb, v)
            == (if live(nodes, failed, v) && !done.contains(v) {
            count_of(nodes[v].deps@, u)
        } else {
            0
        }) by {
            lemma_srcs_edges(nodes, failed, len, u, v);
            if live(nodes, failed, v) && done.contains(v) && count_of(nodes[v].deps@, u) > 0 {
                let k = choose|k: int| 0 <= k < done.len() && done[k] == v;
                lemma_count_pos_exists(nodes[v].deps@, u);
                let j = choose|j: int| 0 <= j < nodes[v].deps@.len() && nodes[v].deps@[j] == u;
                assert(done.take(k).contains(nodes[done[k]].deps@[j] as int));
                let i = choose|i: int| 0 <= i < done.take(k).len() && done.take(k)[i] == u;
                assert(done[i] == u);
            }
            if live(nodes, failed, v) && !done.contains(v) {
                lemma_pending_ge_count(nodes[v].deps@, done, u);
            }
        }
        lemma_srcs_edges(nodes, failed, len, u, 0);
        assert forall|k: int| 0 <= k < nb.len() implies #[trigger] nb[k] < deg0.len() by {
            assert(nb[k] < len);
        }
        lemma_relax_effect(deg0, qd, nb);
        let deg = relax(deg0, qd, nb).0;
        let q = relax(deg0, qd, nb).1;
        let p = q.subrange(qd.len() as int, q.len() as int);
        assert(q =~= qd + p);
        // The in-degrees.
        assert forall|v: int| 0 <= v < N implies #[trigger] deg[v] == (if live(nodes, failed, v)
            && !done2.contains(v) {
            pending(nodes[v].deps@, done2)
        } else {
            0
        }) by {
            lemma_push_contains(done, u, v);
            assert(count_of(nb, v) <= deg0[v]);
            if live(nodes, failed, v) && !done.contains(v) && v != u {
                lemma_pending_push(nodes[v].deps@, done, u);
            }
        }
        // The part of the old queue that stays.
        assert forall|k: int| 0 <= k < qd.len() implies #[trigger] qd[k] != uu by {
            assert(qd[k] == q0[k]);
        }
        assert(qd.no_duplicates()) by {
            assert forall|i: int, j: int| 0 <= i < qd.len() && 0 <= j < qd.len() && i != j implies qd[i]
                != qd[j] by {
                assert(qd[i] == q0[i] && qd[j] == q0[j]);
            }
        }
        // The newly queued nodes.
        assert forall|x: u8| #[trigger] p.contains(x) implies ({
            &&& live(nodes, failed, x as int)
            &&& !done2.contains(x as int)
            &&& pending(nodes[x as int].deps@, done2) == 0
            &&& !qd.contains(x)
        }) by {
            let v = x as int;
            assert(count_of(nb, v) > 0 && deg0[v] == count_of(nb, v));
            assert(live(nodes, failed, v) && !done.contains(v));
            lemma_pending_push(nodes[v].deps@, done, u);
            lemma_push_contains(done, u, v);
            if v == u {
                assert(false);
            }
            if qd.contains(x) {
                let k = choose|k: int| 0 <= k < qd.len() && qd[k] == x;
                assert(q0[k] == x);
                lemma_pending_ge_count(nodes[v].deps@, done, u);
            }
        }
        lemma_no_dup_concat(qd, p);
        assert forall|k: int| 0 <= k < q.len() implies live(nodes, failed, #[trigger] q[k] as int)
            && !done2.contains(q[k] as int) && pending(nodes[q[k] as int].deps@, done2) == 0 by {
            if k < qd.len() {
                assert(q[k] == q0[k]);
                assert(q0[k] != uu);
                let v = q[k] as int;
                lemma_push_contains(done, u, v);
                lemma_pending_push(nodes[v].deps@, done, u);
                assert(v != u) by {
                    assert((q0[k] as int) != (uu as int));
                }
            } else {
                assert(q[k] == p[k - qd.len()]);
                assert(p.contains(q[k]));
            }
        }
        assert forall|v: int| live(nodes, failed, v) && !done2.contains(v) && #[trigger] pending(
            nodes[v].deps@,
            done2,
        ) == 0 implies q.contains(v as u8) by {
            lemma_push_contains(done, u, v);
            lemma_pending_push(nodes[v].deps@, done, u);
            assert((v as u8) as int == v);
            if pending(nodes[v].deps@, done) == 0 {
                assert(q0.contains(v as u8));
                let k = choose|k: int| 0 <= k < q0.len() && q0[k] == v as u8;
                if k == q0.len() - 1 {
                    assert(v == u);
                }
                assert(qd[k] == v as u8);
                assert(q[k] == v as u8);
            } else {
                assert(v < len && len <= N);
                assert(count_of(nb, v) <= deg0[v]);
                assert(deg0[v] == pending(nodes[v].deps@, done));
                assert(count_of(nb, v) > 0 && deg0[v] == count_of(nb, v));
                assert(p.contains(v as u8));
                let k = choose|k: int| 0 <= k < p.len() && p[k] == v as u8;
                assert(q[qd.len() + k] == v as u8);
            }
        }
        assert(all_below(q, len)) by {
            assert forall|k: int| 0 <= k < q.len() implies #[trigger] q[k] < len by {
                assert(live(nodes, failed, q[k] as int));
            }
        }
        lemma_distinct_bounded(q, len);
    }

    /// Returning the last queued node keeps the invariant.
    pub proof fn lemma_next_keeps(pre: &Self, post: &Self)
        requires
            pre.kahn_inv(),
            pre.queue_view().len() > 0,
            post.wf(),
            post.node_seq() == pre.node_seq(),
            post.offsets() == pre.offsets(),
            post.flat() == pre.flat(),
            post.edge_count() == pre.edge_count(),
            post.total() == pre.total(),
            post.failed_set() == pre.failed_set(),
            ({
                let u = pre.queue_view().last();
                let (deg, q) = relax(pre.degrees(), pre.queue_view().drop_last(), pre.nbrs(u as int));
                &&& post.degrees() == deg
                &&& post.queue_view() == q
                &&& post.visited() == pre.visited() + 1
                &&& post.emitted() == pre.emitted().push(u as int)
            }),
        ensures
            post.kahn_inv(),
    {
        pre.lemma_step_facts();
        let nodes = pre.node_seq();
        let failed = pre.failed_set();
        let done = pre.emitted();
        let u = pre.queue_view().last() as int;
        let done2 = done.push(u);
        assert(done2.no_duplicates()) by {
            assert forall|i: int, j: int| 0 <= i < done2.len() && 0 <= j < done2.len() && i != j implies done2[i]
                != done2[j] by {
                if i < done.len() && j < done.len() {
                } else if i < done.len() {
                    assert(done.contains(done[i]));
                } else if j < done.len() {
                    assert(done.contains(done[j]));
                }
            }
        }
        assert forall|k: int| 0 <= k < done2.len() implies live(nodes, failed, #[trigger] done2[k]) by {
            if k < done.len() {
                assert(done2[k] == done[k]);
            }
        }
        lemma_pending_zero(nodes[u].deps@, done);
        assert forall|k: int, j: int|
            0 <= k < done2.len() && 0 <= j < nodes[done2[k]].deps@.len() implies done2.take(k).contains(
            #[trigger] nodes[done2[k]].deps@[j] as int,
        ) by {
            if k < done.len() {
                assert(done2[k] == done[k]);
                assert(done2.take(k) =~= done.take(k));
                assert(done.take(k).contains(nodes[done[k]].deps@[j] as int));
            } else {
                assert(done2[k] == u);
                assert(done2.take(k) =~= done);
                assert(done.contains(nodes[u].deps@[j] as int));
            }
        }
    }

    /// From an invariant state, `next` can take its step.
    pub proof fn lemma_kahn_step_ok(&self)
        requires
            self.kahn_inv(),
        ensures
            self.step_ok(),
    {
        if self.queue_view().len() > 0 {
            self.lemma_step_facts();
            let u = self.queue_view().last() as int;
            assert(live(self.node_seq(), self.failed_set(), u));
            lemma_distinct_bounded_int(self.emitted(), self.node_seq().len() as int);
        }
    }
}


/// The order `TopologicalIter` returns nodes in is a topological order: the
/// returned nodes are distinct live nodes, and every one comes after all of
/// its dependencies.
pub proof fn law_topological_order<const N: usize, const MAX_DEPS_TOTAL: usize>(
    it: &TopologicalIter<'_, N, MAX_DEPS_TOTAL>,
)
    requires
        it.kahn_inv(),
    ensures
        it.emitted().no_duplicates(),
        forall|k: int|
            0 <= k < it.emitted().len() ==> live(it.node_seq(), it.failed_set(), #[trigger] it.emitted()[k]),
        deps_first(it.node_seq(), it.emitted()),
        it.visited() == it.emitted().len(),
{
}

/// Once `next` has returned `None`, `is_cycle_detected()` is false exactly when
/// every live node has been returned; every live node not returned still has a
/// dependency that was not returned (it lies on a dependency cycle, or depends
/// on a failed node or on such a node).
pub proof fn law_exhausted<const N: usize, const MAX_DEPS_TOTAL: usize>(
    it: &TopologicalIter<'_, N, MAX_DEPS_TOTAL>,
)
    requires
        it.kahn_inv(),
        it.queue_view().len() == 0,
    ensures
        (it.visited() == it.total()) <==> (forall|v: int|
            live(it.node_seq(), it.failed_set(), v) ==> #[trigger] it.emitted().contains(v)),
        forall|v: int|
            live(it.node_seq(), it.failed_set(), v) && !#[trigger] it.emitted().contains(v) ==> exists|
                j: int,
            |
                0 <= j < it.deps_of(v).len() && !it.emitted().contains(it.deps_of(v)[j] as int),
{
    let nodes = it.node_seq();
    let failed = it.failed_set();
    let done = it.emitted();
    let len = nodes.len() as int;
    lemma_live_set_len(nodes, failed, len);
    done.unique_seq_to_set();
    let ls = live_set(nodes, failed, len);
    assert(done.to_set().subset_of(ls)) by {
        assert forall|x: int| done.to_set().contains(x) implies ls.contains(x) by {
            let k = choose|k: int| 0 <= k < done.len() && done[k] == x;
            assert(live(nodes, failed, done[k]));
        }
    }
    if forall|v: int| live(nodes, failed, v) ==> #[trigger] done.contains(v) {
        assert(done.to_set() =~= ls);
    }
    if it.visited() == it.total() {
        lemma_len_subset(done.to_set(), ls);
        lemma_subset_equality(done.to_set(), ls);
        assert forall|v: int| live(nodes, failed, v) implies #[trigger] done.contains(v) by {
            assert(ls.contains(v));
            assert(done.to_set().contains(v));
        }
    }
    assert forall|v: int| live(nodes, failed, v) && !#[trigger] done.contains(v) implies exists|j: int|
        0 <= j < it.deps_of(v).len() && !done.contains(it.deps_of(v)[j] as int) by {
        if pending(nodes[v].deps@, done) == 0 {
            assert(it.queue_view().contains(v as u8));
        }
        lemma_pending_pos_exists(nodes[v].deps@, done);
        let s = nodes[v].deps@;
        let j = choose|j: int| 0 <= j < s.len() && !done.contains(#[trigger] s[j] as int);
        assert(it.deps_of(v)[j] == s[j]);
    }
}

/// A dependency cycle among live nodes is always detected: once `next` has
/// returned `None`, `is_cycle_detected()` holds.
pub proof fn law_cycle_detected<const N: usize, const MAX_DEPS_TOTAL: usize>(
    it: &TopologicalIter<'_, N, MAX_DEPS_TOTAL>,
    cycle: Seq<int>,
)
    requires
        it.kahn_inv(),
        it.queue_view().len() == 0,
        is_dep_cycle(it.node_seq(), it.failed_set(), cycle),
    ensures
        it.visited() != it.total(),
{
    law_exhausted(it);
    lemma_cycle_not_ordered(it.node_seq(), it.failed_set(), it.emitted(), cycle);
    let k = choose|k: int| 0 <= k < cycle.len() && !it.emitted().contains(#[trigger] cycle[k]);
    assert(live(it.node_seq(), it.failed_set(), cycle[k]));
}

/// Every entry of a dependency-ordered sequence before position `k` has been
/// returned by an exhausted iterator.
proof fn lemma_prefix_done<const N: usize, const MAX_DEPS_TOTAL: usize>(
    it: &TopologicalIter<'_, N, MAX_DEPS_TOTAL>,
    o: Seq<int>,
    k: int,
)
    requires
        it.kahn_inv(),
        it.queue_view().len() == 0,
        dep_ordered(it.node_seq(), it.failed_set(), o),
        0 <= k <= o.len(),
    ensures
        forall|i: int| 0 <= i < k ==> it.emitted().contains(#[trigger] o[i]),
    decreases k,
{
    if k > 0 {
        lemma_prefix_done(it, o, k - 1);
        let nodes = it.node_seq();
        let done = it.emitted();
        let x = o[k - 1];
        let s = nodes[x].deps@;
        assert forall|j: int| 0 <= j < s.len() implies done.contains(#[trigger] s[j] as int) by {
            assert(o.take(k - 1).contains(nodes[o[k - 1]].deps@[j] as int));
            let pre = o.take(k - 1);
            let m = choose|m: int| 0 <= m < pre.len() && #[trigger] pre[m] == s[j] as int;
            assert(o[m] == pre[m]);
        }
        lemma_pending_all_done(s, done);
        if !done.contains(x) {
            assert(live(nodes, it.failed_set(), x));
            assert(it.queue_view().contains(x as u8));
        }
        assert forall|i: int| 0 <= i < k implies done.contains(#[trigger] o[i]) by {
            if i < k - 1 {
            }
        }
    }
}

/// Once `next` has returned `None`, the nodes returned are Kahn's order: each
/// after all of its dependencies, and among them every node that any order of
/// live nodes with dependencies first can reach.
pub proof fn law_exhausted_order<const N: usize, const MAX_DEPS_TOTAL: usize>(
    it: &TopologicalIter<'_, N, MAX_DEPS_TOTAL>,
)
    requires
        it.kahn_inv(),
        it.queue_view().len() == 0,
    ensures
        kahn_order(it.node_seq(), it.failed_set(), it.emitted()),
{
    let nodes = it.node_seq();
    let failed = it.failed_set();
    let done = it.emitted();
    assert forall|o: Seq<int>, k: int|
        #![trigger dep_ordered(nodes, failed, o), o[k]]
        dep_ordered(nodes, failed, o) && 0 <= k < o.len() implies done.contains(o[k]) by {
        lemma_prefix_done(it, o, o.len() as int);
    }
}

/// Once `next` has returned `None`, a cycle is reported exactly when the live
/// nodes admit no order that puts every node after its dependencies.
pub proof fn law_cycle_iff_unorderable<const N: usize, const MAX_DEPS_TOTAL: usize>(
    it: &TopologicalIter<'_, N, MAX_DEPS_TOTAL>,
)
    requires
        it.kahn_inv(),
        it.queue_view().len() == 0,
    ensures
        (it.visited() != it.total()) <==> !orderable(it.node_seq(), it.failed_set()),
{
    law_exhausted_order(it);
    law_exhausted(it);
    lemma_kahn_order_orderable(it.node_seq(), it.failed_set(), it.emitted());
}

// ---------------------------------------------------------------------------
// The explorer.
// ---------------------------------------------------------------------------

/// The longest byte string among the first `n` nodes.
pub open spec fn max_bytes_len(nodes: Seq<CmdNode>, n: int) -> nat
    decreases n,
{
    if n <= 0 {
        0
    } else {
        let prev = max_bytes_len(nodes, n - 1);
        let len = nodes[n - 1].bytes@.len();
        if len > prev {
            len
        } else {
            prev
        }
    }
}

/// `TopologicalIter` can be built and run over `nodes` with the failed set
/// `failed` without a panic: building fails with an error, or the graph is
/// faithfully encodable (every live dependency among the nodes, no saturated
/// counter, the flat array exactly filled), or no node is live.
pub open spec fn runnable(nodes: Seq<CmdNode>, failed: Set<int>, n: int, max: int) -> bool {
    ||| new_error(nodes, failed, n, max) is Some
    ||| faithful(nodes, failed, n, max)
    ||| live_count(nodes, failed, nodes.len() as int) == 0
}

impl<const N: usize, const MAX_DEPS_TOTAL: usize> Explorer<N, MAX_DEPS_TOTAL> {
    /// An explorer over `nodes`.
    pub fn new(nodes: &'static [CmdNode]) -> (r: Self)
        ensures
            r.nodes@ == nodes@,
    {
        Self { nodes }
    }

    /// The length of the longest command among the first `N` nodes.
    pub fn max_cmd_len(&self) -> (r: usize)
        requires
            N <= self.nodes@.len(),
        ensures
            r == max_bytes_len(self.nodes@, N as int),
    {
        let mut max_len: usize = 0;
        let mut i: usize = 0;
        while i < N
            invariant
                i <= N <= self.nodes@.len(),
                max_len == max_bytes_len(self.nodes@, i as int),
            decreases N - i,
        {
            let len = self.nodes[i].bytes.len();
            if len > max_len {
                max_len = len;
            }
            i += 1;
        }
        max_len
    }

    /// A topological iterator over the commands not marked in `failed_nodes`.
    pub fn topological_iter<'a>(&'a self, failed_nodes: &'a BitFlags) -> (r: Result<
        TopologicalIter<'a, N, MAX_DEPS_TOTAL>,
        ExplorerError,
    >)
        requires
            layout_ready(self.nodes@, failed_nodes@, N as int, MAX_DEPS_TOTAL as int)
                ==> layout_in_bounds(self.nodes@, failed_nodes@, N as int, MAX_DEPS_TOTAL as int),
        ensures
            match new_error(self.nodes@, failed_nodes@, N as int, MAX_DEPS_TOTAL as int) {
                Some(e) => r == Err::<TopologicalIter<'a, N, MAX_DEPS_TOTAL>, ExplorerError>(e),
                None => r is Ok,
            },
            r matches Ok(it) ==> it.built_from(self.nodes@, failed_nodes@),
            faithful(self.nodes@, failed_nodes@, N as int, MAX_DEPS_TOTAL as int) ==> (r matches Ok(
                it,
            ) && it.kahn_inv()),
    {
        TopologicalIter::new(self, failed_nodes)
    }
}

impl<'a, const N: usize, const MAX_DEPS_TOTAL: usize> TopologicalIter<'a, N, MAX_DEPS_TOTAL> {
    /// Runs a fresh iterator to its end: the indices it returns, in order,
    /// and whether it then reports a cycle. The indices are Kahn's order:
    /// distinct live nodes, each after its dependencies, and every node that
    /// can be ordered at all; a cycle is reported exactly when some live node
    /// cannot.
    pub fn run_to_end(&mut self) -> (r: (Vec<usize>, bool))
        requires
            old(self).kahn_inv(),
            old(self).emitted() == Seq::<int>::empty(),
        ensures
            final(self).node_seq() == old(self).node_seq(),
            final(self).failed_set() == old(self).failed_set(),
            r.0@.len() == final(self).emitted().len(),
            forall|k: int| 0 <= k < r.0@.len() ==> #[trigger] r.0@[k] as int == final(self).emitted()[k],
            kahn_order(old(self).node_seq(), old(self).failed_set(), final(self).emitted()),
            r.1 == !orderable(old(self).node_seq(), old(self).failed_set()),
    {
        let mut order: Vec<usize> = Vec::new();
        loop
            invariant_except_break
                self.kahn_inv(),
                self.node_seq() == old(self).node_seq(),
                self.failed_set() == old(self).failed_set(),
                order@.len() == self.emitted().len(),
                forall|k: int| 0 <= k < order@.len() ==> #[trigger] order@[k] as int == self.emitted()[k],
            ensures
                self.kahn_inv(),
                self.node_seq() == old(self).node_seq(),
                self.failed_set() == old(self).failed_set(),
                self.queue_view().len() == 0,
                order@.len() == self.emitted().len(),
                forall|k: int| 0 <= k < order@.len() ==> #[trigger] order@[k] as int == self.emitted()[k],
            decreases self.node_seq().len() - self.visited(),
        {
            proof {
                self.lemma_kahn_step_ok();
                law_topological_order(self);
                lemma_distinct_bounded_int(self.emitted(), self.node_seq().len() as int);
                if self.queue_view().len() > 0 {
                    self.lemma_step_facts();
                }
            }
            let ghost em0 = self.emitted();
            let ghost q = self.queue_view();
            match self.next() {
                None => {
                    break;
                },
                Some(i) => {
                    proof {
                        assert(q.contains(q.last()));
                        law_topological_order(self);
                        assert(live(self.node_seq(), self.failed_set(), self.emitted()[em0.len() as int]));
                        lemma_distinct_bounded_int(self.emitted(), self.node_seq().len() as int);
                    }
                    order.push(i);
                    proof {
                        assert forall|k: int| 0 <= k < order@.len() implies #[trigger] order@[k] as int
                            == self.emitted()[k] by {
                            if k < em0.len() {
                                assert(self.emitted()[k] == em0[k]);
                            }
                        }
                    }
                },
            }
        }
        proof {
            law_exhausted_order(self);
            law_cycle_iff_unorderable(self);
        }
        let cycle = self.is_cycle_detected();
        (order, cycle)
    }
}

/// For an exhausted iterator over a graph with no node marked as failed and
/// every dependency a node, a cycle is reported exactly when the graph has a
/// dependency cycle.
pub proof fn law_cycle_iff_dep_cycle<const N: usize, const MAX_DEPS_TOTAL: usize>(
    it: &TopologicalIter<'_, N, MAX_DEPS_TOTAL>,
)
    requires
        it.kahn_inv(),
        it.queue_view().len() == 0,
        it.failed_set() == Set::<int>::empty(),
        deps_below(it.node_seq(), Set::empty(), it.node_seq().len() as int),
    ensures
        (it.visited() != it.total()) <==> exists|c: Seq<int>| #[trigger] is_dep_cycle(it.node_seq(), Set::empty(), c),
{
    law_cycle_iff_unorderable(it);
    if it.visited() != it.total() {
        law_unorderable_has_cycle(it.node_seq());
    }
    if exists|c: Seq<int>| #[trigger] is_dep_cycle(it.node_seq(), Set::empty(), c) {
        let c = choose|c: Seq<int>| #[trigger] is_dep_cycle(it.node_seq(), Set::empty(), c);
        law_cycle_detected(it, c);
    }
}

// ---------------------------------------------------------------------------
// Executing commands.
// ---------------------------------------------------------------------------

/// Something that sends one command to a device.
pub trait CmdExecutor<I2C, const CMD_BUFFER_SIZE: usize> {
    /// Whether `self` is what `before` becomes, answering `r`, when it is
    /// asked to send `cmd` to the device at `addr` while the bus goes from
    /// `bus_before` to `bus_after` and its report goes from `out_before` to
    /// `out_after`. An implementation that does not define it promises
    /// nothing about its answer.
    open spec fn executed(
        &self,
        before: &Self,
        bus_before: &I2C,
        bus_after: &I2C,
        addr: u8,
        cmd: Seq<u8>,
        r: Result<(), ExecutorError>,
        out_before: Seq<char>,
        out_after: Seq<char>,
    ) -> bool {
        true
    }

    /// Sends `cmd` to the device at `addr`, reporting on `writer`.
    fn exec(&mut self, i2c: &mut I2C, addr: u8, cmd: &[u8], writer: &mut String) -> (r: Result<
        (),
        ExecutorError,
    >)
        ensures
            final(self).executed(old(self), old(i2c), final(i2c), addr, cmd@, r, old(writer)@, final(writer)@),
    ;
}

/// The logged writes `w` are a send of `bytes` to `addr` tried twice: one
/// write when it is acknowledged, else a second, equal one.
pub open spec fn retry_writes<E>(addr: u8, bytes: Seq<u8>, w: Seq<WriteEntry<E>>) -> bool {
    &&& 1 <= w.len() <= 2
    &&& forall|k: int| 0 <= k < w.len() ==> (#[trigger] w[k]).0 == addr && w[k].1 == bytes
    &&& (w.len() == 1 <==> w[0].2 is Ok)
}

/// The answer of a send tried twice, given its logged writes: `Ok` when the
/// last write was acknowledged, else the unified kind of its error.
pub open spec fn retry_answer<E: HalErrorExt>(addr: u8, w: Seq<WriteEntry<E>>) -> Result<(), ErrorKind> {
    match outcome_of(addr, w.last().2) {
        None => Ok(()),
        Some(k) => Err(k),
    }
}

/// The lines a send tried twice writes for its logged writes `w`: one for
/// each write that was not acknowledged, with the kind of its error.
pub open spec fn retry_text<E: HalErrorExt>(addr: u8, w: Seq<WriteEntry<E>>) -> Seq<char>
    decreases w.len(),
{
    if w.len() == 0 {
        Seq::empty()
    } else {
        retry_text(addr, w.drop_last()) + match outcome_of(addr, w.last().2) {
            None => Seq::empty(),
            Some(k) => "[I2C retry error] "@ + k.text() + "\n"@,
        }
    }
}

/// The text `PrefixExecutor::exec` writes, given the same inputs as
/// `exec_writes` and the logged writes: the progress of the initialization
/// of a new device and the retry lines of every send.
#[verifier::opaque]
pub open spec fn exec_text<E: HalErrorExt>(
    initialized: Set<int>,
    init: Seq<u8>,
    cap: nat,
    addr: u8,
    cmd_len: nat,
    probe: Seq<WriteEntry<E>>,
    init_w: Seq<WriteEntry<E>>,
    cmd_w: Seq<WriteEntry<E>>,
) -> Seq<char> {
    let cmd_part = if 1 + cmd_len > cap {
        Seq::empty()
    } else {
        retry_text(addr, cmd_w)
    };
    let hex = byte_hex_text(addr);
    if addr >= 128 || (!initialized.contains(addr as int) && init.len() > 0 && init.len() * 2 > cap) {
        Seq::empty()
    } else if !initialized.contains(addr as int) && init.len() > 0 {
        "[Info] I2C initializing for "@ + hex + "...\n"@ + retry_text(addr, probe) + if retry_answer(
            addr,
            probe,
        ) is Ok {
            "[Info] Device found at "@ + hex + ", sending init sequence...\n"@ + retry_text(addr, init_w)
                + if retry_answer(addr, init_w) is Ok {
                "[Info] I2C initialized for "@ + hex + "\n"@ + cmd_part
            } else {
                Seq::empty()
            }
        } else {
            cmd_part
        }
    } else {
        cmd_part
    }
}

/// The text `PrefixExecutor::exec` writes, case by case.
pub proof fn lemma_exec_text_cases<E: HalErrorExt>(
    initialized: Set<int>,
    init: Seq<u8>,
    cap: nat,
    addr: u8,
    cmd_len: nat,
    probe: Seq<WriteEntry<E>>,
    init_w: Seq<WriteEntry<E>>,
    cmd_w: Seq<WriteEntry<E>>,
)
    ensures
        ({
            let t = exec_text(initialized, init, cap, addr, cmd_len, probe, init_w, cmd_w);
            let needs = !initialized.contains(addr as int) && init.len() > 0;
            let cmd_part = if 1 + cmd_len > cap {
                Seq::<char>::empty()
            } else {
                retry_text(addr, cmd_w)
            };
            let a = "[Info] I2C initializing for "@ + byte_hex_text(addr) + "...\n"@ + retry_text(addr, probe);
            let b = "[Info] Device found at "@ + byte_hex_text(addr) + ", sending init sequence...\n"@
                + retry_text(addr, init_w);
            let c = "[Info] I2C initialized for "@ + byte_hex_text(addr) + "\n"@;
            &&& (addr >= 128 || (needs && init.len() * 2 > cap)) ==> t == Seq::<char>::empty()
            &&& (addr < 128 && !needs) ==> t == cmd_part
            &&& (addr < 128 && needs && init.len() * 2 <= cap && retry_answer(addr, probe) is Err) ==> t == a
                + cmd_part
            &&& (addr < 128 && needs && init.len() * 2 <= cap && retry_answer(addr, probe) is Ok
                && retry_answer(addr, init_w) is Err) ==> t == a + b
            &&& (addr < 128 && needs && init.len() * 2 <= cap && retry_answer(addr, probe) is Ok
                && retry_answer(addr, init_w) is Ok) ==> t == a + b + c + cmd_part
        }),
{
    reveal(exec_text);
    let hex = byte_hex_text(addr);
    let x = "[Info] I2C initializing for "@ + hex + "...\n"@;
    let y = "[Info] Device found at "@ + hex + ", sending init sequence...\n"@;
    let z = "[Info] I2C initialized for "@ + hex + "\n"@;
    let cmd_part = if 1 + cmd_len > cap {
        Seq::<char>::empty()
    } else {
        retry_text(addr, cmd_w)
    };
    assert(x + retry_text(addr, probe) + (y + retry_text(addr, init_w) + (z + cmd_part)) =~= x + retry_text(
        addr,
        probe,
    ) + (y + retry_text(addr, init_w)) + z + cmd_part);
    assert(x + retry_text(addr, probe) + (y + retry_text(addr, init_w) + Seq::<char>::empty()) =~= x
        + retry_text(addr, probe) + (y + retry_text(addr, init_w)));
}

/// The logged writes `probe`, `init_w` and `cmd_w` are the writes
/// `PrefixExecutor::exec` makes to send `cmd` to `addr`, given the addresses
/// initialized before, the init sequence, the prefix and the buffer capacity:
/// the empty probe write, the prefixed init sequence and the prefixed
/// command, each tried twice, as far as the model goes.
pub open spec fn exec_writes<E: HalErrorExt>(
    initialized: Set<int>,
    init: Seq<u8>,
    prefix: u8,
    cap: nat,
    addr: u8,
    cmd: Seq<u8>,
    probe: Seq<WriteEntry<E>>,
    init_w: Seq<WriteEntry<E>>,
    cmd_w: Seq<WriteEntry<E>>,
) -> bool {
    let cmd_stage = if 1 + cmd.len() > cap {
        cmd_w.len() == 0
    } else {
        retry_writes(addr, seq![prefix] + cmd, cmd_w)
    };
    if addr >= 128 || (!initialized.contains(addr as int) && init.len() > 0 && init.len() * 2 > cap) {
        probe.len() == 0 && init_w.len() == 0 && cmd_w.len() == 0
    } else if !initialized.contains(addr as int) && init.len() > 0 {
        &&& retry_writes(addr, Seq::empty(), probe)
        &&& if retry_answer(addr, probe) is Ok {
            &&& retry_writes(addr, prefixed(prefix, init), init_w)
            &&& if retry_answer(addr, init_w) is Ok {
                cmd_stage
            } else {
                cmd_w.len() == 0
            }
        } else {
            init_w.len() == 0 && cmd_stage
        }
    } else {
        probe.len() == 0 && init_w.len() == 0 && cmd_stage
    }
}

/// The result of sending the command frame `prefix + cmd` of `cmd_len`
/// command bytes into a buffer of `cap` bytes, given the result of the write.
pub open spec fn frame_result(cap: nat, cmd_len: nat, write: Result<(), ErrorKind>) -> Result<
    (),
    ExecutorError,
> {
    if 1 + cmd_len > cap {
        Err(ExecutorError::BufferOverflow)
    } else {
        match write {
            Ok(_) => Ok(()),
            Err(k) => Err(ExecutorError::I2cError(k)),
        }
    }
}

/// What `PrefixExecutor::exec` returns, and which addresses count as
/// initialized after it, given the addresses initialized before, the length
/// of the init sequence, the buffer capacity, the target address, the command
/// length, and the results of the probe write, the init-sequence write and
/// the command write (each tried twice).
pub open spec fn prefix_exec_model(
    initialized: Set<int>,
    init_len: nat,
    cap: nat,
    addr: u8,
    cmd_len: nat,
    probe: Result<(), ErrorKind>,
    init_write: Result<(), ErrorKind>,
    cmd_write: Result<(), ErrorKind>,
) -> (Result<(), ExecutorError>, Set<int>) {
    if addr >= 128 {
        (Err(ExecutorError::BitFlags(BitFlags::bounds_error(addr as usize))), initialized)
    } else if !initialized.contains(addr as int) && init_len > 0 {
        if init_len * 2 > cap {
            (Err(ExecutorError::BufferOverflow), initialized)
        } else if probe is Ok {
            match init_write {
                Err(k) => (Err(ExecutorError::I2cError(k)), initialized),
                Ok(_) => (
                    frame_result(cap, cmd_len, cmd_write),
                    initialized.insert(addr as int),
                ),
            }
        } else {
            (frame_result(cap, cmd_len, cmd_write), initialized)
        }
    } else {
        (frame_result(cap, cmd_len, cmd_write), initialized)
    }
}

/// Every byte of `s` preceded by `prefix`.
pub open spec fn prefixed(prefix: u8, s: Seq<u8>) -> Seq<u8>
    decreases s.len(),
{
    if s.len() == 0 {
        Seq::empty()
    } else {
        prefixed(prefix, s.drop_last()) + seq![prefix, s.last()]
    }
}

/// A hint to the processor that it is in a busy-wait loop.
///
/// Calls `core::hint::spin_loop`, which has no effect on any value.
#[verifier::external_body]
fn spin_loop_hint() {
    core::hint::spin_loop()
}

/// A command executor that prepends a prefix to each command.
pub struct PrefixExecutor<const INIT_SEQUENCE_LEN: usize, const CMD_BUFFER_SIZE: usize> {
    buffer: [u8; CMD_BUFFER_SIZE],
    buffer_len: usize,
    initialized_addrs: BitFlags,
    prefix: u8,
    init_sequence: [u8; INIT_SEQUENCE_LEN],
    init_sequence_len: usize,
}

impl<const INIT_SEQUENCE_LEN: usize, const CMD_BUFFER_SIZE: usize> PrefixExecutor<
    INIT_SEQUENCE_LEN,
    CMD_BUFFER_SIZE,
> {
    #[verifier::type_invariant]
    spec fn lengths_fit(self) -> bool {
        &&& self.init_sequence_len <= INIT_SEQUENCE_LEN
        &&& self.buffer_len <= CMD_BUFFER_SIZE
    }

    /// The byte sent before every command and every init-sequence byte.
    pub closed spec fn prefix(self) -> u8 {
        self.prefix
    }

    /// The init sequence sent once to each device before its first command.
    pub closed spec fn init_seq(self) -> Seq<u8> {
        self.init_sequence@.take(self.init_sequence_len as int)
    }

    /// The addresses that have received the init sequence.
    pub closed spec fn initialized(self) -> Set<int> {
        self.initialized_addrs@
    }

    /// The frame prepared last.
    pub closed spec fn frame(self) -> Seq<u8> {
        self.buffer@.take(self.buffer_len as int)
    }

    /// An executor that sends `prefix` before each command, and the first
    /// `INIT_SEQUENCE_LEN` bytes of `init_sequence` (each after `prefix`)
    /// once to each device before its first command.
    pub fn new(prefix: u8, init_sequence: &[u8]) -> (r: Self)
        ensures
            r.prefix() == prefix,
            r.init_seq() == init_sequence@.take(
                if init_sequence@.len() < INIT_SEQUENCE_LEN {
                    init_sequence@.len() as int
                } else {
                    INIT_SEQUENCE_LEN as int
                },
            ),
            r.initialized() == Set::<int>::empty(),
            r.frame() == Seq::<u8>::empty(),
    {
        let mut init_seq_arr = [0u8; INIT_SEQUENCE_LEN];
        let init_seq_len = if init_sequence.len() < INIT_SEQUENCE_LEN {
            init_sequence.len()
        } else {
            INIT_SEQUENCE_LEN
        };
        let mut i: usize = 0;
        while i < init_seq_len
            invariant
                i <= init_seq_len <= INIT_SEQUENCE_LEN,
                init_seq_len <= init_sequence@.len(),
                init_seq_arr@.len() == INIT_SEQUENCE_LEN,
                forall|k: int| 0 <= k < i ==> init_seq_arr@[k] == init_sequence@[k],
            decreases init_seq_len - i,
        {
            init_seq_arr[i] = init_sequence[i];
            i += 1;
        }
        let r = Self {
            buffer: [0u8; CMD_BUFFER_SIZE],
            buffer_len: 0,
            initialized_addrs: BitFlags::new(),
            prefix,
            init_sequence: init_seq_arr,
            init_sequence_len: init_seq_len,
        };
        assert(r.init_seq() =~= init_sequence@.take(init_seq_len as int));
        assert(r.frame() =~= Seq::<u8>::empty());
        r
    }

    /// Waits a short while.
    fn short_delay() {
        let mut i: u32 = 0;
        while i < 1000
            invariant
                i <= 1000,
            decreases 1000 - i,
        {
            spin_loop_hint();
            i += 1;
        }
    }

    /// Writes `bytes` to `addr`, and once more if the first write fails;
    /// reports each failed write on `writer`.
    fn write_with_retry<I2C>(i2c: &mut I2C, addr: u8, bytes: &[u8], writer: &mut String) -> (r: Result<
        (),
        ErrorKind,
    >)
        where
            I2C: I2cCompat,
            I2C::Error: HalErrorExt,
        ensures
            exists|w: Seq<WriteEntry<I2C::Error>>|
                #[trigger] retry_writes(addr, bytes@, w) && final(i2c).write_log() == old(i2c).write_log() + w
                    && r == retry_answer(addr, w) && final(writer)@ == old(writer)@ + retry_text(addr, w),
    {
        let ghost log0 = i2c.write_log();
        let ghost out0 = writer@;
        let first = i2c.write(addr, bytes);
        let ghost w1: Seq<WriteEntry<I2C::Error>> = seq![(addr, bytes@, first)];
        assert(i2c.write_log() == log0 + w1);
        assert(w1.drop_last() =~= Seq::<WriteEntry<I2C::Error>>::empty());
        assert(retry_text(addr, w1.drop_last()) =~= Seq::<char>::empty());
        match first {
            Ok(_) => {
                Self::short_delay();
                assert(retry_writes(addr, bytes@, w1));
                assert(writer@ =~= out0 + retry_text(addr, w1));
                return Ok(());
            },
            Err(e) => {
                let compat_err = e.to_compat(Some(addr));
                Self::report_retry(writer, compat_err);
                Self::short_delay();
                assert(writer@ =~= out0 + retry_text(addr, w1));
            },
        }
        let second = i2c.write(addr, bytes);
        let ghost w2 = w1.push((addr, bytes@, second));
        assert(i2c.write_log() == log0 + w2);
        assert(retry_writes(addr, bytes@, w2));
        assert(w2.drop_last() =~= w1);
        match second {
            Ok(_) => {
                Self::short_delay();
                assert(writer@ =~= out0 + retry_text(addr, w2));
                Ok(())
            },
            Err(e) => {
                let compat_err = e.to_compat(Some(addr));
                Self::report_retry(writer, compat_err);
                Self::short_delay();
                assert(writer@ =~= out0 + retry_text(addr, w2));
                Err(compat_err)
            },
        }
    }

    /// Writes the line that reports a failed write.
    fn report_retry(writer: &mut String, kind: ErrorKind)
        ensures
            final(writer)@ == old(writer)@ + "[I2C retry error] "@ + kind.text() + "\n"@,
    {
        writer.append("[I2C retry error] ");
        let t = kind.to_text();
        writer.append(t.as_str());
        writer.append("\n");
    }

    /// Writes `head`, the address in two hexadecimal digits, then `tail`.
    fn report_addr(writer: &mut String, head: &str, addr: u8, tail: &str)
        ensures
            final(writer)@ == old(writer)@ + head@ + byte_hex_text(addr) + tail@,
    {
        writer.append(head);
        push_byte_hex(writer, addr);
        writer.append(tail);
    }
}

impl<I2C, const INIT_SEQ_SIZE: usize, const CMD_BUFFER_SIZE: usize> CmdExecutor<
    I2C,
    CMD_BUFFER_SIZE,
> for PrefixExecutor<INIT_SEQ_SIZE, CMD_BUFFER_SIZE> where
    I2C: I2cCompat,
    I2C::Error: HalErrorExt,
 {
    /// The bus log grows by the writes the model asks for, the answer and
    /// the initialized addresses are what the model gives for their answers,
    /// and the report grows by the text that goes with them; the prefix and
    /// the init sequence are kept.
    open spec fn executed(
        &self,
        before: &Self,
        bus_before: &I2C,
        bus_after: &I2C,
        addr: u8,
        cmd: Seq<u8>,
        r: Result<(), ExecutorError>,
        out_before: Seq<char>,
        out_after: Seq<char>,
    ) -> bool {
        &&& self.prefix() == before.prefix()
        &&& self.init_seq() == before.init_seq()
        &&& exists|
            probe: Seq<WriteEntry<I2C::Error>>,
            init_w: Seq<WriteEntry<I2C::Error>>,
            cmd_w: Seq<WriteEntry<I2C::Error>>,
        |
            #[trigger] exec_writes(
                before.initialized(),
                before.init_seq(),
                before.prefix(),
                CMD_BUFFER_SIZE as nat,
                addr,
                cmd,
                probe,
                init_w,
                cmd_w,
            ) && bus_after.write_log() == bus_before.write_log() + probe + init_w + cmd_w
                && prefix_exec_model(
                before.initialized(),
                before.init_seq().len(),
                CMD_BUFFER_SIZE as nat,
                addr,
                cmd.len(),
                retry_answer(addr, probe),
                retry_answer(addr, init_w),
                retry_answer(addr, cmd_w),
            ) == (r, self.initialized()) && out_after == out_before + exec_text(
                before.initialized(),
                before.init_seq(),
                CMD_BUFFER_SIZE as nat,
                addr,
                cmd.len(),
                probe,
                init_w,
                cmd_w,
            )
    }

    /// Sends `prefix + cmd` to `addr`; before the first command to an address,
    /// probes it with an empty write and, when it answers, sends it the init
    /// sequence with `prefix` before each byte.
    #[verifier::rlimit(100)]
    #[verifier::spinoff_prover]
    fn exec(&mut self, i2c: &mut I2C, addr: u8, cmd: &[u8], writer: &mut String) -> (r: Result<
        (),
        ExecutorError,
    >)
        ensures
            final(self).prefix() == old(self).prefix(),
            final(self).init_seq() == old(self).init_seq(),
            exists|
                probe: Seq<WriteEntry<I2C::Error>>,
                init_w: Seq<WriteEntry<I2C::Error>>,
                cmd_w: Seq<WriteEntry<I2C::Error>>,
            |
                #[trigger] exec_writes(
                    old(self).initialized(),
                    old(self).init_seq(),
                    old(self).prefix(),
                    CMD_BUFFER_SIZE as nat,
                    addr,
                    cmd@,
                    probe,
                    init_w,
                    cmd_w,
                ) && final(i2c).write_log() == old(i2c).write_log() + probe + init_w + cmd_w
                    && prefix_exec_model(
                    old(self).initialized(),
                    old(self).init_seq().len(),
                    CMD_BUFFER_SIZE as nat,
                    addr,
                    cmd@.len(),
                    retry_answer(addr, probe),
                    retry_answer(addr, init_w),
                    retry_answer(addr, cmd_w),
                ) == (r, final(self).initialized()) && final(writer)@ == old(writer)@ + exec_text(
                    old(self).initialized(),
                    old(self).init_seq(),
                    CMD_BUFFER_SIZE as nat,
                    addr,
                    cmd@.len(),
                    probe,
                    init_w,
                    cmd_w,
                ),
            r is Ok ==> final(self).frame() == seq![old(self).prefix()] + cmd@,
    {
        proof {
            use_type_invariant(&*self);
        }
        let addr_idx = addr as usize;
        let init_len = self.init_sequence_len;
        let ghost init0 = old(self).initialized();
        let ghost il: nat = old(self).init_seq().len();
        assert(il == init_len);
        let ghost log0 = i2c.write_log();
        let ghost out0 = writer@;
        let ghost is0 = old(self).init_seq();
        let ghost cap = CMD_BUFFER_SIZE as nat;
        let ghost pf0 = old(self).prefix();
        let ghost mut pw: Seq<WriteEntry<I2C::Error>> = Seq::empty();
        let ghost mut iw: Seq<WriteEntry<I2C::Error>> = Seq::empty();
        let ghost mut cw: Seq<WriteEntry<I2C::Error>> = Seq::empty();
        let ghost mut probe: Result<(), ErrorKind> = retry_answer(addr, pw);
        let ghost mut init_write: Result<(), ErrorKind> = retry_answer(addr, iw);
        let ghost cmd_write: Result<(), ErrorKind> = retry_answer(addr, cw);
        let initialized = match self.initialized_addrs.get(addr_idx) {
            Ok(b) => b,
            Err(e) => {
                assert(prefix_exec_model(
                    init0,
                    il,
                    CMD_BUFFER_SIZE as nat,
                    addr,
                    cmd@.len(),
                    probe,
                    init_write,
                    cmd_write,
                ) == (Err::<(), ExecutorError>(ExecutorError::BitFlags(e)), init0));
                assert(exec_writes(init0, is0, pf0, CMD_BUFFER_SIZE as nat, addr, cmd@, pw, iw, cw));
                assert(i2c.write_log() == log0 + pw + iw + cw);
                proof {
                    lemma_exec_text_cases(init0, is0, cap, addr, cmd@.len(), pw, iw, cw);
                }
                assert(writer@ =~= out0 + exec_text(init0, is0, cap, addr, cmd@.len(), pw, iw, cw));
                return Err(ExecutorError::BitFlags(e));
            },
        };
        if !initialized && init_len > 0 {
            if init_len > CMD_BUFFER_SIZE / 2 {
                assert(prefix_exec_model(
                    init0,
                    il,
                    CMD_BUFFER_SIZE as nat,
                    addr,
                    cmd@.len(),
                    probe,
                    init_write,
                    cmd_write,
                ) == (Err::<(), ExecutorError>(ExecutorError::BufferOverflow), init0));
                assert(exec_writes(init0, is0, pf0, CMD_BUFFER_SIZE as nat, addr, cmd@, pw, iw, cw));
                assert(i2c.write_log() == log0 + pw + iw + cw);
                proof {
                    lemma_exec_text_cases(init0, is0, cap, addr, cmd@.len(), pw, iw, cw);
                }
                assert(writer@ =~= out0 + exec_text(init0, is0, cap, addr, cmd@.len(), pw, iw, cw));
                return Err(ExecutorError::BufferOverflow);
            }
            let empty: [u8; 0] = [];
            Self::report_addr(writer, "[Info] I2C initializing for ", addr, "...\n");
            let ghost outp = writer@;
            let ack = Self::write_with_retry(i2c, addr, &empty, writer);
            proof {
                pw = choose|w: Seq<WriteEntry<I2C::Error>>|
                    #[trigger] retry_writes(addr, empty@, w) && i2c.write_log() == log0 + w && ack
                        == retry_answer(addr, w) && writer@ == outp + retry_text(addr, w);
                assert(empty@ =~= Seq::<u8>::empty());
                probe = ack;
            }
            if ack.is_ok() {
                Self::report_addr(writer, "[Info] Device found at ", addr, ", sending init sequence...\n");
                let mut i: usize = 0;
                while i < init_len
                    invariant
                        i <= init_len,
                        init_len == self.init_sequence_len,
                        init_len * 2 <= CMD_BUFFER_SIZE,
                        self.buffer@.len() == CMD_BUFFER_SIZE,
                        self.init_sequence_len <= INIT_SEQ_SIZE,
                        self.buffer_len <= CMD_BUFFER_SIZE,
                        self.prefix == old(self).prefix(),
                        self.init_sequence == old(self).init_sequence,
                        self.initialized_addrs@ == init0,
                        self.buffer@.subrange(0, 2 * i as int) == prefixed(
                            self.prefix,
                            self.init_sequence@.take(i as int),
                        ),
                    decreases init_len - i,
                {
                    let c = self.init_sequence[i];
                    let ghost before = self.buffer@;
                    self.buffer[2 * i] = self.prefix;
                    self.buffer[2 * i + 1] = c;
                    proof {
                        let pre = self.init_sequence@.take(i as int);
                        let nxt = self.init_sequence@.take(i + 1);
                        assert(nxt.drop_last() =~= pre);
                        assert(self.buffer@.subrange(0, 2 * i + 2) =~= before.subrange(0, 2 * i as int)
                            + seq![self.prefix, c]);
                    }
                    i += 1;
                }
                let ghost log1 = i2c.write_log();
                let ghost outi = writer@;
                let sent = Self::write_with_retry(i2c, addr, &self.buffer[0..init_len * 2], writer);
                proof {
                    iw = choose|w: Seq<WriteEntry<I2C::Error>>|
                        #[trigger] retry_writes(addr, self.buffer@.subrange(0, init_len * 2), w)
                            && i2c.write_log() == log1 + w && sent == retry_answer(addr, w) && writer@ == outi
                            + retry_text(addr, w);
                    init_write = sent;
                }
                match sent {
                    Ok(_) => {},
                    Err(k) => {
                        assert(prefix_exec_model(
                            init0,
                            il,
                            CMD_BUFFER_SIZE as nat,
                            addr,
                            cmd@.len(),
                            probe,
                            init_write,
                            Ok(()),
                        ) == (Err::<(), ExecutorError>(ExecutorError::I2cError(k)), init0));
                        assert(exec_writes(init0, is0, pf0, CMD_BUFFER_SIZE as nat, addr, cmd@, pw, iw, cw));
                        assert(i2c.write_log() == log0 + pw + iw + cw);
                proof {
                    lemma_exec_text_cases(init0, is0, cap, addr, cmd@.len(), pw, iw, cw);
                }
                assert(writer@ =~= out0 + exec_text(init0, is0, cap, addr, cmd@.len(), pw, iw, cw));
                        return Err(ExecutorError::I2cError(k));
                    },
                }
                Self::short_delay();
                let mut flags = self.initialized_addrs;
                let _ = flags.set(addr_idx);
                self.initialized_addrs = flags;
                Self::report_addr(writer, "[Info] I2C initialized for ", addr, "\n");
            }
        }
        let ghost flags_now = self.initialized_addrs@;
        if CMD_BUFFER_SIZE == 0 || cmd.len() > CMD_BUFFER_SIZE - 1 {
            assert(prefix_exec_model(
                init0,
                il,
                CMD_BUFFER_SIZE as nat,
                addr,
                cmd@.len(),
                probe,
                init_write,
                cmd_write,
            ) == (Err::<(), ExecutorError>(ExecutorError::BufferOverflow), self.initialized_addrs@));
            assert(exec_writes(init0, is0, pf0, CMD_BUFFER_SIZE as nat, addr, cmd@, pw, iw, cw));
            assert(i2c.write_log() == log0 + pw + iw + cw);
                proof {
                    lemma_exec_text_cases(init0, is0, cap, addr, cmd@.len(), pw, iw, cw);
                }
                assert(writer@ =~= out0 + exec_text(init0, is0, cap, addr, cmd@.len(), pw, iw, cw));
            return Err(ExecutorError::BufferOverflow);
        }
        self.buffer_len = 0;
        self.buffer[0] = self.prefix;
        self.buffer_len = 1;
        let mut j: usize = 0;
        while j < cmd.len()
            invariant
                j <= cmd@.len(),
                1 + cmd@.len() <= CMD_BUFFER_SIZE,
                self.buffer@.len() == CMD_BUFFER_SIZE,
                self.buffer_len == 1,
                self.init_sequence_len <= INIT_SEQ_SIZE,
                self.buffer@[0] == self.prefix,
                self.prefix == old(self).prefix(),
                self.init_sequence == old(self).init_sequence,
                self.init_sequence_len == old(self).init_sequence_len,
                self.initialized_addrs@ == flags_now,
                forall|k: int| 0 <= k < j ==> self.buffer@[1 + k] == cmd@[k],
            decreases cmd@.len() - j,
        {
            self.buffer[1 + j] = cmd[j];
            j += 1;
        }
        let end = 1 + cmd.len();
        self.buffer_len = end;
        let ghost log2 = i2c.write_log();
        let ghost outc = writer@;
        let written = Self::write_with_retry(i2c, addr, &self.buffer[0..end], writer);
        proof {
            cw = choose|w: Seq<WriteEntry<I2C::Error>>|
                #[trigger] retry_writes(addr, self.buffer@.subrange(0, end as int), w)
                    && i2c.write_log() == log2 + w && written == retry_answer(addr, w) && writer@ == outc
                    + retry_text(addr, w);
        }
        let r = match written {
            Ok(_) => Ok(()),
            Err(k) => Err(ExecutorError::I2cError(k)),
        };
        assert(self.frame() =~= seq![old(self).prefix()] + cmd@);
        assert(prefix_exec_model(
            init0,
            il,
            CMD_BUFFER_SIZE as nat,
            addr,
            cmd@.len(),
            probe,
            init_write,
            written,
        ) == (r, self.initialized_addrs@));
        assert(exec_writes(init0, is0, pf0, CMD_BUFFER_SIZE as nat, addr, cmd@, pw, iw, cw));
        assert(i2c.write_log() == log0 + pw + iw + cw);
                proof {
                    lemma_exec_text_cases(init0, is0, cap, addr, cmd@.len(), pw, iw, cw);
                }
                assert(writer@ =~= out0 + exec_text(init0, is0, cap, addr, cmd@.len(), pw, iw, cw));
        r
    }
}

/// `PrefixExecutor::exec` initializes each address at most once: an address
/// already initialized gets neither the probe nor the init sequence, an
/// address whose probe and init sequence are acknowledged becomes
/// initialized, and an address, once initialized, stays so whatever the
/// writes answer.
pub proof fn law_init_once<E: HalErrorExt>(
    initialized: Set<int>,
    init: Seq<u8>,
    prefix: u8,
    cap: nat,
    addr: u8,
    cmd: Seq<u8>,
    probe: Seq<WriteEntry<E>>,
    init_w: Seq<WriteEntry<E>>,
    cmd_w: Seq<WriteEntry<E>>,
    probe_answer: Result<(), ErrorKind>,
    init_answer: Result<(), ErrorKind>,
    cmd_answer: Result<(), ErrorKind>,
)
    ensures
        exec_writes(initialized, init, prefix, cap, addr, cmd, probe, init_w, cmd_w) && initialized.contains(
            addr as int,
        ) ==> probe.len() == 0 && init_w.len() == 0,
        initialized.subset_of(
            prefix_exec_model(
                initialized,
                init.len(),
                cap,
                addr,
                cmd.len(),
                probe_answer,
                init_answer,
                cmd_answer,
            ).1,
        ),
        addr < 128 && init.len() > 0 && init.len() * 2 <= cap && probe_answer is Ok && init_answer is Ok
            ==> prefix_exec_model(
            initialized,
            init.len(),
            cap,
            addr,
            cmd.len(),
            probe_answer,
            init_answer,
            cmd_answer,
        ).1.contains(addr as int),
{
}

/// `PrefixExecutor::exec` marks an address as initialized only once the
/// device has acknowledged both the probe and the init sequence: after a
/// call, the initialized addresses are those from before, plus the target
/// address only when its probe and init writes were both acknowledged; and a
/// call that fails on the init sequence leaves the address to be probed and
/// initialized again.
pub proof fn law_initialized_only_when_acknowledged(
    initialized: Set<int>,
    init_len: nat,
    cap: nat,
    addr: u8,
    cmd_len: nat,
    probe_answer: Result<(), ErrorKind>,
    init_answer: Result<(), ErrorKind>,
    cmd_answer: Result<(), ErrorKind>,
)
    ensures
        ({
            let after = prefix_exec_model(
                initialized,
                init_len,
                cap,
                addr,
                cmd_len,
                probe_answer,
                init_answer,
                cmd_answer,
            ).1;
            &&& forall|a: int| #[trigger] after.contains(a) ==> initialized.contains(a) || (a == addr as int
                && probe_answer is Ok && init_answer is Ok)
            &&& initialized.subset_of(after)
            &&& init_answer is Err && !initialized.contains(addr as int) ==> !after.contains(addr as int)
        }),
{
}

/// The explorer's answer to an executor's answer: success stays success, and
/// each executor error becomes the matching explorer error.
pub open spec fn explorer_outcome(o: Result<(), ExecutorError>) -> Result<(), ExplorerError> {
    match o {
        Ok(_) => Ok(()),
        Err(e) => Err(explorer_error_of(e)),
    }
}

/// The bytes of `bytes` in two hexadecimal digits each, separated by a comma
/// and a space.
pub open spec fn hex_items(bytes: Seq<u8>) -> Seq<char>
    decreases bytes.len(),
{
    if bytes.len() == 0 {
        Seq::empty()
    } else {
        hex_items(bytes.drop_last()) + (if bytes.len() > 1 {
            ", "@
        } else {
            Seq::empty()
        }) + byte_hex_text(bytes.last())
    }
}

/// The bytes of `bytes` as a bracketed list of two-digit hexadecimal numbers.
pub open spec fn hex_list_text(bytes: Seq<u8>) -> Seq<char> {
    "["@ + hex_items(bytes) + "]"@
}

/// Appends the bracketed hexadecimal list of `bytes`.
pub fn push_hex_list(s: &mut String, bytes: &[u8])
    ensures
        final(s)@ == old(s)@ + hex_list_text(bytes@),
{
    s.append("[");
    let ghost s0 = s@;
    let mut i: usize = 0;
    while i < bytes.len()
        invariant
            i <= bytes@.len(),
            s@ == s0 + hex_items(bytes@.take(i as int)),
        decreases bytes@.len() - i,
    {
        proof {
            assert(bytes@.take(i + 1).drop_last() =~= bytes@.take(i as int));
        }
        if i > 0 {
            s.append(", ");
        }
        push_byte_hex(s, bytes[i]);
        i += 1;
    }
    assert(bytes@.take(bytes@.len() as int) =~= bytes@);
    s.append("]");
}

/// The line written before command `idx`, with the bytes `bytes`, is sent.
pub open spec fn sending_text(idx: nat, bytes: Seq<u8>) -> Seq<char> {
    "[explorer] Sending node "@ + decimal_text(idx) + " bytes: "@ + hex_list_text(bytes) + " ..."@
}

/// The line written after a command is sent, given the executor's answer.
pub open spec fn outcome_text(o: Result<(), ExecutorError>) -> Seq<char> {
    match o {
        Ok(_) => "[explorer] OK"@,
        Err(e) => "[explorer] FAILED: "@ + e.text(),
    }
}

/// Sends command `cmd_idx`, whose bytes are `cmd_bytes`, to `addr` through
/// `executor`, reporting on `writer` before and after; an executor failure
/// ends in the matching explorer error.
pub fn exec_log_cmd<I2C, E, const MAX_BYTES_PER_CMD: usize>(
    i2c: &mut I2C,
    executor: &mut E,
    writer: &mut String,
    addr: u8,
    cmd_bytes: &[u8],
    cmd_idx: usize,
) -> (r: Result<(), ExplorerError>)
    where
        I2C: I2cCompat,
        I2C::Error: HalErrorExt,
        E: CmdExecutor<I2C, MAX_BYTES_PER_CMD>,
    ensures
        exists|o: Result<(), ExecutorError>, mid: Seq<char>|
            #[trigger] final(executor).executed(
                old(executor),
                old(i2c),
                final(i2c),
                addr,
                cmd_bytes@,
                o,
                old(writer)@ + garbled_lines(sending_text(cmd_idx as nat, cmd_bytes@), 0),
                mid,
            ) && r == explorer_outcome(o) && final(writer)@ == mid + garbled_lines(outcome_text(o), 0),
{
    let mut line = String::from_str("[explorer] Sending node ");
    push_decimal(&mut line, cmd_idx);
    line.append(" bytes: ");
    push_hex_list(&mut line, cmd_bytes);
    line.append(" ...");
    assert(line@ == sending_text(cmd_idx as nat, cmd_bytes@));
    prevent_garbled(writer, line.as_str());
    let ghost mid_before = writer@;
    let res = executor.exec(i2c, addr, cmd_bytes, writer);
    let ghost mid = writer@;
    match res {
        Ok(_) => {
            let ok_line = String::from_str("[explorer] OK");
            assert(ok_line@ == outcome_text(res));
            prevent_garbled(writer, ok_line.as_str());
            assert(final(executor).executed(
                old(executor),
                old(i2c),
                final(i2c),
                addr,
                cmd_bytes@,
                res,
                old(writer)@ + garbled_lines(sending_text(cmd_idx as nat, cmd_bytes@), 0),
                mid,
            ));
            Ok(())
        },
        Err(e) => {
            let mut fail_line = String::from_str("[explorer] FAILED: ");
            let t = e.to_text();
            fail_line.append(t.as_str());
            assert(fail_line@ == outcome_text(res));
            prevent_garbled(writer, fail_line.as_str());
            assert(final(executor).executed(
                old(executor),
                old(i2c),
                final(i2c),
                addr,
                cmd_bytes@,
                res,
                old(writer)@ + garbled_lines(sending_text(cmd_idx as nat, cmd_bytes@), 0),
                mid,
            ));
            Err(ExplorerError::from(e))
        },
    }
}

} // verus!
