//! Latency balancing over a flattened graph.
//!
//! Each atomic node declares its processing latency in samples. Where paths of
//! unequal accumulated latency converge on a node, the shorter paths are
//! delayed so every input arrives sample-aligned. Balancing accumulates the
//! declared latency along the forward connections, produces the compensation
//! delays to preallocate, and reports the total latency at the graph's
//! outputs: the latest settled output among the ports feeding the root
//! outputs or, for a root without output sources, among all nodes.
//!
//! A connection into a `feedback_delay` node is a feedback tap: it is cut for
//! accumulation and the `feedback_delay` node starts a fresh latency origin.
//! Latency inside a feedback cycle cannot be compensated, so a cycle holding a
//! latency-bearing node other than `feedback_delay` is rejected.
use vstd::prelude::*;
use vstd::string::*;

use crate::diagnostics::{Diagnostic, Diagnostics, ErrorCode, Severity};
use crate::flatten::{atomic_position, lemma_atomic_position, AtomicNode, FlattenedGraph};
use crate::kernel::{Connection, ResolvedPort, FEEDBACK_DELAY_DEFINITION};
use crate::text::{concat2, concat3, decimal_string, decimal_text, str_eq};
use crate::validation::{
    closed_walk_in, connects, lemma_settled_avoids_cycles, lemma_settled_empty, lemma_settled_extend,
    lemma_successors_complete, marked_id, settled_marks, successors_through, universe_in,
};

verus! {

/// A compensation delay inserted on one connection so that its destination's
/// inputs arrive sample-aligned.
#[derive(Debug, PartialEq, Eq)]
pub struct Compensation {
    /// The connection whose signal is delayed.
    pub connection: Connection,
    /// The delay length in samples.
    pub samples: u32,
    /// The channel count of the delayed signal (the buffer width to preallocate).
    pub channels: u32,
}

impl Clone for Compensation {
    fn clone(&self) -> (copy: Self)
        ensures
            copy == *self,
    {
        Compensation { connection: self.connection.clone(), samples: self.samples, channels: self.channels }
    }
}

impl Compensation {
    pub fn connection(&self) -> (connection: &Connection)
        ensures
            *connection == self.connection,
    {
        &self.connection
    }

    pub fn samples(&self) -> (samples: u32)
        ensures
            samples == self.samples,
    {
        self.samples
    }

    pub fn channels(&self) -> (channels: u32)
        ensures
            channels == self.channels,
    {
        self.channels
    }
}

/// The outcome of balancing: the compensation delays to preallocate and the
/// total latency observed at the graph's outputs.
#[derive(Debug, PartialEq, Eq)]
pub struct LatencyPlan {
    pub compensations: Vec<Compensation>,
    pub root_latency: u32,
}

impl Default for LatencyPlan {
    fn default() -> (plan: Self)
        ensures
            plan.compensations@.len() == 0,
            plan.root_latency == 0,
    {
        LatencyPlan { compensations: Vec::new(), root_latency: 0 }
    }
}

impl LatencyPlan {
    pub fn compensations(&self) -> (compensations: &Vec<Compensation>)
        ensures
            compensations@ == self.compensations@,
    {
        &self.compensations
    }

    /// The latency in samples the host must report: the longest path to any
    /// graph output.
    pub fn root_latency(&self) -> (samples: u32)
        ensures
            samples == self.root_latency,
    {
        self.root_latency
    }
}

// ---------------------------------------------------------------------------
// The graph seen by its node ids
// ---------------------------------------------------------------------------

/// `true` when some atomic node carries id `id`.
pub open spec fn declared(g: FlattenedGraph, id: Seq<char>) -> bool {
    atomic_position(g.nodes@, id) < g.nodes@.len()
}

/// The first atomic node carrying id `id`.
pub open spec fn declared_node(g: FlattenedGraph, id: Seq<char>) -> AtomicNode {
    g.nodes@[atomic_position(g.nodes@, id)]
}

/// `true` when `id` names a `feedback_delay` node, whose incoming connections
/// are feedback taps.
pub open spec fn cuts(g: FlattenedGraph, id: Seq<char>) -> bool {
    declared(g, id) && declared_node(g, id).definition@ == FEEDBACK_DELAY_DEFINITION@
}

/// The declared latency of the node named `id` (zero for an undeclared id).
pub open spec fn latency_at(g: FlattenedGraph, id: Seq<char>) -> nat {
    if declared(g, id) {
        declared_node(g, id).latency as nat
    } else {
        0
    }
}

/// `true` when some connection runs from node `a` to node `b`.
pub open spec fn linked(g: FlattenedGraph, a: Seq<char>, b: Seq<char>) -> bool {
    exists|c: int|
        0 <= c < g.connections@.len() && #[trigger] g.connections@[c].source.node.0@ == a
            && g.connections@[c].destination.node.0@ == b
}

/// `walk` visits node ids along connections and returns to its start.
pub open spec fn closed_walk(g: FlattenedGraph, walk: Seq<Seq<char>>) -> bool {
    &&& walk.len() >= 1
    &&& forall|i: int| 0 <= i < walk.len() - 1 ==> linked(g, #[trigger] walk[i], walk[i + 1])
    &&& linked(g, walk[walk.len() - 1], walk[0])
}

/// `id` bears latency that a feedback cycle through it could not compensate.
pub open spec fn latency_bearing(g: FlattenedGraph, id: Seq<char>) -> bool {
    !cuts(g, id) && latency_at(g, id) > 0
}

/// `true` when every chain of forward connections (connections not into a
/// `feedback_delay` node) that ends at `id` has at most `depth - 1` links and
/// starts at declared nodes with no forward inputs.
pub open spec fn grounded(g: FlattenedGraph, id: Seq<char>, depth: nat) -> bool
    decreases depth,
{
    depth > 0 && forall|c: int|
        0 <= c < g.connections@.len() && #[trigger] g.connections@[c].destination.node.0@ == id
            && !cuts(g, id) ==> declared(g, g.connections@[c].source.node.0@) && grounded(
            g,
            g.connections@[c].source.node.0@,
            (depth - 1) as nat,
        )
}

/// Every node is grounded: the forward connections form no cycle and none
/// leaves an undeclared node.
pub open spec fn forward_acyclic(g: FlattenedGraph) -> bool {
    forall|j: int|
        0 <= j < g.nodes@.len() ==> grounded(g, #[trigger] g.nodes@[j].id.0@, g.nodes@.len() as nat)
}

/// The latency at which the output of node `id` leaves it, over paths of at
/// most `depth` forward links: a `feedback_delay` node starts a fresh origin,
/// any other node adds its own latency to the latest of its inputs.
pub open spec fn output_at(g: FlattenedGraph, id: Seq<char>, depth: nat) -> nat
    decreases depth, 0nat, 0nat,
{
    if cuts(g, id) {
        0
    } else if depth == 0 {
        latency_at(g, id)
    } else {
        latest_input(g, id, (depth - 1) as nat, g.connections@.len() as nat) + latency_at(g, id)
    }
}

/// The latest output latency among the declared sources of the first `m`
/// connections into `id`.
pub open spec fn latest_input(g: FlattenedGraph, id: Seq<char>, depth: nat, m: nat) -> nat
    decreases depth, 1nat, m,
{
    if m == 0 || m > g.connections@.len() {
        0
    } else {
        let c = g.connections@[m - 1];
        let rest = latest_input(g, id, depth, (m - 1) as nat);
        if c.destination.node.0@ == id && declared(g, c.source.node.0@) {
            let candidate = output_at(g, c.source.node.0@, depth);
            if candidate > rest {
                candidate
            } else {
                rest
            }
        } else {
            rest
        }
    }
}

/// The settled arrival latency at the inputs of node `id`.
pub open spec fn arrival(g: FlattenedGraph, id: Seq<char>) -> nat {
    if declared(g, id) && !cuts(g, id) && g.nodes@.len() > 0 {
        latest_input(g, id, (g.nodes@.len() - 1) as nat, g.connections@.len() as nat)
    } else {
        0
    }
}

/// The settled output latency of node `id` (zero for an undeclared id).
pub open spec fn departure(g: FlattenedGraph, id: Seq<char>) -> nat {
    if declared(g, id) {
        output_at(g, id, g.nodes@.len() as nat)
    } else {
        0
    }
}

/// Every settled output latency fits the `u32` sample counts of the plan.
pub open spec fn latencies_fit(g: FlattenedGraph) -> bool {
    forall|j: int|
        0 <= j < g.nodes@.len() ==> #[trigger] departure(g, g.nodes@[j].id.0@) <= u32::MAX
}

// ---------------------------------------------------------------------------
// Counting helpers
// ---------------------------------------------------------------------------

/// The number of `true` entries of `s`.
pub open spec fn count_true(s: Seq<bool>) -> nat
    decreases s.len(),
{
    if s.len() == 0 {
        0
    } else {
        count_true(s.drop_last()) + if s.last() {
            1nat
        } else {
            0nat
        }
    }
}

pub(crate) proof fn lemma_count_true_bound(s: Seq<bool>)
    ensures
        count_true(s) <= s.len(),
    decreases s.len(),
{
    if s.len() > 0 {
        lemma_count_true_bound(s.drop_last());
    }
}

/// Raising entries never lowers the count, and raising one strictly raises it.
pub(crate) proof fn lemma_count_true_grows(a: Seq<bool>, b: Seq<bool>)
    requires
        a.len() == b.len(),
        forall|i: int| 0 <= i < a.len() && #[trigger] a[i] ==> b[i],
    ensures
        count_true(a) <= count_true(b),
        (exists|i: int| 0 <= i < a.len() && !a[i] && #[trigger] b[i]) ==> count_true(a) < count_true(
            b,
        ),
    decreases a.len(),
{
    if a.len() > 0 {
        let (x, y) = (a.drop_last(), b.drop_last());
        assert forall|i: int| 0 <= i < x.len() && #[trigger] x[i] implies y[i] by {
            assert(a[i]);
        }
        lemma_count_true_grows(x, y);
        if exists|i: int| 0 <= i < a.len() && !a[i] && #[trigger] b[i] {
            let i = choose|i: int| 0 <= i < a.len() && !a[i] && #[trigger] b[i];
            if i < a.len() - 1 {
                assert(!x[i] && y[i]);
            }
        }
    }
}

proof fn lemma_count_true_exact(s: Seq<bool>, i: int)
    requires
        0 <= i < s.len(),
        !s[i],
    ensures
        count_true(s.update(i, true)) == count_true(s) + 1,
    decreases s.len(),
{
    let t = s.update(i, true);
    if i == s.len() - 1 {
        assert(t.drop_last() =~= s.drop_last());
    } else {
        assert(t.drop_last() =~= s.drop_last().update(i, true));
        lemma_count_true_exact(s.drop_last(), i);
    }
}

// ---------------------------------------------------------------------------
// Forward order over node positions
// ---------------------------------------------------------------------------

/// Connection `c` is a forward connection into the node at position `v`.
spec fn enters(dst: Seq<usize>, cut: Seq<bool>, n: int, c: int, v: int) -> bool {
    dst[c] == v && v < n && !cut[v]
}

/// The source of connection `c` is a node already placed in the order.
spec fn settled(src: Seq<usize>, done: Seq<bool>, n: int, c: int) -> bool {
    src[c] < n && done[src[c] as int]
}

/// Forward connections among the first `m` into `v` whose source is not placed.
spec fn pending(
    src: Seq<usize>,
    dst: Seq<usize>,
    cut: Seq<bool>,
    done: Seq<bool>,
    n: int,
    v: int,
    m: int,
) -> nat
    decreases m,
{
    if m <= 0 {
        0
    } else {
        pending(src, dst, cut, done, n, v, m - 1) + if enters(dst, cut, n, m - 1, v) && !settled(
            src,
            done,
            n,
            m - 1,
        ) {
            1nat
        } else {
            0nat
        }
    }
}

/// Forward connections among the first `m` from `u` into `v`.
spec fn links_from(src: Seq<usize>, dst: Seq<usize>, cut: Seq<bool>, n: int, u: int, v: int, m: int) -> nat
    decreases m,
{
    if m <= 0 {
        0
    } else {
        links_from(src, dst, cut, n, u, v, m - 1) + if src[m - 1] == u && enters(
            dst,
            cut,
            n,
            m - 1,
            v,
        ) {
            1nat
        } else {
            0nat
        }
    }
}

proof fn lemma_pending_place(
    src: Seq<usize>,
    dst: Seq<usize>,
    cut: Seq<bool>,
    done: Seq<bool>,
    n: int,
    u: int,
    v: int,
    m: int,
)
    requires
        0 <= u < n,
        done.len() == n,
        !done[u],
        0 <= m <= src.len(),
        src.len() == dst.len(),
        cut.len() == n,
    ensures
        pending(src, dst, cut, done, n, v, m) == pending(src, dst, cut, done.update(u, true), n, v, m)
            + links_from(src, dst, cut, n, u, v, m),
    decreases m,
{
    if m > 0 {
        lemma_pending_place(src, dst, cut, done, n, u, v, m - 1);
    }
}

proof fn lemma_pending_zero(
    src: Seq<usize>,
    dst: Seq<usize>,
    cut: Seq<bool>,
    done: Seq<bool>,
    n: int,
    v: int,
    m: int,
)
    ensures
        pending(src, dst, cut, done, n, v, m) == 0 <==> forall|c: int|
            0 <= c < m && #[trigger] enters(dst, cut, n, c, v) ==> settled(src, done, n, c),
    decreases m,
{
    if m > 0 {
        lemma_pending_zero(src, dst, cut, done, n, v, m - 1);
        if pending(src, dst, cut, done, n, v, m) == 0 {
            assert forall|c: int| 0 <= c < m && #[trigger] enters(dst, cut, n, c, v) implies settled(
                src,
                done,
                n,
                c,
            ) by {
                if c < m - 1 {
                }
            }
        }
    }
}

proof fn lemma_links_from_grows(
    src: Seq<usize>,
    dst: Seq<usize>,
    cut: Seq<bool>,
    n: int,
    u: int,
    v: int,
    m: int,
    k: int,
)
    requires
        m <= k,
    ensures
        links_from(src, dst, cut, n, u, v, m) <= links_from(src, dst, cut, n, u, v, k),
    decreases k - m,
{
    if m < k {
        lemma_links_from_grows(src, dst, cut, n, u, v, m, k - 1);
    }
}

proof fn lemma_links_from_bound(src: Seq<usize>, dst: Seq<usize>, cut: Seq<bool>, n: int, u: int, v: int, m: int)
    ensures
        links_from(src, dst, cut, n, u, v, m) <= if m < 0 { 0 } else { m },
    decreases m,
{
    if m > 0 {
        lemma_links_from_bound(src, dst, cut, n, u, v, m - 1);
    }
}

proof fn lemma_pending_bound(
    src: Seq<usize>,
    dst: Seq<usize>,
    cut: Seq<bool>,
    done: Seq<bool>,
    n: int,
    v: int,
    m: int,
)
    ensures
        pending(src, dst, cut, done, n, v, m) <= if m < 0 { 0 } else { m },
    decreases m,
{
    if m > 0 {
        lemma_pending_bound(src, dst, cut, done, n, v, m - 1);
    }
}

proof fn lemma_grounded_deeper(g: FlattenedGraph, id: Seq<char>, depth: nat, deeper: nat)
    requires
        grounded(g, id, depth),
        depth <= deeper,
    ensures
        grounded(g, id, deeper),
    decreases depth,
{
    assert forall|c: int|
        0 <= c < g.connections@.len() && #[trigger] g.connections@[c].destination.node.0@ == id
            && !cuts(g, id) implies declared(g, g.connections@[c].source.node.0@) && grounded(
        g,
        g.connections@[c].source.node.0@,
        (deeper - 1) as nat,
    ) by {
        lemma_grounded_deeper(
            g,
            g.connections@[c].source.node.0@,
            (depth - 1) as nat,
            (deeper - 1) as nat,
        );
    }
}

/// The position facts the order computation works from.
spec fn positions_match(g: FlattenedGraph, src: Seq<usize>, dst: Seq<usize>, cut: Seq<bool>) -> bool {
    &&& src.len() == g.connections@.len()
    &&& dst.len() == g.connections@.len()
    &&& cut.len() == g.nodes@.len()
    &&& forall|c: int|
        0 <= c < src.len() ==> #[trigger] src[c] == atomic_position(
            g.nodes@,
            g.connections@[c].source.node.0@,
        )
    &&& forall|c: int|
        0 <= c < dst.len() ==> #[trigger] dst[c] == atomic_position(
            g.nodes@,
            g.connections@[c].destination.node.0@,
        )
    &&& forall|v: int|
        0 <= v < cut.len() ==> #[trigger] cut[v] == (g.nodes@[v].definition@
            == FEEDBACK_DELAY_DEFINITION@)
}

/// The node at position `v` is the first carrying its id.
pub open spec fn first_of_id(g: FlattenedGraph, v: int) -> bool {
    atomic_position(g.nodes@, g.nodes@[v].id.0@) == v
}

/// The order facts: `order` lists distinct first-of-id positions, each after
/// the sources of its forward inputs, and `placed` marks exactly its members.
spec fn order_facts(
    g: FlattenedGraph,
    src: Seq<usize>,
    dst: Seq<usize>,
    cut: Seq<bool>,
    order: Seq<usize>,
) -> bool {
    let n = g.nodes@.len() as int;
    &&& forall|p: int| 0 <= p < order.len() ==> #[trigger] order[p] < n && first_of_id(g, order[p] as int)
    &&& forall|p: int, q: int| 0 <= p < q < order.len() ==> order[p] != order[q]
    &&& forall|p: int, c: int|
        0 <= p < order.len() && 0 <= c < src.len() && #[trigger] enters(dst, cut, n, c, order[p] as int)
            ==> src[c] < n && exists|q: int| 0 <= q < p && #[trigger] order[q] == src[c]
}


proof fn lemma_order_grounds(
    g: FlattenedGraph,
    src: Seq<usize>,
    dst: Seq<usize>,
    cut: Seq<bool>,
    order: Seq<usize>,
    p: int,
)
    requires
        positions_match(g, src, dst, cut),
        order_facts(g, src, dst, cut, order),
        0 <= p < order.len(),
    ensures
        grounded(g, g.nodes@[order[p] as int].id.0@, (p + 1) as nat),
    decreases p,
{
    let n = g.nodes@.len() as int;
    let v = order[p] as int;
    let id = g.nodes@[v].id.0@;
    assert forall|c: int|
        0 <= c < g.connections@.len() && #[trigger] g.connections@[c].destination.node.0@ == id
            && !cuts(g, id) implies declared(g, g.connections@[c].source.node.0@) && grounded(
        g,
        g.connections@[c].source.node.0@,
        p as nat,
    ) by {
        let sid = g.connections@[c].source.node.0@;
        assert(dst[c] == v);
        assert(enters(dst, cut, n, c, v));
        let q = choose|q: int| 0 <= q < p && #[trigger] order[q] == src[c];
        lemma_atomic_position(g.nodes@, sid);
        lemma_order_grounds(g, src, dst, cut, order, q);
        lemma_grounded_deeper(g, sid, (q + 1) as nat, p as nat);
    }
}

proof fn lemma_unplaced_ungrounded(
    g: FlattenedGraph,
    src: Seq<usize>,
    dst: Seq<usize>,
    cut: Seq<bool>,
    done: Seq<bool>,
    v: int,
    depth: nat,
)
    requires
        positions_match(g, src, dst, cut),
        done.len() == g.nodes@.len(),
        0 <= v < g.nodes@.len(),
        first_of_id(g, v),
        !done[v],
        forall|w: int|
            0 <= w < g.nodes@.len() && first_of_id(g, w) && !#[trigger] done[w] ==> exists|c: int|
                0 <= c < src.len() && enters(dst, cut, g.nodes@.len() as int, c, w) && !settled(
                    src,
                    done,
                    g.nodes@.len() as int,
                    c,
                ),
    ensures
        !grounded(g, g.nodes@[v].id.0@, depth),
    decreases depth,
{
    let n = g.nodes@.len() as int;
    let id = g.nodes@[v].id.0@;
    if depth > 0 {
        let c = choose|c: int|
            0 <= c < src.len() && enters(dst, cut, n, c, v) && !settled(src, done, n, c);
        lemma_atomic_position(g.nodes@, g.connections@[c].destination.node.0@);
        lemma_atomic_position(g.nodes@, g.connections@[c].source.node.0@);
        assert(g.connections@[c].destination.node.0@ == id);
        if declared(g, g.connections@[c].source.node.0@) {
            let w = src[c] as int;
            lemma_unplaced_ungrounded(g, src, dst, cut, done, w, (depth - 1) as nat);
        }
    }
}

/// The ids of the nodes among the first `m` that are not grounded: the nodes
/// a forward cycle, or a forward connection from an undeclared node, keeps
/// from being ordered.
pub open spec fn stuck_ids(g: FlattenedGraph, m: nat) -> Seq<Seq<char>>
    decreases m,
{
    if m == 0 || m > g.nodes@.len() {
        Seq::empty()
    } else {
        let rest = stuck_ids(g, (m - 1) as nat);
        let id = g.nodes@[m - 1].id.0@;
        if grounded(g, id, g.nodes@.len() as nat) {
            rest
        } else {
            rest.push(id)
        }
    }
}

/// `parts` joined with `separator` between neighbours.
pub open spec fn joined(parts: Seq<Seq<char>>, separator: Seq<char>) -> Seq<char>
    decreases parts.len(),
{
    if parts.len() == 0 {
        Seq::empty()
    } else if parts.len() == 1 {
        parts[0]
    } else {
        joined(parts.drop_last(), separator) + separator + parts.last()
    }
}

/// The message reporting a forward cycle among the nodes `ids`.
pub open spec fn forward_cycle_message(ids: Seq<Seq<char>>) -> Seq<char> {
    "latency balancing found a routing cycle with no 'feedback_delay' node among nodes: "@
        + joined(ids, ", "@) + "; every feedback cycle must pass through a 'feedback_delay' primitive"@
}

/// `d` rejects `g` for forward connections that do not order.
pub open spec fn is_forward_cycle_diagnostic(g: FlattenedGraph, d: Diagnostic) -> bool {
    &&& d.code == ErrorCode::KernelCycleWithoutFeedbackDelay
    &&& d.severity == Severity::Error
    &&& d.message@ == forward_cycle_message(stuck_ids(g, g.nodes@.len() as nat))
    &&& d.module_id is None
    &&& d.port_name is None
    &&& d.expected is None
    &&& d.actual is None
    &&& d.suggested_fix matches Some(fix) && fix@ == "insert a 'feedback_delay' node into the cycle"@
}

/// The message reporting the latency-bearing node `offender` on the cycle
/// described by `cycle`.
pub open spec fn latency_cycle_message(cycle: Seq<char>, offender: Seq<char>, samples: nat) -> Seq<char> {
    "feedback cycle "@ + cycle + " contains latency-bearing node '"@ + offender + "' ("@ + decimal_text(samples)
        + " samples); latency inside a feedback cycle cannot be compensated"@
}

/// `d` reports a feedback cycle through a latency-bearing node: a closed walk
/// along connections holds the node `d` names, which is no `feedback_delay`
/// node and declares a nonzero latency. The message describes the cycle by
/// the walk's nodes or, when the search found it by reachability, as the
/// cycle through the node.
pub open spec fn is_latency_cycle_diagnostic(g: FlattenedGraph, d: Diagnostic) -> bool {
    &&& d.code == ErrorCode::KernelLatencyInFeedbackCycle
    &&& d.severity == Severity::Error
    &&& d.module_id matches Some(offender) && exists|walk: Seq<Seq<char>>, i: int|
        #[trigger] closed_walk(g, walk) && 0 <= i < walk.len() && #[trigger] walk[i] == offender@
            && latency_bearing(g, walk[i]) && (d.message@ == latency_cycle_message(
            joined(walk, " -> "@),
            offender@,
            latency_at(g, offender@),
        ) || d.message@ == latency_cycle_message("through '"@ + offender@ + "'"@, offender@, latency_at(g, offender@)))
    &&& d.port_name is None
    &&& d.expected is None
    &&& d.actual is None
    &&& d.suggested_fix matches Some(fix) && fix@
        == "move the latency-bearing node out of the feedback cycle, or keep only the 'feedback_delay' node's delay inside it"@
}

/// The channel count of the first port named `name` (zero when none is).
pub open spec fn port_channels(ports: Seq<ResolvedPort>, name: Seq<char>) -> nat
    decreases ports.len(),
{
    if ports.len() == 0 {
        0
    } else if ports[0].name@ == name {
        ports[0].channels as nat
    } else {
        port_channels(ports.drop_first(), name)
    }
}

/// The width of the buffer delaying `connection`: the channel count of its
/// source port, or zero when that port does not resolve.
pub open spec fn edge_channels(g: FlattenedGraph, connection: Connection) -> nat {
    if declared(g, connection.source.node.0@) {
        port_channels(declared_node(g, connection.source.node.0@).ports@, connection.source.port@)
    } else {
        0
    }
}

/// The delay aligning `connection` with the other inputs of its destination,
/// if it needs one.
pub open spec fn compensation_for(g: FlattenedGraph, connection: Connection) -> Option<Compensation> {
    let arrive = arrival(g, connection.destination.node.0@);
    let leave = departure(g, connection.source.node.0@);
    if cuts(g, connection.destination.node.0@) || arrive <= leave {
        None
    } else {
        Some(
            Compensation {
                connection,
                samples: (arrive - leave) as u32,
                channels: edge_channels(g, connection) as u32,
            },
        )
    }
}

/// The delays the first `m` connections need, in connection order.
pub open spec fn compensations_through(g: FlattenedGraph, m: nat) -> Seq<Compensation>
    decreases m,
{
    if m == 0 || m > g.connections@.len() {
        Seq::empty()
    } else {
        let rest = compensations_through(g, (m - 1) as nat);
        match compensation_for(g, g.connections@[m - 1]) {
            Some(compensation) => rest.push(compensation),
            None => rest,
        }
    }
}

/// The latest settled output among the first `m` atomic ports feeding the
/// root outputs.
pub open spec fn root_latency_through(g: FlattenedGraph, m: nat) -> nat
    decreases m,
{
    if m == 0 || m > g.root_output_sources@.len() {
        0
    } else {
        let rest = root_latency_through(g, (m - 1) as nat);
        let candidate = departure(g, g.root_output_sources@[m - 1].node.0@);
        if candidate > rest {
            candidate
        } else {
            rest
        }
    }
}

/// The latest settled output among the first `m` atomic nodes.
pub open spec fn nodes_latency_through(g: FlattenedGraph, m: nat) -> nat
    decreases m,
{
    if m == 0 || m > g.nodes@.len() {
        0
    } else {
        let rest = nodes_latency_through(g, (m - 1) as nat);
        let candidate = departure(g, g.nodes@[m - 1].id.0@);
        if candidate > rest {
            candidate
        } else {
            rest
        }
    }
}

/// The latency the graph's outputs observe: the latest settled output among
/// the atomic ports feeding the root outputs or, when the root has no output
/// sources, the longest path to any node's output.
pub open spec fn observed_root_latency(g: FlattenedGraph) -> nat {
    if g.root_output_sources@.len() == 0 {
        nodes_latency_through(g, g.nodes@.len() as nat)
    } else {
        root_latency_through(g, g.root_output_sources@.len() as nat)
    }
}

proof fn lemma_root_latency_through(g: FlattenedGraph, m: nat)
    requires
        m <= g.root_output_sources@.len(),
    ensures
        forall|r: int| 0 <= r < m ==> root_latency_through(g, m) >= departure(g, #[trigger] g.root_output_sources@[r].node.0@),
        m > 0 ==> exists|r: int| 0 <= r < m && root_latency_through(g, m) == departure(g, #[trigger] g.root_output_sources@[r].node.0@),
        m == 0 ==> root_latency_through(g, m) == 0,
    decreases m,
{
    if m > 0 {
        lemma_root_latency_through(g, (m - 1) as nat);
        if m > 1 && root_latency_through(g, m) != departure(g, g.root_output_sources@[m - 1].node.0@) {
            let r = choose|r: int| 0 <= r < m - 1 && root_latency_through(g, (m - 1) as nat) == departure(g, #[trigger] g.root_output_sources@[r].node.0@);
            assert(root_latency_through(g, m) == departure(g, g.root_output_sources@[r].node.0@));
        }
    }
}

proof fn lemma_nodes_latency_through(g: FlattenedGraph, m: nat)
    requires
        m <= g.nodes@.len(),
    ensures
        forall|v: int| 0 <= v < m ==> nodes_latency_through(g, m) >= departure(g, #[trigger] g.nodes@[v].id.0@),
        m > 0 ==> exists|v: int| 0 <= v < m && nodes_latency_through(g, m) == departure(g, #[trigger] g.nodes@[v].id.0@),
        m == 0 ==> nodes_latency_through(g, m) == 0,
    decreases m,
{
    if m > 0 {
        lemma_nodes_latency_through(g, (m - 1) as nat);
        if m > 1 && nodes_latency_through(g, m) != departure(g, g.nodes@[m - 1].id.0@) {
            let v = choose|v: int| 0 <= v < m - 1 && nodes_latency_through(g, (m - 1) as nat) == departure(g, #[trigger] g.nodes@[v].id.0@);
            assert(nodes_latency_through(g, m) == departure(g, g.nodes@[v].id.0@));
        }
    }
}

/// `plan` balances `g`: the delays of `compensations_through` in connection
/// order and the latency the outputs observe.
pub open spec fn is_balanced_plan(g: FlattenedGraph, plan: LatencyPlan) -> bool {
    &&& plan.compensations@ == compensations_through(g, g.connections@.len() as nat)
    &&& plan.root_latency == observed_root_latency(g)
}

impl FlattenedGraph {
    /// The node position of every connection's source and destination, and
    /// which nodes are `feedback_delay` nodes.
    fn endpoint_positions(&self) -> (positions: (Vec<usize>, Vec<usize>, Vec<bool>))
        ensures
            positions_match(*self, positions.0@, positions.1@, positions.2@),
    {
        let mut src: Vec<usize> = Vec::new();
        let mut dst: Vec<usize> = Vec::new();
        let mut c: usize = 0;
        while c < self.connections.len()
            invariant
                c <= self.connections@.len(),
                src@.len() == c,
                dst@.len() == c,
                forall|k: int|
                    0 <= k < c ==> #[trigger] src@[k] == atomic_position(
                        self.nodes@,
                        self.connections@[k].source.node.0@,
                    ),
                forall|k: int|
                    0 <= k < c ==> #[trigger] dst@[k] == atomic_position(
                        self.nodes@,
                        self.connections@[k].destination.node.0@,
                    ),
            decreases self.connections@.len() - c,
        {
            let connection = &self.connections[c];
            src.push(self.position(connection.source.node.as_str()));
            dst.push(self.position(connection.destination.node.as_str()));
            c = c + 1;
        }
        let mut cut: Vec<bool> = Vec::new();
        let mut v: usize = 0;
        while v < self.nodes.len()
            invariant
                v <= self.nodes@.len(),
                cut@.len() == v,
                forall|k: int|
                    0 <= k < v ==> #[trigger] cut@[k] == (self.nodes@[k].definition@
                        == FEEDBACK_DELAY_DEFINITION@),
            decreases self.nodes@.len() - v,
        {
            cut.push(str_eq(self.nodes[v].definition.as_str(), FEEDBACK_DELAY_DEFINITION));
            v = v + 1;
        }
        (src, dst, cut)
    }

    /// Places the nodes in an order where every forward connection runs from
    /// an earlier node to a later one, as far as such an order reaches: the
    /// placed nodes and, for every node left out, a forward connection into it
    /// from an undeclared or unplaced node.
    fn forward_order(&self, src: &Vec<usize>, dst: &Vec<usize>, cut: &Vec<bool>) -> (ordered: (
        Vec<usize>,
        Vec<bool>,
    ))
        requires
            positions_match(*self, src@, dst@, cut@),
        ensures
            order_facts(*self, src@, dst@, cut@, ordered.0@),
            ordered.0@.len() <= self.nodes@.len(),
            ordered.1@.len() == self.nodes@.len(),
            forall|v: int|
                0 <= v < self.nodes@.len() ==> (#[trigger] ordered.1@[v] <==> exists|p: int|
                    0 <= p < ordered.0@.len() && ordered.0@[p] == v),
            forall|v: int|
                0 <= v < self.nodes@.len() && first_of_id(*self, v) && !#[trigger] ordered.1@[v]
                    ==> exists|c: int|
                    0 <= c < src@.len() && enters(dst@, cut@, self.nodes@.len() as int, c, v)
                        && !settled(src@, ordered.1@, self.nodes@.len() as int, c),
    {
        let n = self.nodes.len();
        let cn = self.connections.len();
        let ghost ni = n as int;
        let mut first: Vec<bool> = Vec::new();
        let mut done: Vec<bool> = Vec::new();
        let mut indeg: Vec<usize> = Vec::new();
        let mut v: usize = 0;
        while v < n
            invariant
                n == self.nodes@.len(),
                v <= n,
                first@.len() == v,
                done@.len() == v,
                indeg@.len() == v,
                forall|k: int| 0 <= k < v ==> #[trigger] first@[k] == first_of_id(*self, k),
                forall|k: int| 0 <= k < v ==> !#[trigger] done@[k],
                forall|k: int| 0 <= k < v ==> #[trigger] indeg@[k] == 0,
            decreases n - v,
        {
            first.push(self.position(self.nodes[v].id.as_str()) == v);
            done.push(false);
            indeg.push(0);
            v = v + 1;
        }
        let mut c: usize = 0;
        while c < cn
            invariant
                n == self.nodes@.len(),
                ni == n as int,
                cn == self.connections@.len(),
                positions_match(*self, src@, dst@, cut@),
                c <= cn,
                indeg@.len() == n,
                done@.len() == n,
                forall|k: int| 0 <= k < n ==> !#[trigger] done@[k],
                forall|k: int|
                    0 <= k < n ==> #[trigger] indeg@[k] == pending(src@, dst@, cut@, done@, ni, k, c as int),
            decreases cn - c,
        {
            let d = dst[c];
            proof {
                lemma_pending_bound(src@, dst@, cut@, done@, ni, d as int, c as int);
            }
            if d < n && !cut[d] {
                indeg.set(d, indeg[d] + 1);
            }
            c = c + 1;
        }
        let mut queue: Vec<usize> = Vec::new();
        let mut queued: Vec<bool> = Vec::new();
        let mut v: usize = 0;
        while v < n
            invariant
                n == self.nodes@.len(),
                ni == n as int,
                cn == self.connections@.len(),
                positions_match(*self, src@, dst@, cut@),
                v <= n,
                first@.len() == n,
                indeg@.len() == n,
                done@.len() == n,
                queued@.len() == v,
                forall|k: int| 0 <= k < n ==> #[trigger] first@[k] == first_of_id(*self, k),
                forall|k: int| 0 <= k < n ==> !#[trigger] done@[k],
                forall|k: int|
                    0 <= k < n ==> #[trigger] indeg@[k] == pending(src@, dst@, cut@, done@, ni, k, cn as int),
                forall|k: int| 0 <= k < v ==> (#[trigger] queued@[k] <==> first@[k] && indeg@[k] == 0),
                forall|k: int|
                    0 <= k < v ==> (#[trigger] queued@[k] <==> exists|p: int|
                        0 <= p < queue@.len() && queue@[p] == k),
                forall|p: int| 0 <= p < queue@.len() ==> #[trigger] queue@[p] < v,
                queue@.len() == count_true(queued@),
                order_facts(*self, src@, dst@, cut@, queue@),
            decreases n - v,
        {
            let seed = first[v] && indeg[v] == 0;
            let ghost q0 = queue@;
            if seed {
                proof {
                    lemma_pending_zero(src@, dst@, cut@, done@, ni, v as int, cn as int);
                    assert forall|p: int, c: int|
                        0 <= p < queue@.len() + 1 && 0 <= c < src@.len() && #[trigger] enters(
                            dst@,
                            cut@,
                            ni,
                            c,
                            queue@.push(v)[p] as int,
                        ) implies src@[c] < ni && exists|q: int|
                        0 <= q < p && #[trigger] queue@.push(v)[q] == src@[c] by {
                        if p < queue@.len() {
                            assert(queue@.push(v)[p] == queue@[p]);
                            assert(enters(dst@, cut@, ni, c, queue@[p] as int));
                            let q = choose|q: int| 0 <= q < p && #[trigger] queue@[q] == src@[c];
                            assert(queue@.push(v)[q] == src@[c]);
                        } else {
                            assert(settled(src@, done@, ni, c));
                        }
                    }
                }
                queue.push(v);
            }
            proof {
                assert(queued@.push(seed).drop_last() =~= queued@);
            }
            queued.push(seed);
            proof {
                assert forall|k: int|
                    0 <= k < v + 1 implies (#[trigger] queued@[k] <==> exists|p: int|
                        0 <= p < queue@.len() && queue@[p] == k) by {
                    if k < v {
                        if exists|p: int| 0 <= p < q0.len() && q0[p] == k {
                            let p = choose|p: int| 0 <= p < q0.len() && q0[p] == k;
                            assert(queue@[p] == k);
                        }
                        if exists|p: int| 0 <= p < queue@.len() && queue@[p] == k {
                            let p = choose|p: int| 0 <= p < queue@.len() && queue@[p] == k;
                            if p < q0.len() {
                                assert(q0[p] == k);
                            }
                        }
                    } else if seed {
                        assert(queue@[queue@.len() - 1] == k);
                    } else {
                        if exists|p: int| 0 <= p < queue@.len() && queue@[p] == k {
                            let p = choose|p: int| 0 <= p < queue@.len() && queue@[p] == k;
                        }
                    }
                }
            }
            v = v + 1;
        }
        proof {
            lemma_count_true_bound(queued@);
        }
        let mut index: usize = 0;
        while index < queue.len()
            invariant
                n == self.nodes@.len(),
                ni == n as int,
                cn == self.connections@.len(),
                positions_match(*self, src@, dst@, cut@),
                first@.len() == n,
                indeg@.len() == n,
                done@.len() == n,
                queued@.len() == n,
                index <= queue@.len(),
                queue@.len() == count_true(queued@),
                queue@.len() <= n,
                forall|k: int| 0 <= k < n ==> #[trigger] first@[k] == first_of_id(*self, k),
                forall|k: int|
                    0 <= k < n ==> #[trigger] indeg@[k] == pending(src@, dst@, cut@, done@, ni, k, cn as int),
                forall|k: int| 0 <= k < n && first@[k] ==> (#[trigger] queued@[k] <==> indeg@[k] == 0),
                forall|k: int|
                    0 <= k < n ==> (#[trigger] queued@[k] <==> exists|p: int|
                        0 <= p < queue@.len() && queue@[p] == k),
                forall|k: int|
                    0 <= k < n ==> (#[trigger] done@[k] <==> exists|p: int|
                        0 <= p < index && queue@[p] == k),
                order_facts(*self, src@, dst@, cut@, queue@),
            decreases n - index,
        {
            let u = queue[index];
            proof {
                assert forall|k: int| 0 <= k < n implies #[trigger] pending(src@, dst@, cut@, done@, ni, k, cn as int)
                    == pending(src@, dst@, cut@, done@.update(u as int, true), ni, k, cn as int)
                    + links_from(src@, dst@, cut@, ni, u as int, k, cn as int) by {
                    assert(!done@[u as int]);
                    lemma_pending_place(src@, dst@, cut@, done@, ni, u as int, k, cn as int);
                }
            }
            let ghost before = done@;
            done.set(u, true);
            proof {
                assert forall|k: int|
                    0 <= k < n implies (#[trigger] done@[k] <==> exists|p: int|
                        0 <= p < index + 1 && queue@[p] == k) by {
                    if done@[k] && k != u {
                        let p = choose|p: int| 0 <= p < index && queue@[p] == k;
                    }
                }
            }
            index = index + 1;
            let mut j: usize = 0;
            while j < cn
                invariant
                    n == self.nodes@.len(),
                    ni == n as int,
                    cn == self.connections@.len(),
                    positions_match(*self, src@, dst@, cut@),
                    first@.len() == n,
                    indeg@.len() == n,
                    done@.len() == n,
                    queued@.len() == n,
                    0 < index <= queue@.len(),
                    u == queue@[index - 1],
                    u < n,
                    done@[u as int],
                    j <= cn,
                    queue@.len() == count_true(queued@),
                    queue@.len() <= n,
                    forall|k: int| 0 <= k < n ==> #[trigger] first@[k] == first_of_id(*self, k),
                    forall|k: int|
                        0 <= k < n ==> #[trigger] indeg@[k] + links_from(src@, dst@, cut@, ni, u as int, k, j as int)
                            == pending(src@, dst@, cut@, done@, ni, k, cn as int) + links_from(
                            src@,
                            dst@,
                            cut@,
                            ni,
                            u as int,
                            k,
                            cn as int,
                        ),
                    forall|k: int| 0 <= k < n && first@[k] ==> (#[trigger] queued@[k] <==> indeg@[k] == 0),
                    forall|k: int|
                        0 <= k < n ==> (#[trigger] queued@[k] <==> exists|p: int|
                            0 <= p < queue@.len() && queue@[p] == k),
                    forall|k: int|
                        0 <= k < n ==> (#[trigger] done@[k] <==> exists|p: int|
                            0 <= p < index && queue@[p] == k),
                    order_facts(*self, src@, dst@, cut@, queue@),
                decreases cn - j,
            {
                let d = dst[j];
                if src[j] == u && d < n && !cut[d] {
                    proof {
                        lemma_links_from_grows(src@, dst@, cut@, ni, u as int, d as int, j as int + 1, cn as int);
                        lemma_atomic_position(self.nodes@, self.connections@[j as int].destination.node.0@);
                    }
                    let degree = indeg[d] - 1;
                    proof {
                        assert(first@[d as int]);
                        assert(!queued@[d as int]);
                    }
                    let ghost q0 = queue@;
                    indeg.set(d, degree);
                    if degree == 0 {
                        proof {
                            lemma_pending_zero(src@, dst@, cut@, done@, ni, d as int, cn as int);
                            lemma_count_true_exact(queued@, d as int);
                            lemma_count_true_bound(queued@.update(d as int, true));
                            assert forall|p: int, c: int|
                                0 <= p < queue@.len() + 1 && 0 <= c < src@.len() && #[trigger] enters(
                                    dst@,
                                    cut@,
                                    ni,
                                    c,
                                    queue@.push(d)[p] as int,
                                ) implies src@[c] < ni && exists|q: int|
                                0 <= q < p && #[trigger] queue@.push(d)[q] == src@[c] by {
                                if p < queue@.len() {
                                    assert(queue@.push(d)[p] == queue@[p]);
                                    assert(enters(dst@, cut@, ni, c, queue@[p] as int));
                                    let q = choose|q: int| 0 <= q < p && #[trigger] queue@[q] == src@[c];
                                    assert(queue@.push(d)[q] == src@[c]);
                                } else {
                                    assert(settled(src@, done@, ni, c));
                                    let q = choose|q: int| 0 <= q < index && queue@[q] == src@[c];
                                    assert(queue@.push(d)[q] == src@[c]);
                                }
                            }
                            assert forall|p: int, q: int|
                                0 <= p < q < queue@.len() + 1 implies queue@.push(d)[p] != queue@.push(d)[q] by {
                                assert(queue@[p] == queue@.push(d)[p]);
                                if q == queue@.len() {
                                    if queue@[p] == d {
                                        assert(exists|r: int| 0 <= r < queue@.len() && queue@[r] == d);
                                    }
                                } else {
                                    assert(queue@[q] == queue@.push(d)[q]);
                                }
                            }
                        }
                        queue.push(d);
                        queued.set(d, true);
                        proof {
                            assert forall|k: int|
                                0 <= k < n implies (#[trigger] queued@[k] <==> exists|p: int|
                                    0 <= p < queue@.len() && queue@[p] == k) by {
                                if k == d {
                                    assert(queue@[queue@.len() - 1] == k);
                                } else {
                                    if exists|p: int| 0 <= p < q0.len() && q0[p] == k {
                                        let p = choose|p: int| 0 <= p < q0.len() && q0[p] == k;
                                        assert(queue@[p] == k);
                                    }
                                    if exists|p: int| 0 <= p < queue@.len() && queue@[p] == k {
                                        let p = choose|p: int| 0 <= p < queue@.len() && queue@[p] == k;
                                        assert(p < q0.len());
                                        assert(q0[p] == k);
                                    }
                                }
                            }
                            assert forall|k: int|
                                0 <= k < n implies (#[trigger] done@[k] <==> exists|p: int|
                                    0 <= p < index && queue@[p] == k) by {
                                if exists|p: int| 0 <= p < index && q0[p] == k {
                                    let p = choose|p: int| 0 <= p < index && q0[p] == k;
                                    assert(queue@[p] == k);
                                }
                                if exists|p: int| 0 <= p < index && queue@[p] == k {
                                    let p = choose|p: int| 0 <= p < index && queue@[p] == k;
                                    assert(q0[p] == k);
                                }
                            }
                        }
                    }
                }
                j = j + 1;
            }
        }
        proof {
            assert forall|v: int|
                0 <= v < n && first_of_id(*self, v) && !#[trigger] done@[v] implies exists|c: int|
                0 <= c < src@.len() && enters(dst@, cut@, ni, c, v) && !settled(src@, done@, ni, c) by {
                assert(first@[v]);
                if !queued@[v] {
                    lemma_pending_zero(src@, dst@, cut@, done@, ni, v, cn as int);
                } else {
                    let p = choose|p: int| 0 <= p < queue@.len() && queue@[p] == v;
                    assert(done@[v]);
                }
            }
        }
        (queue, done)
    }

    /// The settled arrival and output latency of the nodes of `order`,
    /// accumulated along it.
    fn settle_latencies(&self, src: &Vec<usize>, dst: &Vec<usize>, cut: &Vec<bool>, order: &Vec<usize>) -> (settled: (
        Vec<u32>,
        Vec<u32>,
    ))
        requires
            positions_match(*self, src@, dst@, cut@),
            order_facts(*self, src@, dst@, cut@, order@),
            order@.len() <= self.nodes@.len(),
            latencies_fit(*self),
        ensures
            settled.0@.len() == self.nodes@.len(),
            settled.1@.len() == self.nodes@.len(),
            forall|p: int|
                0 <= p < order@.len() ==> #[trigger] settled.0@[order@[p] as int] == arrival(
                    *self,
                    self.nodes@[order@[p] as int].id.0@,
                ),
            forall|p: int|
                0 <= p < order@.len() ==> #[trigger] settled.1@[order@[p] as int] == departure(
                    *self,
                    self.nodes@[order@[p] as int].id.0@,
                ),
    {
        let n = self.nodes.len();
        let cn = self.connections.len();
        let ghost ni = n as int;
        let mut arrive: Vec<u32> = Vec::new();
        let mut leave: Vec<u32> = Vec::new();
        let mut v: usize = 0;
        while v < n
            invariant
                v <= n,
                arrive@.len() == v,
                leave@.len() == v,
            decreases n - v,
        {
            arrive.push(0);
            leave.push(0);
            v = v + 1;
        }
        let mut p: usize = 0;
        while p < order.len()
            invariant
                n == self.nodes@.len(),
                ni == n as int,
                cn == self.connections@.len(),
                positions_match(*self, src@, dst@, cut@),
                order_facts(*self, src@, dst@, cut@, order@),
                order@.len() <= n,
                latencies_fit(*self),
                p <= order@.len(),
                arrive@.len() == n,
                leave@.len() == n,
                forall|q: int, k: nat|
                    0 <= q < p && k >= q + 1 ==> #[trigger] output_at(
                        *self,
                        self.nodes@[order@[q] as int].id.0@,
                        k,
                    ) == leave@[order@[q] as int],
                forall|q: int|
                    0 <= q < p ==> #[trigger] arrive@[order@[q] as int] == arrival(
                        *self,
                        self.nodes@[order@[q] as int].id.0@,
                    ),
            decreases order@.len() - p,
        {
            let v = order[p];
            let ghost id = self.nodes@[v as int].id.0@;
            let ghost old_leave = leave@;
            let ghost old_arrive = arrive@;
            proof {
                lemma_atomic_position(self.nodes@, id);
                assert(first_of_id(*self, v as int));
                assert(forall|q: int| 0 <= q < p ==> order@[q] != v);
            }
            if cut[v] {
                arrive.set(v, 0);
                leave.set(v, 0);
                proof {
                    assert(cuts(*self, id));
                }
            } else {
                let mut latest: u32 = 0;
                let mut c: usize = 0;
                while c < cn
                    invariant
                        n == self.nodes@.len(),
                        ni == n as int,
                        cn == self.connections@.len(),
                        positions_match(*self, src@, dst@, cut@),
                        order_facts(*self, src@, dst@, cut@, order@),
                        p < order@.len(),
                        v == order@[p as int],
                        v < n,
                        !cut@[v as int],
                        id == self.nodes@[v as int].id.0@,
                        first_of_id(*self, v as int),
                        leave@.len() == n,
                        c <= cn,
                        forall|q: int, k: nat|
                            0 <= q < p && k >= q + 1 ==> #[trigger] output_at(
                                *self,
                                self.nodes@[order@[q] as int].id.0@,
                                k,
                            ) == leave@[order@[q] as int],
                        forall|k: nat| k >= p ==> #[trigger] latest_input(*self, id, k, c as nat) == latest,
                    decreases cn - c,
                {
                    let ghost before = latest;
                    let ghost c0 = c as int;
                    proof {
                        lemma_atomic_position(self.nodes@, self.connections@[c as int].destination.node.0@);
                        lemma_atomic_position(self.nodes@, self.connections@[c as int].source.node.0@);
                    }
                    if dst[c] == v {
                        let s = src[c];
                        proof {
                            assert(enters(dst@, cut@, ni, c as int, order@[p as int] as int));
                        }
                        let candidate = leave[s];
                        if candidate > latest {
                            latest = candidate;
                        }
                    }
                    c = c + 1;
                    proof {
                        assert forall|k: nat| k >= p implies #[trigger] latest_input(*self, id, k, c as nat)
                            == latest by {
                            assert(latest_input(*self, id, k, c0 as nat) == before);
                            if dst@[c0] == v {
                                assert(enters(dst@, cut@, ni, c0, order@[p as int] as int));
                                let q = choose|q: int| 0 <= q < p && #[trigger] order@[q] == src@[c0];
                                assert(output_at(*self, self.nodes@[order@[q] as int].id.0@, k)
                                    == leave@[order@[q] as int]);
                            }
                        }
                    }
                }
                let own = self.nodes[v].latency;
                proof {
                    assert(latest_input(*self, id, (n - 1) as nat, cn as nat) == latest);
                    assert(output_at(*self, id, n as nat) == latest + own);
                    assert(departure(*self, self.nodes@[v as int].id.0@) <= u32::MAX);
                }
                arrive.set(v, latest);
                leave.set(v, latest + own);
                proof {
                    assert forall|k: nat| k >= p + 1 implies #[trigger] output_at(*self, id, k) == latest + own by {
                        assert(latest_input(*self, id, (k - 1) as nat, cn as nat) == latest);
                    }
                }
            }
            proof {
                assert forall|q: int, k: nat|
                    0 <= q < p + 1 && k >= q + 1 implies #[trigger] output_at(
                    *self,
                    self.nodes@[order@[q] as int].id.0@,
                    k,
                ) == leave@[order@[q] as int] by {
                    if q < p {
                        assert(old_leave[order@[q] as int] == leave@[order@[q] as int]);
                    }
                }
                assert forall|q: int|
                    0 <= q < p + 1 implies #[trigger] arrive@[order@[q] as int] == arrival(
                    *self,
                    self.nodes@[order@[q] as int].id.0@,
                ) by {
                    if q < p {
                        assert(old_arrive[order@[q] as int] == arrive@[order@[q] as int]);
                    }
                }
            }
            p = p + 1;
        }
        proof {
            assert forall|q: int| 0 <= q < order@.len() implies #[trigger] leave@[order@[q] as int] == departure(
                *self,
                self.nodes@[order@[q] as int].id.0@,
            ) by {
                assert(output_at(*self, self.nodes@[order@[q] as int].id.0@, n as nat) == leave@[order@[q] as int]);
                lemma_atomic_position(self.nodes@, self.nodes@[order@[q] as int].id.0@);
            }
        }
        (arrive, leave)
    }

    /// The distinct node ids named by the nodes and the connections, with the
    /// index of every node's id and of every connection's endpoints among them.
    fn id_universe(&self) -> (universe: (Vec<String>, Vec<usize>, Vec<usize>, Vec<usize>))
        ensures
            universe_facts(*self, universe.0@, universe.2@, universe.3@),
            texts_of(universe.0@) == universe_ids(*self),
            universe.1@.len() == self.nodes@.len(),
            forall|j: int|
                0 <= j < self.nodes@.len() ==> #[trigger] universe.1@[j] < universe.0@.len()
                    && universe.0@[universe.1@[j] as int]@ == self.nodes@[j].id.0@,
    {
        let mut ids: Vec<String> = Vec::new();
        let mut node_u: Vec<usize> = Vec::new();
        let mut j: usize = 0;
        while j < self.nodes.len()
            invariant
                j <= self.nodes@.len(),
                distinct_texts(ids@),
                texts_of(ids@) == node_ids_through(*self, j as nat),
                node_u@.len() == j,
                forall|k: int|
                    0 <= k < j ==> #[trigger] node_u@[k] < ids@.len() && ids@[node_u@[k] as int]@
                        == self.nodes@[k].id.0@,
            decreases self.nodes@.len() - j,
        {
            let ghost before = ids@;
            let index = intern(&mut ids, self.nodes[j].id.as_str());
            proof {
                assert forall|k: int| 0 <= k < j implies #[trigger] node_u@[k] < ids@.len() && ids@[node_u@[k] as int]@
                    == self.nodes@[k].id.0@ by {
                    assert(before[node_u@[k] as int] == ids@[node_u@[k] as int]);
                }
            }
            node_u.push(index);
            j = j + 1;
        }
        proof {
            assert(universe_ids_through(*self, 0) == node_ids_through(*self, self.nodes@.len() as nat));
        }
        let mut src_u: Vec<usize> = Vec::new();
        let mut dst_u: Vec<usize> = Vec::new();
        let mut c: usize = 0;
        while c < self.connections.len()
            invariant
                c <= self.connections@.len(),
                distinct_texts(ids@),
                texts_of(ids@) == universe_ids_through(*self, c as nat),
                node_u@.len() == self.nodes@.len(),
                forall|k: int|
                    0 <= k < self.nodes@.len() ==> #[trigger] node_u@[k] < ids@.len() && ids@[node_u@[k] as int]@
                        == self.nodes@[k].id.0@,
                src_u@.len() == c,
                dst_u@.len() == c,
                forall|k: int|
                    0 <= k < c ==> #[trigger] src_u@[k] < ids@.len() && ids@[src_u@[k] as int]@
                        == self.connections@[k].source.node.0@,
                forall|k: int|
                    0 <= k < c ==> #[trigger] dst_u@[k] < ids@.len() && ids@[dst_u@[k] as int]@
                        == self.connections@[k].destination.node.0@,
            decreases self.connections@.len() - c,
        {
            let ghost first = ids@;
            let a = intern(&mut ids, self.connections[c].source.node.as_str());
            let ghost second = ids@;
            let b = intern(&mut ids, self.connections[c].destination.node.as_str());
            proof {
                assert(second[a as int] == ids@[a as int]);
                assert forall|k: int| 0 <= k < self.nodes@.len() implies #[trigger] node_u@[k] < ids@.len()
                    && ids@[node_u@[k] as int]@ == self.nodes@[k].id.0@ by {
                    assert(first[node_u@[k] as int] == ids@[node_u@[k] as int]);
                }
                assert forall|k: int| 0 <= k < c implies #[trigger] src_u@[k] < ids@.len() && ids@[src_u@[k] as int]@
                    == self.connections@[k].source.node.0@ by {
                    assert(first[src_u@[k] as int] == ids@[src_u@[k] as int]);
                }
                assert forall|k: int| 0 <= k < c implies #[trigger] dst_u@[k] < ids@.len() && ids@[dst_u@[k] as int]@
                    == self.connections@[k].destination.node.0@ by {
                    assert(first[dst_u@[k] as int] == ids@[dst_u@[k] as int]);
                }
            }
            src_u.push(a);
            dst_u.push(b);
            c = c + 1;
        }
        (ids, node_u, src_u, dst_u)
    }

    /// For every id of the universe: whether it bears uncompensatable latency,
    /// and its declared latency.
    fn bearing_flags(&self, ids: &Vec<String>) -> (flags: (Vec<bool>, Vec<u32>))
        ensures
            flags.0@.len() == ids@.len(),
            flags.1@.len() == ids@.len(),
            forall|i: int| 0 <= i < ids@.len() ==> #[trigger] flags.0@[i] == latency_bearing(*self, ids@[i]@),
            forall|i: int| 0 <= i < ids@.len() ==> #[trigger] flags.1@[i] == latency_at(*self, ids@[i]@),
    {
        let mut bearing: Vec<bool> = Vec::new();
        let mut latency: Vec<u32> = Vec::new();
        let mut i: usize = 0;
        while i < ids.len()
            invariant
                i <= ids@.len(),
                bearing@.len() == i,
                latency@.len() == i,
                forall|k: int| 0 <= k < i ==> #[trigger] bearing@[k] == latency_bearing(*self, ids@[k]@),
                forall|k: int| 0 <= k < i ==> #[trigger] latency@[k] == latency_at(*self, ids@[k]@),
            decreases ids@.len() - i,
        {
            let p = self.position(ids[i].as_str());
            if p < self.nodes.len() {
                let node = &self.nodes[p];
                let feedback = str_eq(node.definition.as_str(), FEEDBACK_DELAY_DEFINITION);
                bearing.push(!feedback && node.latency > 0);
                latency.push(node.latency);
            } else {
                bearing.push(false);
                latency.push(0);
            }
            i = i + 1;
        }
        (bearing, latency)
    }
}

/// The index of `id` in `ids`, appending it when absent.
pub(crate) fn intern(ids: &mut Vec<String>, id: &str) -> (index: usize)
    requires
        distinct_texts(old(ids)@),
    ensures
        distinct_texts(final(ids)@),
        index < final(ids)@.len(),
        final(ids)@[index as int]@ == id@,
        old(ids)@.len() <= final(ids)@.len(),
        forall|k: int| 0 <= k < old(ids)@.len() ==> #[trigger] final(ids)@[k] == old(ids)@[k],
        texts_of(final(ids)@) == interned(texts_of(old(ids)@), id@),
{
    let mut i: usize = 0;
    while i < ids.len()
        invariant
            i <= ids@.len(),
            ids@ == old(ids)@,
            distinct_texts(ids@),
            forall|k: int| 0 <= k < i ==> ids@[k]@ != id@,
        decreases ids@.len() - i,
    {
        if str_eq(ids[i].as_str(), id) {
            proof {
                assert(texts_of(ids@)[i as int] == id@);
            }
            return i;
        }
        i = i + 1;
    }
    proof {
        assert forall|k: int| 0 <= k < texts_of(ids@).len() implies texts_of(ids@)[k] != id@ by {}
    }
    let ghost before = ids@;
    ids.push(String::from_str(id));
    proof {
        assert(texts_of(ids@) =~= texts_of(before).push(id@));
    }
    ids.len() - 1
}

/// `ids` with `id` added at the end unless it holds it already.
pub open spec fn interned(ids: Seq<Seq<char>>, id: Seq<char>) -> Seq<Seq<char>> {
    if ids.contains(id) {
        ids
    } else {
        ids.push(id)
    }
}

/// The distinct ids of the first `n` nodes, in first-occurrence order.
pub open spec fn node_ids_through(g: FlattenedGraph, n: nat) -> Seq<Seq<char>>
    decreases n,
{
    if n == 0 || n > g.nodes@.len() {
        Seq::empty()
    } else {
        interned(node_ids_through(g, (n - 1) as nat), g.nodes@[n - 1].id.0@)
    }
}

/// The distinct ids of the nodes, then of the endpoints of the first `c`
/// connections, in first-occurrence order.
pub open spec fn universe_ids_through(g: FlattenedGraph, c: nat) -> Seq<Seq<char>>
    decreases c,
{
    if c == 0 || c > g.connections@.len() {
        node_ids_through(g, g.nodes@.len() as nat)
    } else {
        let connection = g.connections@[c - 1];
        interned(
            interned(universe_ids_through(g, (c - 1) as nat), connection.source.node.0@),
            connection.destination.node.0@,
        )
    }
}

/// Every node id the graph names, each once, in first-occurrence order.
pub open spec fn universe_ids(g: FlattenedGraph) -> Seq<Seq<char>> {
    universe_ids_through(g, g.connections@.len() as nat)
}

/// No two entries of `texts` are equal.
pub open spec fn distinct_texts(texts: Seq<String>) -> bool {
    forall|i: int, j: int| 0 <= i < j < texts.len() ==> texts[i]@ != texts[j]@
}

/// The facts about the id universe the cycle search works from.
spec fn universe_facts(g: FlattenedGraph, ids: Seq<String>, src_u: Seq<usize>, dst_u: Seq<usize>) -> bool {
    &&& distinct_texts(ids)
    &&& src_u.len() == g.connections@.len()
    &&& dst_u.len() == g.connections@.len()
    &&& forall|c: int|
        0 <= c < src_u.len() ==> #[trigger] src_u[c] < ids.len() && ids[src_u[c] as int]@
            == g.connections@[c].source.node.0@
    &&& forall|c: int|
        0 <= c < dst_u.len() ==> #[trigger] dst_u[c] < ids.len() && ids[dst_u[c] as int]@
            == g.connections@[c].destination.node.0@
}

/// The views of `texts`.
pub open spec fn texts_of(texts: Seq<String>) -> Seq<Seq<char>> {
    texts.map_values(|text: String| text@)
}

/// `parts` joined with `separator` between neighbours.
pub(crate) fn join_texts(parts: &Vec<String>, separator: &str) -> (text: String)
    ensures
        text@ == joined(texts_of(parts@), separator@),
{
    let mut text = String::new();
    let mut i: usize = 0;
    while i < parts.len()
        invariant
            i <= parts@.len(),
            text@ == joined(texts_of(parts@).take(i as int), separator@),
        decreases parts@.len() - i,
    {
        let ghost before = texts_of(parts@).take(i as int);
        if i > 0 {
            text.append(separator);
        }
        text.append(parts[i].as_str());
        proof {
            let now = texts_of(parts@).take(i + 1);
            assert(now.drop_last() =~= before);
            if i == 0 {
                assert(before =~= Seq::<Seq<char>>::empty());
            }
        }
        i = i + 1;
    }
    proof {
        assert(texts_of(parts@).take(parts@.len() as int) =~= texts_of(parts@));
    }
    text
}

/// The marks of the cycle search: a position is marked while it is being
/// visited or once it has been visited.
pub(crate) open spec fn marks(visiting: Seq<bool>, visited: Seq<bool>) -> Seq<bool> {
    Seq::new(visiting.len(), |i: int| visiting[i] || visited[i])
}

/// The search stack is a path along connections, and every position being
/// visited lies on it.
spec fn stack_facts(g: FlattenedGraph, ids: Seq<String>, visiting: Seq<bool>, stack: Seq<usize>) -> bool {
    &&& forall|i: int| 0 <= i < stack.len() ==> #[trigger] stack[i] < ids.len()
    &&& forall|i: int|
        0 <= i < stack.len() - 1 ==> linked(g, ids[#[trigger] stack[i] as int]@, ids[stack[i + 1] as int]@)
    &&& forall|w: int|
        0 <= w < visiting.len() && #[trigger] visiting[w] ==> exists|i: int|
            0 <= i < stack.len() && stack[i] == w
}

/// The state of the depth-first search for latency-bearing cycles, over
/// universe positions: which are on the current path, which are finished,
/// the path itself, and the member lists of the cycles reported so far.
pub struct CycleSearch {
    pub visiting: Seq<bool>,
    pub visited: Seq<bool>,
    pub stack: Seq<usize>,
    pub reported: Seq<Seq<usize>>,
}

/// The first position of `x` in `stack` (the length when it is absent).
pub open spec fn stack_position(stack: Seq<usize>, x: usize) -> int
    decreases stack.len(),
{
    if stack.len() == 0 {
        0
    } else if stack[0] == x {
        0
    } else {
        1 + stack_position(stack.drop_first(), x)
    }
}

proof fn lemma_stack_position(stack: Seq<usize>, x: usize, j: int)
    requires
        0 <= j < stack.len(),
        stack[j] == x,
        forall|t: int| 0 <= t < j ==> stack[t] != x,
    ensures
        stack_position(stack, x) == j,
    decreases j,
{
    if j > 0 {
        assert forall|t: int| 0 <= t < j - 1 implies stack.drop_first()[t] != x by {
            assert(stack.drop_first()[t] == stack[t + 1]);
        }
        lemma_stack_position(stack.drop_first(), x, j - 1);
    }
}

/// A cycle with the same members as `cycle` is among `reported`.
pub open spec fn cycle_reported(reported: Seq<Seq<usize>>, cycle: Seq<usize>) -> bool {
    exists|r: int| 0 <= r < reported.len() && same_cycle(#[trigger] reported[r], cycle)
}

/// The search after meeting `next` on the current path: the cycle from
/// `next` to the top of the path is reported when it holds a latency-bearing
/// node and no cycle with its members was reported before.
pub open spec fn after_back_edge(bearing: Seq<bool>, st: CycleSearch, next: usize) -> CycleSearch {
    let cycle = st.stack.subrange(stack_position(st.stack, next), st.stack.len() as int);
    if bears_latency(bearing, cycle) && !cycle_reported(st.reported, cycle) {
        CycleSearch { reported: st.reported.push(cycle), ..st }
    } else {
        st
    }
}

/// The search from position `node`: a finished node is passed over;
/// otherwise it goes on the path, each distinct successor (in connection
/// order) is met in turn, and it is finished.
pub open spec fn search_from(
    src: Seq<usize>,
    dst: Seq<usize>,
    bearing: Seq<bool>,
    node: usize,
    st: CycleSearch,
    fuel: nat,
) -> CycleSearch
    decreases fuel, 1nat, 0nat,
{
    if node >= st.visited.len() || st.visited[node as int] {
        st
    } else {
        let entered = CycleSearch {
            visiting: st.visiting.update(node as int, true),
            stack: st.stack.push(node),
            ..st
        };
        let done = search_successors(
            src,
            dst,
            bearing,
            successors_through(src, dst, node, src.len() as nat),
            0,
            entered,
            fuel,
        );
        CycleSearch {
            visiting: st.visiting,
            visited: done.visited.update(node as int, true),
            stack: st.stack,
            reported: done.reported,
        }
    }
}

/// The search meeting the successors `succs` from the `i`-th on: one on the
/// path closes a cycle, one not yet finished is searched from.
pub open spec fn search_successors(
    src: Seq<usize>,
    dst: Seq<usize>,
    bearing: Seq<bool>,
    succs: Seq<usize>,
    i: int,
    st: CycleSearch,
    fuel: nat,
) -> CycleSearch
    decreases fuel, 0nat, succs.len() - i,
{
    if i < 0 || i >= succs.len() {
        st
    } else {
        let next = succs[i];
        let after = if next < st.visiting.len() && st.visiting[next as int] {
            after_back_edge(bearing, st, next)
        } else if next < st.visited.len() && !st.visited[next as int] && fuel > 0 {
            search_from(src, dst, bearing, next, st, (fuel - 1) as nat)
        } else {
            st
        };
        search_successors(src, dst, bearing, succs, i + 1, after, fuel)
    }
}

/// The search from the first `n` of `starts` in order, from nothing marked.
pub open spec fn search_starts(
    src: Seq<usize>,
    dst: Seq<usize>,
    bearing: Seq<bool>,
    starts: Seq<usize>,
    n: nat,
) -> CycleSearch
    decreases n,
{
    if n == 0 || n > starts.len() {
        CycleSearch {
            visiting: Seq::new(bearing.len(), |i: int| false),
            visited: Seq::new(bearing.len(), |i: int| false),
            stack: Seq::empty(),
            reported: Seq::empty(),
        }
    } else {
        search_from(
            src,
            dst,
            bearing,
            starts[n - 1],
            search_starts(src, dst, bearing, starts, (n - 1) as nat),
            bearing.len(),
        )
    }
}

/// `id` bears latency and lies on a closed walk.
pub open spec fn cycle_bearer(g: FlattenedGraph, id: Seq<char>) -> bool {
    latency_bearing(g, id) && exists|walk: Seq<Seq<char>>| #[trigger] closed_walk(g, walk) && walk[0] == id
}

/// Position of the first of `ids` that bears latency on a closed walk (the
/// length when none does).
pub open spec fn first_cycle_bearer(g: FlattenedGraph, ids: Seq<Seq<char>>) -> int
    decreases ids.len(),
{
    if ids.len() == 0 {
        0
    } else if cycle_bearer(g, ids[0]) {
        0
    } else {
        1 + first_cycle_bearer(g, ids.drop_first())
    }
}

proof fn lemma_first_cycle_bearer(g: FlattenedGraph, ids: Seq<Seq<char>>, v: int)
    requires
        0 <= v < ids.len(),
        cycle_bearer(g, ids[v]),
        forall|w: int| 0 <= w < v ==> !cycle_bearer(g, #[trigger] ids[w]),
    ensures
        first_cycle_bearer(g, ids) == v,
    decreases v,
{
    if v > 0 {
        assert forall|w: int| 0 <= w < v - 1 implies !cycle_bearer(g, #[trigger] ids.drop_first()[w]) by {
            assert(ids.drop_first()[w] == ids[w + 1]);
        }
        assert(!cycle_bearer(g, ids[0]));
        lemma_first_cycle_bearer(g, ids.drop_first(), v - 1);
    }
}

/// `d` reports the latency-bearing node `id`, which the search did not meet
/// on a reported cycle, as lying on a feedback cycle.
pub open spec fn reports_bearer(g: FlattenedGraph, d: Diagnostic, id: Seq<char>) -> bool {
    &&& d.code == ErrorCode::KernelLatencyInFeedbackCycle
    &&& d.severity == Severity::Error
    &&& d.module_id matches Some(offender) && offender@ == id
    &&& d.message@ == latency_cycle_message("through '"@ + id + "'"@, id, latency_at(g, id))
    &&& d.port_name is None
    &&& d.expected is None
    &&& d.actual is None
    &&& d.suggested_fix matches Some(fix) && fix@
        == "move the latency-bearing node out of the feedback cycle, or keep only the 'feedback_delay' node's delay inside it"@
}

proof fn lemma_id_position(ids: Seq<Seq<char>>, u: int)
    requires
        0 <= u < ids.len(),
        forall|a: int, b: int| 0 <= a < b < ids.len() ==> ids[a] != ids[b],
    ensures
        id_position(ids, ids[u]) == u,
    decreases u,
{
    if u > 0 {
        let rest = ids.drop_first();
        assert(ids[0] != ids[u]);
        assert(rest[u - 1] == ids[u]);
        assert forall|a: int, b: int| 0 <= a < b < rest.len() implies rest[a] != rest[b] by {
            assert(rest[a] == ids[a + 1]);
            assert(rest[b] == ids[b + 1]);
        }
        lemma_id_position(rest, u - 1);
    }
}

/// The member lists of reported cycles.
pub open spec fn reported_lists(reported: Seq<Vec<usize>>) -> Seq<Seq<usize>> {
    reported.map_values(|cycle: Vec<usize>| cycle@)
}

/// The search state the executable search holds.
pub open spec fn search_state(
    visiting: Seq<bool>,
    visited: Seq<bool>,
    stack: Seq<usize>,
    reported: Seq<Vec<usize>>,
) -> CycleSearch {
    CycleSearch { visiting, visited, stack, reported: reported_lists(reported) }
}

proof fn lemma_reported_lists(reported: Seq<Vec<usize>>, cycle: Seq<usize>)
    ensures
        reported_already(reported, cycle) == cycle_reported(reported_lists(reported), cycle),
{
    if reported_already(reported, cycle) {
        let r = choose|r: int| 0 <= r < reported.len() && same_cycle(#[trigger] reported[r]@, cycle);
        assert(reported_lists(reported)[r] == reported[r]@);
    }
    if cycle_reported(reported_lists(reported), cycle) {
        let r = choose|r: int| 0 <= r < reported_lists(reported).len() && same_cycle(
            #[trigger] reported_lists(reported)[r],
            cycle,
        );
        assert(reported_lists(reported)[r] == reported[r]@);
    }
}

/// The first position of `id` among `ids` (the length when it is absent).
pub open spec fn id_position(ids: Seq<Seq<char>>, id: Seq<char>) -> int
    decreases ids.len(),
{
    if ids.len() == 0 {
        0
    } else if ids[0] == id {
        0
    } else {
        1 + id_position(ids.drop_first(), id)
    }
}

/// The universe positions of the connections' sources.
pub open spec fn universe_sources(g: FlattenedGraph) -> Seq<usize> {
    Seq::new(g.connections@.len(), |c: int| id_position(universe_ids(g), g.connections@[c].source.node.0@) as usize)
}

/// The universe positions of the connections' destinations.
pub open spec fn universe_destinations(g: FlattenedGraph) -> Seq<usize> {
    Seq::new(
        g.connections@.len(),
        |c: int| id_position(universe_ids(g), g.connections@[c].destination.node.0@) as usize,
    )
}

/// The universe positions of the nodes' ids, in node order.
pub open spec fn universe_nodes(g: FlattenedGraph) -> Seq<usize> {
    Seq::new(g.nodes@.len(), |j: int| id_position(universe_ids(g), g.nodes@[j].id.0@) as usize)
}

/// Which universe positions bear latency a feedback cycle could not
/// compensate.
pub open spec fn universe_bearing(g: FlattenedGraph) -> Seq<bool> {
    universe_ids(g).map_values(|id: Seq<char>| latency_bearing(g, id))
}

/// The member lists of the latency-bearing cycles the search reports, in the
/// order it meets them.
pub open spec fn searched_latency_cycles(g: FlattenedGraph) -> Seq<Seq<usize>> {
    search_starts(
        universe_sources(g),
        universe_destinations(g),
        universe_bearing(g),
        universe_nodes(g),
        g.nodes@.len() as nat,
    ).reported
}

/// `d` reports the cycle through the universe positions `cycle` (whose
/// names `ids` gives): it names the first latency-bearing member and lists
/// the cycle's names in order.
pub open spec fn reports_cycle(g: FlattenedGraph, ids: Seq<Seq<char>>, bearing: Seq<bool>, d: Diagnostic, cycle: Seq<usize>) -> bool {
    &&& d.code == ErrorCode::KernelLatencyInFeedbackCycle
    &&& d.severity == Severity::Error
    &&& exists|k: int|
        0 <= k < cycle.len() && bearing[cycle[k] as int] && (forall|t: int|
            0 <= t < k ==> !bearing[#[trigger] cycle[t] as int]) && (d.module_id matches Some(offender) && offender@
            == ids[cycle[k] as int]) && d.message@ == latency_cycle_message(
            joined(cycle.map_values(|u: usize| ids[u as int]), " -> "@),
            ids[cycle[k] as int],
            latency_at(g, ids[cycle[k] as int]),
        )
    &&& d.port_name is None
    &&& d.expected is None
    &&& d.actual is None
    &&& d.suggested_fix matches Some(fix) && fix@
        == "move the latency-bearing node out of the feedback cycle, or keep only the 'feedback_delay' node's delay inside it"@
}

/// `diagnostics` report `cycles`, one each, in order.
pub open spec fn reports_cycles(
    g: FlattenedGraph,
    ids: Seq<Seq<char>>,
    bearing: Seq<bool>,
    diagnostics: Seq<Diagnostic>,
    cycles: Seq<Seq<usize>>,
) -> bool {
    &&& diagnostics.len() == cycles.len()
    &&& forall|k: int| 0 <= k < cycles.len() ==> reports_cycle(g, ids, bearing, #[trigger] diagnostics[k], cycles[k])
}

/// Some feedback cycle of `g` passes through a latency-bearing node.
pub open spec fn has_latency_bearing_cycle(g: FlattenedGraph) -> bool {
    exists|walk: Seq<Seq<char>>, i: int|
        #[trigger] closed_walk(g, walk) && 0 <= i < walk.len() && latency_bearing(g, #[trigger] walk[i])
}

/// Some feedback cycle of `g` holds no latency-bearing node.
pub open spec fn plain_cycle(g: FlattenedGraph) -> bool {
    exists|walk: Seq<Seq<char>>|
        #[trigger] closed_walk(g, walk) && forall|i: int| 0 <= i < walk.len() ==> !latency_bearing(g, #[trigger] walk[i])
}

/// `a` holds as many entries as `b` and each entry of `b`.
pub open spec fn same_cycle(a: Seq<usize>, b: Seq<usize>) -> bool {
    a.len() == b.len() && forall|i: int| 0 <= i < b.len() ==> a.contains(#[trigger] b[i])
}

/// Some node of `cycle` is marked latency-bearing in `bearing`.
pub open spec fn bears_latency(bearing: Seq<bool>, cycle: Seq<usize>) -> bool {
    exists|t: int| 0 <= t < cycle.len() && bearing[#[trigger] cycle[t] as int]
}

/// A cycle with the same members as `cycle` was reported already.
pub open spec fn reported_already(reported: Seq<Vec<usize>>, cycle: Seq<usize>) -> bool {
    exists|r: int| 0 <= r < reported.len() && same_cycle(#[trigger] reported[r]@, cycle)
}

proof fn lemma_universe_bridge(g: FlattenedGraph, ids: Seq<String>, src_u: Seq<usize>, dst_u: Seq<usize>)
    requires
        universe_facts(g, ids, src_u, dst_u),
    ensures
        universe_in(g.connections@, ids, src_u, dst_u),
{
}

proof fn lemma_walk_bridge(g: FlattenedGraph, walk: Seq<Seq<char>>)
    ensures
        closed_walk(g, walk) == closed_walk_in(g.connections@, walk),
{
    assert forall|a: Seq<char>, b: Seq<char>| linked(g, a, b) == connects(g.connections@, a, b) by {}
    if closed_walk(g, walk) {
        assert forall|i: int| 0 <= i < walk.len() - 1 implies connects(g.connections@, #[trigger] walk[i], walk[i + 1]) by {
            assert(linked(g, walk[i], walk[i + 1]));
        }
    }
    if closed_walk_in(g.connections@, walk) {
        assert forall|i: int| 0 <= i < walk.len() - 1 implies linked(g, #[trigger] walk[i], walk[i + 1]) by {
            assert(connects(g.connections@, walk[i], walk[i + 1]));
        }
    }
}

/// Every diagnostic reports a feedback cycle through a latency-bearing node.
pub open spec fn all_latency_cycles(g: FlattenedGraph, diagnostics: Seq<Diagnostic>) -> bool {
    forall|i: int| 0 <= i < diagnostics.len() ==> is_latency_cycle_diagnostic(g, #[trigger] diagnostics[i])
}

/// `path` leads from node `a` to node `b` along connections.
pub open spec fn path_between(g: FlattenedGraph, path: Seq<Seq<char>>, a: Seq<char>, b: Seq<char>) -> bool {
    &&& path.len() >= 1
    &&& path[0] == a
    &&& path[path.len() - 1] == b
    &&& forall|i: int| 0 <= i < path.len() - 1 ==> linked(g, #[trigger] path[i], path[i + 1])
}

/// Every marked universe node is reached from `ids[v]` along connections.
spec fn reached_from(g: FlattenedGraph, ids: Seq<String>, v: int, reach: Seq<bool>) -> bool {
    forall|u: int|
        0 <= u < ids.len() && u < reach.len() && #[trigger] reach[u] ==> exists|path: Seq<Seq<char>>|
            path_between(g, path, ids[v]@, ids[u]@)
}

/// Every connection that leaves a marked node and does not enter `ids[v]`
/// enters a marked node.
spec fn closed_except_into(src_u: Seq<usize>, dst_u: Seq<usize>, v: int, reach: Seq<bool>) -> bool {
    forall|c: int|
        0 <= c < src_u.len() && #[trigger] reach[src_u[c] as int] && dst_u[c] != v ==> reach[dst_u[c] as int]
}

proof fn lemma_distinct_index(ids: Seq<String>, a: int, b: int)
    requires
        distinct_texts(ids),
        0 <= a < ids.len(),
        0 <= b < ids.len(),
        ids[a]@ == ids[b]@,
    ensures
        a == b,
{
    if a < b {
        assert(ids[a]@ != ids[b]@);
    } else if b < a {
        assert(ids[b]@ != ids[a]@);
    }
}

/// A closed walk may start at any of its nodes.
proof fn lemma_rotate_walk(g: FlattenedGraph, walk: Seq<Seq<char>>, i: int) -> (rotated: Seq<Seq<char>>)
    requires
        closed_walk(g, walk),
        0 <= i < walk.len(),
    ensures
        closed_walk(g, rotated),
        rotated.len() == walk.len(),
        rotated[0] == walk[i],
{
    let n = walk.len();
    let rotated = walk.subrange(i, n as int) + walk.subrange(0, i);
    assert forall|t: int| 0 <= t < n - 1 implies linked(g, #[trigger] rotated[t], rotated[t + 1]) by {
        if t < n - i - 1 {
            assert(rotated[t] == walk[i + t]);
            assert(rotated[t + 1] == walk[i + t + 1]);
        } else if t == n - i - 1 {
            assert(rotated[t] == walk[n - 1]);
            assert(rotated[t + 1] == walk[0]);
        } else {
            assert(rotated[t] == walk[t - (n - i)]);
            assert(rotated[t + 1] == walk[t + 1 - (n - i)]);
        }
    }
    if i > 0 {
        assert(rotated[n - 1] == walk[i - 1]);
        assert(linked(g, walk[i - 1], walk[i]));
    } else {
        assert(rotated =~= walk);
    }
    rotated
}

/// Marks closed under connections not entering `ids[v]`, with `ids[v]`
/// marked, leave a closed walk through `ids[v]` no way back but a connection
/// into `ids[v]` from a marked node; here from the marked `t`-th node on.
proof fn lemma_walk_returns(
    g: FlattenedGraph,
    ids: Seq<String>,
    src_u: Seq<usize>,
    dst_u: Seq<usize>,
    v: int,
    reach: Seq<bool>,
    walk: Seq<Seq<char>>,
    t: int,
    u: int,
)
    requires
        universe_facts(g, ids, src_u, dst_u),
        0 <= v < ids.len(),
        reach.len() == ids.len(),
        closed_except_into(src_u, dst_u, v, reach),
        closed_walk(g, walk),
        walk[0] == ids[v]@,
        0 <= t < walk.len(),
        0 <= u < ids.len(),
        reach[u],
        ids[u]@ == walk[t],
    ensures
        exists|c: int| 0 <= c < src_u.len() && dst_u[c] == v && #[trigger] reach[src_u[c] as int],
    decreases walk.len() - t,
{
    let n = walk.len();
    if t < n - 1 {
        assert(linked(g, walk[t], walk[t + 1]));
        let c = choose|c: int|
            0 <= c < g.connections@.len() && #[trigger] g.connections@[c].source.node.0@ == walk[t]
                && g.connections@[c].destination.node.0@ == walk[t + 1];
        lemma_distinct_index(ids, src_u[c] as int, u);
        if dst_u[c] == v {
            assert(reach[src_u[c] as int]);
        } else {
            lemma_walk_returns(g, ids, src_u, dst_u, v, reach, walk, t + 1, dst_u[c] as int);
        }
    } else {
        assert(linked(g, walk[n - 1], walk[0]));
        let c = choose|c: int|
            0 <= c < g.connections@.len() && #[trigger] g.connections@[c].source.node.0@ == walk[n - 1]
                && g.connections@[c].destination.node.0@ == walk[0];
        lemma_distinct_index(ids, src_u[c] as int, u);
        lemma_distinct_index(ids, dst_u[c] as int, v);
        assert(reach[src_u[c] as int]);
    }
}

impl FlattenedGraph {
    /// The universe nodes reached from `v` along connections, not following
    /// connections back into `v`.
    fn reach_avoiding(&self, v: usize, ids: &Vec<String>, src_u: &Vec<usize>, dst_u: &Vec<usize>) -> (reach: Vec<bool>)
        requires
            universe_facts(*self, ids@, src_u@, dst_u@),
            v < ids@.len(),
        ensures
            reach@.len() == ids@.len(),
            reach@[v as int],
            closed_except_into(src_u@, dst_u@, v as int, reach@),
            reached_from(*self, ids@, v as int, reach@),
    {
        let mut reach: Vec<bool> = Vec::new();
        let mut i: usize = 0;
        while i < ids.len()
            invariant
                i <= ids@.len(),
                reach@.len() == i,
                forall|w: int| 0 <= w < i ==> #[trigger] reach@[w] == (w == v),
            decreases ids@.len() - i,
        {
            reach.push(i == v);
            i = i + 1;
        }
        proof {
            assert forall|u: int| 0 <= u < ids@.len() && u < reach@.len() && #[trigger] reach@[u] implies exists|
                path: Seq<Seq<char>>,
            | path_between(*self, path, ids@[v as int]@, ids@[u]@) by {
                assert(path_between(*self, seq![ids@[v as int]@], ids@[v as int]@, ids@[u]@));
            }
        }
        loop
            invariant
                universe_facts(*self, ids@, src_u@, dst_u@),
                v < ids@.len(),
                reach@.len() == ids@.len(),
                reach@[v as int],
                reached_from(*self, ids@, v as int, reach@),
            decreases ids@.len() - count_true(reach@),
        {
            let ghost start = reach@;
            proof {
                lemma_count_true_bound(start);
            }
            let mut changed = false;
            let mut c: usize = 0;
            while c < src_u.len()
                invariant
                    universe_facts(*self, ids@, src_u@, dst_u@),
                    v < ids@.len(),
                    c <= src_u@.len(),
                    reach@.len() == ids@.len(),
                    reach@[v as int],
                    reached_from(*self, ids@, v as int, reach@),
                    start.len() == ids@.len(),
                    forall|w: int| 0 <= w < start.len() && #[trigger] start[w] ==> reach@[w],
                    !changed ==> reach@ == start,
                    changed ==> count_true(start) < count_true(reach@),
                    !changed ==> forall|d: int|
                        0 <= d < c && #[trigger] reach@[src_u@[d] as int] && dst_u@[d] != v ==> reach@[dst_u@[d] as int],
                decreases src_u@.len() - c,
            {
                let from = src_u[c];
                let to = dst_u[c];
                if reach[from] && to != v && !reach[to] {
                    let ghost before = reach@;
                    reach.set(to, true);
                    proof {
                        assert forall|w: int| 0 <= w < start.len() && #[trigger] start[w] implies reach@[w] by {
                            assert(before[w]);
                        }
                        lemma_count_true_grows(start, reach@);
                        assert(!start[to as int] && reach@[to as int]);
                        assert forall|u: int| 0 <= u < ids@.len() && u < reach@.len() && #[trigger] reach@[u] implies exists|
                            path: Seq<Seq<char>>,
                        | path_between(*self, path, ids@[v as int]@, ids@[u]@) by {
                            if u == to {
                                assert(before[from as int]);
                                let path = choose|path: Seq<Seq<char>>| path_between(*self, path, ids@[v as int]@, ids@[from as int]@);
                                let longer = path.push(ids@[u]@);
                                assert(linked(*self, ids@[from as int]@, ids@[u]@)) by {
                                    assert(self.connections@[c as int].source.node.0@ == ids@[from as int]@);
                                }
                                assert forall|k: int| 0 <= k < longer.len() - 1 implies linked(*self, #[trigger] longer[k], longer[k + 1]) by {
                                    if k < path.len() - 1 {
                                        assert(longer[k] == path[k]);
                                        assert(longer[k + 1] == path[k + 1]);
                                    }
                                }
                                assert(path_between(*self, longer, ids@[v as int]@, ids@[u]@));
                            } else {
                                assert(before[u]);
                            }
                        }
                    }
                    changed = true;
                }
                c = c + 1;
            }
            if !changed {
                return reach;
            }
            proof {
                lemma_count_true_bound(reach@);
            }
        }
    }

    /// A latency-bearing universe node that lies on a feedback cycle, if any
    /// does.
    fn latency_bearing_on_cycle(
        &self,
        ids: &Vec<String>,
        src_u: &Vec<usize>,
        dst_u: &Vec<usize>,
        bearing: &Vec<bool>,
    ) -> (found: Option<usize>)
        requires
            universe_facts(*self, ids@, src_u@, dst_u@),
            bearing@.len() == ids@.len(),
            forall|i: int| 0 <= i < ids@.len() ==> #[trigger] bearing@[i] == latency_bearing(*self, ids@[i]@),
        ensures
            found matches Some(v) ==> v < ids@.len() && exists|walk: Seq<Seq<char>>|
                #[trigger] closed_walk(*self, walk) && walk[0] == ids@[v as int]@ && latency_bearing(*self, walk[0]),
            found matches Some(v) ==> forall|w: int|
                0 <= w < v ==> !cycle_bearer(*self, #[trigger] texts_of(ids@)[w]),
            found is None ==> !has_latency_bearing_cycle(*self),
    {
        let mut v: usize = 0;
        while v < ids.len()
            invariant
                universe_facts(*self, ids@, src_u@, dst_u@),
                bearing@.len() == ids@.len(),
                forall|i: int| 0 <= i < ids@.len() ==> #[trigger] bearing@[i] == latency_bearing(*self, ids@[i]@),
                v <= ids@.len(),
                forall|w: int, walk: Seq<Seq<char>>|
                    0 <= w < v && #[trigger] closed_walk(*self, walk) && walk[0] == ids@[w]@ ==> !#[trigger] bearing@[w],
            decreases ids@.len() - v,
        {
            if bearing[v] {
                let reach = self.reach_avoiding(v, ids, src_u, dst_u);
                let mut c: usize = 0;
                while c < src_u.len()
                    invariant
                        c <= src_u@.len(),
                        v < ids@.len(),
                        universe_facts(*self, ids@, src_u@, dst_u@),
                        reach@.len() == ids@.len(),
                        reach@[v as int],
                        closed_except_into(src_u@, dst_u@, v as int, reach@),
                        reached_from(*self, ids@, v as int, reach@),
                        latency_bearing(*self, ids@[v as int]@),
                        bearing@.len() == ids@.len(),
                        forall|i: int| 0 <= i < ids@.len() ==> #[trigger] bearing@[i] == latency_bearing(*self, ids@[i]@),
                        forall|w: int, walk: Seq<Seq<char>>|
                            0 <= w < v && #[trigger] closed_walk(*self, walk) && walk[0] == ids@[w]@ ==> !#[trigger] bearing@[w],
                        forall|d: int| 0 <= d < c ==> !(dst_u@[d] == v && #[trigger] reach@[src_u@[d] as int]),
                    decreases src_u@.len() - c,
                {
                    if dst_u[c] == v && reach[src_u[c]] {
                        proof {
                            let from = src_u@[c as int] as int;
                            let path = choose|path: Seq<Seq<char>>| path_between(*self, path, ids@[v as int]@, ids@[from]@);
                            assert(linked(*self, path[path.len() - 1], path[0])) by {
                                assert(self.connections@[c as int].source.node.0@ == ids@[from]@);
                            }
                            assert(closed_walk(*self, path));
                            assert forall|w: int| 0 <= w < v implies !cycle_bearer(*self, #[trigger] texts_of(ids@)[w]) by {
                                if cycle_bearer(*self, texts_of(ids@)[w]) {
                                    let walk = choose|walk: Seq<Seq<char>>| #[trigger] closed_walk(*self, walk) && walk[0] == texts_of(ids@)[w];
                                    assert(!bearing@[w]);
                                }
                            }
                        }
                        return Some(v);
                    }
                    c = c + 1;
                }
                proof {
                    assert forall|walk: Seq<Seq<char>>|
                        #[trigger] closed_walk(*self, walk) && walk[0] == ids@[v as int]@ implies false by {
                        lemma_walk_returns(*self, ids@, src_u@, dst_u@, v as int, reach@, walk, 0, v as int);
                    }
                }
            }
            v = v + 1;
        }
        proof {
            assert forall|walk: Seq<Seq<char>>, i: int|
                #[trigger] closed_walk(*self, walk) && 0 <= i < walk.len() implies !latency_bearing(*self, #[trigger] walk[i]) by {
                let rotated = lemma_rotate_walk(*self, walk, i);
                assert(linked(*self, rotated[0], if rotated.len() > 1 { rotated[1] } else { rotated[0] }));
                let c = choose|c: int|
                    0 <= c < self.connections@.len() && #[trigger] self.connections@[c].source.node.0@ == rotated[0]
                        && self.connections@[c].destination.node.0@ == (if rotated.len() > 1 { rotated[1] } else { rotated[0] });
                let w = src_u@[c] as int;
                assert(ids@[w]@ == rotated[0]);
                assert(!bearing@[w]);
            }
        }
        None
    }
}

impl FlattenedGraph {
    /// The distinct universe indices one connection away from `node`, in
    /// connection order.
    fn successors_of(&self, node: usize, ids: &Vec<String>, src_u: &Vec<usize>, dst_u: &Vec<usize>) -> (successors: Vec<usize>)
        requires
            universe_facts(*self, ids@, src_u@, dst_u@),
            node < ids@.len(),
        ensures
            successors@ == successors_through(src_u@, dst_u@, node, src_u@.len() as nat),
            forall|k: int|
                0 <= k < successors@.len() ==> #[trigger] successors@[k] < ids@.len() && linked(
                    *self,
                    ids@[node as int]@,
                    ids@[successors@[k] as int]@,
                ),
    {
        let mut successors: Vec<usize> = Vec::new();
        let mut c: usize = 0;
        while c < src_u.len()
            invariant
                universe_facts(*self, ids@, src_u@, dst_u@),
                node < ids@.len(),
                c <= src_u@.len(),
                successors@ == successors_through(src_u@, dst_u@, node, c as nat),
                forall|k: int|
                    0 <= k < successors@.len() ==> #[trigger] successors@[k] < ids@.len() && linked(
                        *self,
                        ids@[node as int]@,
                        ids@[successors@[k] as int]@,
                    ),
            decreases src_u@.len() - c,
        {
            if src_u[c] == node {
                let destination = dst_u[c];
                let mut seen = false;
                let mut k: usize = 0;
                while k < successors.len()
                    invariant
                        k <= successors@.len(),
                        seen == successors@.take(k as int).contains(destination),
                    decreases successors@.len() - k,
                {
                    proof {
                        let before = successors@.take(k as int);
                        let upto = successors@.take(k + 1);
                        assert(upto =~= before.push(successors@[k as int]));
                        if before.contains(destination) {
                            let t = choose|t: int| 0 <= t < before.len() && before[t] == destination;
                            assert(upto[t] == destination);
                        }
                        if successors@[k as int] == destination {
                            assert(upto[k as int] == destination);
                        }
                        if upto.contains(destination) {
                            let t = choose|t: int| 0 <= t < upto.len() && upto[t] == destination;
                            if t < k {
                                assert(before[t] == destination);
                            }
                        }
                    }
                    if successors[k] == destination {
                        seen = true;
                    }
                    k = k + 1;
                }
                proof {
                    assert(successors@.take(successors@.len() as int) =~= successors@);
                }
                if !seen {
                    proof {
                        assert(self.connections@[c as int].source.node.0@ == ids@[node as int]@);
                    }
                    successors.push(destination);
                }
            }
            c = c + 1;
        }
        successors
    }

    /// Reports the cycle `cycle` (universe indices along a closed walk) when it
    /// holds a latency-bearing node and an equal cycle was not reported yet.
    fn report_latency_cycle(
        &self,
        cycle: &Vec<usize>,
        ids: &Vec<String>,
        bearing: &Vec<bool>,
        latency: &Vec<u32>,
        reported: &mut Vec<Vec<usize>>,
        diagnostics: &mut Diagnostics,
    )
        requires
            bearing@.len() == ids@.len(),
            latency@.len() == ids@.len(),
            forall|i: int| 0 <= i < ids@.len() ==> #[trigger] latency@[i] == latency_at(*self, ids@[i]@),
            forall|i: int| 0 <= i < ids@.len() ==> #[trigger] bearing@[i] == latency_bearing(*self, ids@[i]@),
            forall|i: int| 0 <= i < cycle@.len() ==> #[trigger] cycle@[i] < ids@.len(),
            closed_walk(*self, cycle@.map_values(|u: usize| ids@[u as int]@)),
            all_latency_cycles(*self, old(diagnostics)@),
        ensures
            all_latency_cycles(*self, final(diagnostics)@),
            !bears_latency(bearing@, cycle@) || reported_already(old(reported)@, cycle@) ==> final(reported)@ == old(
                reported,
            )@ && final(diagnostics)@ == old(diagnostics)@,
            bears_latency(bearing@, cycle@) && !reported_already(old(reported)@, cycle@) ==> {
                &&& final(reported)@.len() == old(reported)@.len() + 1
                &&& final(reported)@.drop_last() == old(reported)@
                &&& final(reported)@.last()@ == cycle@
                &&& final(diagnostics)@.len() == old(diagnostics)@.len() + 1
                &&& final(diagnostics)@.drop_last() == old(diagnostics)@
                &&& exists|k: int|
                    0 <= k < cycle@.len() && bearing@[cycle@[k] as int] && (forall|t: int|
                        0 <= t < k ==> !bearing@[#[trigger] cycle@[t] as int]) && (final(diagnostics)@.last().module_id
                        matches Some(offender) && offender@ == ids@[cycle@[k] as int]@)
                &&& reports_cycle(*self, texts_of(ids@), bearing@, final(diagnostics)@.last(), cycle@)
            },
    {
        let mut k: usize = 0;
        while k < cycle.len() && !bearing[cycle[k]]
            invariant
                k <= cycle@.len(),
                forall|i: int| 0 <= i < cycle@.len() ==> #[trigger] cycle@[i] < ids@.len(),
                bearing@.len() == ids@.len(),
                forall|t: int| 0 <= t < k ==> !bearing@[#[trigger] cycle@[t] as int],
            decreases cycle@.len() - k,
        {
            k = k + 1;
        }
        if k == cycle.len() {
            return;
        }
        let offender = cycle[k];
        proof {
            assert(bears_latency(bearing@, cycle@));
        }
        let mut r: usize = 0;
        while r < reported.len()
            invariant
                r <= reported@.len(),
                all_latency_cycles(*self, diagnostics@),
                forall|q: int| 0 <= q < r ==> !same_cycle(#[trigger] reported@[q]@, cycle@),
            decreases reported@.len() - r,
        {
            if same_members(&reported[r], cycle) {
                proof {
                    assert(same_cycle(reported@[r as int]@, cycle@));
                }
                return;
            }
            r = r + 1;
        }
        let ghost reported_before = reported@;
        let copy = cycle.clone();
        proof {
            assert(copy@ =~= cycle@);
        }
        reported.push(copy);
        let mut names: Vec<String> = Vec::new();
        let mut i: usize = 0;
        while i < cycle.len()
            invariant
                i <= cycle@.len(),
                forall|j: int| 0 <= j < cycle@.len() ==> #[trigger] cycle@[j] < ids@.len(),
                texts_of(names@) == cycle@.map_values(|u: usize| ids@[u as int]@).take(i as int),
            decreases cycle@.len() - i,
        {
            let ghost before = names@;
            names.push(ids[cycle[i]].clone());
            proof {
                assert(texts_of(names@) =~= texts_of(before).push(ids@[cycle@[i as int] as int]@));
                assert(texts_of(names@) =~= cycle@.map_values(|u: usize| ids@[u as int]@).take(i + 1));
            }
            i = i + 1;
        }
        proof {
            assert(cycle@.map_values(|u: usize| ids@[u as int]@).take(cycle@.len() as int) =~= cycle@.map_values(
                |u: usize| ids@[u as int]@,
            ));
        }
        let path = join_texts(&names, " -> ");
        let mut message = concat3("feedback cycle ", path.as_str(), " contains latency-bearing node '");
        message.append(ids[offender].as_str());
        message.append("' (");
        message.append(decimal_string(latency[offender] as u64).as_str());
        message.append(" samples); latency inside a feedback cycle cannot be compensated");
        let diagnostic = Diagnostic::new(ErrorCode::KernelLatencyInFeedbackCycle, Severity::Error, message)
            .with_module_id(ids[offender].clone())
            .with_suggested_fix(
            String::from_str(
                "move the latency-bearing node out of the feedback cycle, or keep only the 'feedback_delay' node's delay inside it",
            ),
        );
        proof {
            let walk = cycle@.map_values(|u: usize| ids@[u as int]@);
            assert(walk[k as int] == ids@[offender as int]@);
            assert(closed_walk(*self, walk) && 0 <= k < walk.len() && walk[k as int] == ids@[offender as int]@
                && latency_bearing(*self, walk[k as int]));
            assert(is_latency_cycle_diagnostic(*self, diagnostic));
            assert(cycle@.map_values(|u: usize| texts_of(ids@)[u as int]) =~= walk);
            assert(texts_of(ids@)[cycle@[k as int] as int] == ids@[offender as int]@);
            assert(reports_cycle(*self, texts_of(ids@), bearing@, diagnostic, cycle@));
        }
        let ghost before = diagnostics@;
        diagnostics.push(diagnostic);
        proof {
            assert forall|j: int| 0 <= j < diagnostics@.len() implies is_latency_cycle_diagnostic(
                *self,
                #[trigger] diagnostics@[j],
            ) by {
                if j < before.len() {
                    assert(diagnostics@[j] == before[j]);
                }
            }
            assert(diagnostics@.drop_last() =~= before);
            assert(reported@.drop_last() =~= reported_before);
            assert(diagnostics@.last() == diagnostic);
        }
    }

    /// Depth-first search from `node` for feedback cycles through
    /// latency-bearing nodes, reporting each one found.
    #[verifier::spinoff_prover]
    #[verifier::rlimit(100)]
    fn walk_for_latency_cycle(
        &self,
        node: usize,
        ids: &Vec<String>,
        src_u: &Vec<usize>,
        dst_u: &Vec<usize>,
        bearing: &Vec<bool>,
        latency: &Vec<u32>,
        visiting: &mut Vec<bool>,
        visited: &mut Vec<bool>,
        stack: &mut Vec<usize>,
        reported: &mut Vec<Vec<usize>>,
        diagnostics: &mut Diagnostics,
        Ghost(fuel): Ghost<nat>,
    )
        requires
            universe_facts(*self, ids@, src_u@, dst_u@),
            bearing@.len() == ids@.len(),
            latency@.len() == ids@.len(),
            forall|i: int| 0 <= i < ids@.len() ==> #[trigger] latency@[i] == latency_at(*self, ids@[i]@),
            forall|i: int| 0 <= i < ids@.len() ==> #[trigger] bearing@[i] == latency_bearing(*self, ids@[i]@),
            node < ids@.len(),
            old(visiting)@.len() == ids@.len(),
            old(visited)@.len() == ids@.len(),
            !old(visiting)@[node as int],
            stack_facts(*self, ids@, old(visiting)@, old(stack)@),
            old(stack)@.len() > 0 ==> linked(*self, ids@[old(stack)@.last() as int]@, ids@[node as int]@),
            all_latency_cycles(*self, old(diagnostics)@),
            fuel + count_true(marks(old(visiting)@, old(visited)@)) >= ids@.len(),
            old(reported)@.len() == old(diagnostics)@.len(),
            reports_cycles(*self, texts_of(ids@), bearing@, old(diagnostics)@, reported_lists(old(reported)@)),
            old(diagnostics)@.len() > 0 || plain_cycle(*self) || settled_marks(
                self.connections@,
                ids@,
                src_u@,
                dst_u@,
                old(visited)@,
            ),
        ensures
            final(visiting)@ == old(visiting)@,
            final(stack)@ == old(stack)@,
            final(visited)@.len() == ids@.len(),
            forall|w: int| 0 <= w < ids@.len() && old(visited)@[w] ==> #[trigger] final(visited)@[w],
            all_latency_cycles(*self, final(diagnostics)@),
            final(visited)@[node as int],
            final(reported)@.len() == final(diagnostics)@.len(),
            reports_cycles(*self, texts_of(ids@), bearing@, final(diagnostics)@, reported_lists(final(reported)@)),
            search_state(final(visiting)@, final(visited)@, final(stack)@, final(reported)@) == search_from(
                src_u@,
                dst_u@,
                bearing@,
                node,
                search_state(old(visiting)@, old(visited)@, old(stack)@, old(reported)@),
                fuel,
            ),
            final(diagnostics)@.len() >= old(diagnostics)@.len(),
            final(diagnostics)@.len() > 0 || plain_cycle(*self) || settled_marks(
                self.connections@,
                ids@,
                src_u@,
                dst_u@,
                final(visited)@,
            ),
        decreases fuel,
    {
        if visited[node] {
            return;
        }
        let ghost entry_count = diagnostics@.len();
        let ghost entry_state = search_state(visiting@, visited@, stack@, reported@);
        let ghost entry_marks = marks(visiting@, visited@);
        let ghost entry_visiting = visiting@;
        let ghost entry_visited = visited@;
        let ghost entry_stack = stack@;
        visiting.set(node, true);
        stack.push(node);
        proof {
            assert(marks(visiting@, visited@)[node as int]);
            lemma_count_true_grows(entry_marks, marks(visiting@, visited@));
            lemma_count_true_bound(marks(visiting@, visited@));
            assert forall|w: int| 0 <= w < visiting@.len() && #[trigger] visiting@[w] implies exists|i: int|
                0 <= i < stack@.len() && stack@[i] == w by {
                if w == node {
                    assert(stack@[stack@.len() - 1] == w);
                } else {
                    let i = choose|i: int| 0 <= i < entry_stack.len() && entry_stack[i] == w;
                    assert(stack@[i] == w);
                }
            }
            assert forall|i: int| 0 <= i < stack@.len() - 1 implies linked(
                *self,
                ids@[#[trigger] stack@[i] as int]@,
                ids@[stack@[i + 1] as int]@,
            ) by {
                assert(stack@[i] == entry_stack[i]);
                if i < entry_stack.len() - 1 {
                    assert(stack@[i + 1] == entry_stack[i + 1]);
                }
            }
        }
        let successors = self.successors_of(node, ids, src_u, dst_u);
        let ghost entered = search_state(visiting@, visited@, stack@, reported@);
        let ghost target = search_successors(src_u@, dst_u@, bearing@, successors@, 0, entered, fuel);
        let mut i: usize = 0;
        while i < successors.len()
            invariant
                universe_facts(*self, ids@, src_u@, dst_u@),
                bearing@.len() == ids@.len(),
                latency@.len() == ids@.len(),
                forall|i: int| 0 <= i < ids@.len() ==> #[trigger] latency@[i] == latency_at(*self, ids@[i]@),
            forall|i: int| 0 <= i < ids@.len() ==> #[trigger] latency@[i] == latency_at(*self, ids@[i]@),
                forall|j: int| 0 <= j < ids@.len() ==> #[trigger] bearing@[j] == latency_bearing(*self, ids@[j]@),
                node < ids@.len(),
                i <= successors@.len(),
                forall|k: int|
                    0 <= k < successors@.len() ==> #[trigger] successors@[k] < ids@.len() && linked(
                        *self,
                        ids@[node as int]@,
                        ids@[successors@[k] as int]@,
                    ),
                entry_visiting.len() == ids@.len(),
                visiting@ == entry_visiting.update(node as int, true),
                stack@ == entry_stack.push(node),
                visited@.len() == ids@.len(),
                forall|w: int| 0 <= w < ids@.len() && entry_visited[w] ==> #[trigger] visited@[w],
                stack_facts(*self, ids@, visiting@, stack@),
                all_latency_cycles(*self, diagnostics@),
                fuel + count_true(entry_marks) >= ids@.len(),
                count_true(marks(visiting@, visited@)) > count_true(entry_marks),
                successors@ == successors_through(src_u@, dst_u@, node, src_u@.len() as nat),
                reported@.len() == diagnostics@.len(),
                diagnostics@.len() >= entry_count,
                reports_cycles(*self, texts_of(ids@), bearing@, diagnostics@, reported_lists(reported@)),
                search_successors(src_u@, dst_u@, bearing@, successors@, i as int, search_state(visiting@, visited@, stack@, reported@), fuel) == target,
                entered == (CycleSearch {
                    visiting: entry_state.visiting.update(node as int, true),
                    stack: entry_state.stack.push(node),
                    ..entry_state
                }),
                entry_state.visiting == entry_visiting,
                entry_state.stack == entry_stack,
                target == search_successors(src_u@, dst_u@, bearing@, successors@, 0, entered, fuel),
                diagnostics@.len() > 0 || plain_cycle(*self) || (settled_marks(
                    self.connections@,
                    ids@,
                    src_u@,
                    dst_u@,
                    visited@,
                ) && forall|k: int| 0 <= k < i ==> #[trigger] visited@[successors@[k] as int]),
            decreases successors@.len() - i,
        {
            let next = successors[i];
            let ghost current = search_state(visiting@, visited@, stack@, reported@);
            if visiting[next] {
                let mut j: usize = 0;
                let top = stack.len();
                while j < top && stack[j] != next
                    invariant
                        top == stack@.len(),
                        j <= stack@.len(),
                        exists|t: int| j <= t < stack@.len() && stack@[t] == next,
                        forall|t: int| 0 <= t < j ==> stack@[t] != next,
                    decreases stack@.len() - j,
                {
                    proof {
                        let t = choose|t: int| j <= t < stack@.len() && stack@[t] == next;
                        assert(t > j);
                    }
                    j = j + 1;
                }
                let mut cycle: Vec<usize> = Vec::new();
                let mut k: usize = j;
                while k < stack.len()
                    invariant
                        j <= k <= stack@.len(),
                        cycle@ == stack@.subrange(j as int, k as int),
                    decreases stack@.len() - k,
                {
                    cycle.push(stack[k]);
                    k = k + 1;
                }
                proof {
                    let walk = cycle@.map_values(|u: usize| ids@[u as int]@);
                    assert forall|t: int| 0 <= t < walk.len() - 1 implies linked(
                        *self,
                        #[trigger] walk[t],
                        walk[t + 1],
                    ) by {
                        assert(cycle@[t] == stack@[j + t]);
                        assert(cycle@[t + 1] == stack@[j + t + 1]);
                    }
                    assert(cycle@[cycle@.len() - 1] == node);
                    assert(cycle@[0] == next);
                    assert(closed_walk(*self, walk));
                    if !bears_latency(bearing@, cycle@) {
                        assert forall|t: int| 0 <= t < walk.len() implies !latency_bearing(*self, #[trigger] walk[t]) by {
                            assert(!bearing@[cycle@[t] as int]);
                        }
                        assert(plain_cycle(*self));
                    }
                }
                let ghost reported_before = reported@;
                let ghost diagnostics_before = diagnostics@;
                proof {
                    lemma_stack_position(stack@, next, j as int);
                    lemma_reported_lists(reported_before, cycle@);
                }
                self.report_latency_cycle(&cycle, ids, bearing, latency, reported, diagnostics);
                proof {
                    if bears_latency(bearing@, cycle@) && !reported_already(reported_before, cycle@) {
                        assert(reported_lists(reported@) =~= reported_lists(reported_before).push(cycle@));
                        assert forall|q: int| 0 <= q < reported_lists(reported@).len() implies reports_cycle(
                            *self,
                            texts_of(ids@),
                            bearing@,
                            #[trigger] diagnostics@[q],
                            reported_lists(reported@)[q],
                        ) by {
                            if q < reported_before.len() {
                                assert(diagnostics@[q] == diagnostics_before[q]);
                            }
                        }
                    }
                    assert(search_state(visiting@, visited@, stack@, reported@) == after_back_edge(bearing@, current, next));
                    if bears_latency(bearing@, cycle@) && reported_already(reported_before, cycle@) {
                        let r = choose|r: int| 0 <= r < reported_before.len() && same_cycle(#[trigger] reported_before[r]@, cycle@);
                        assert(reported@.len() > 0);
                    }
                }
            } else if !visited[next] {
                let ghost before_marks = marks(visiting@, visited@);
                let ghost before_visited = visited@;
                proof {
                    lemma_count_true_bound(before_marks);
                    let later = before_marks.update(next as int, true);
                    lemma_count_true_grows(before_marks, later);
                    assert(later[next as int]);
                    lemma_count_true_bound(later);
                }
                proof {
                    assert(fuel > 0);
                }
                self.walk_for_latency_cycle(
                    next,
                    ids,
                    src_u,
                    dst_u,
                    bearing,
                    latency,
                    visiting,
                    visited,
                    stack,
                    reported,
                    diagnostics,
                    Ghost((fuel - 1) as nat),
                );
                proof {
                    lemma_count_true_grows(before_marks, marks(visiting@, visited@));
                    assert forall|w: int| 0 <= w < ids@.len() && entry_visited[w] implies #[trigger] visited@[w] by {
                        assert(before_visited[w]);
                    }
                    if !(diagnostics@.len() > 0 || plain_cycle(*self)) {
                        assert forall|k: int| 0 <= k < i + 1 implies #[trigger] visited@[successors@[k] as int] by {
                            if k < i {
                                assert(before_visited[successors@[k] as int]);
                            }
                        }
                    }
                }
            }
            proof {
                assert(search_successors(src_u@, dst_u@, bearing@, successors@, i as int, current, fuel)
                    == search_successors(src_u@, dst_u@, bearing@, successors@, i + 1, search_state(visiting@, visited@, stack@, reported@), fuel));
            }
            i = i + 1;
        }
        let ghost before_visited = visited@;
        proof {
            if !(diagnostics@.len() > 0 || plain_cycle(*self)) {
                lemma_universe_bridge(*self, ids@, src_u@, dst_u@);
                assert forall|c: int| 0 <= c < src_u@.len() && src_u@[c] == node implies #[trigger] before_visited[dst_u@[c] as int] by {
                    lemma_successors_complete(src_u@, dst_u@, node, src_u@.len() as nat, c);
                    let k = choose|k: int| 0 <= k < successors@.len() && successors@[k] == dst_u@[c];
                    assert(visited@[successors@[k] as int]);
                }
                lemma_settled_extend(self.connections@, ids@, src_u@, dst_u@, before_visited, node as int);
            }
        }
        stack.pop();
        visiting.set(node, false);
        visited.set(node, true);
        proof {
            assert(visiting@ =~= entry_visiting);
            assert(stack@ =~= entry_stack);
            assert forall|w: int| 0 <= w < ids@.len() && entry_visited[w] implies #[trigger] visited@[w] by {
                if w != node {
                    assert(before_visited[w]);
                }
            }
        }
    }

    /// Rejects feedback cycles carrying uncompensatable latency, searching
    /// from every node in node order.
    fn reject_latency_in_feedback_cycles(
        &self,
        ids: &Vec<String>,
        node_u: &Vec<usize>,
        src_u: &Vec<usize>,
        dst_u: &Vec<usize>,
        bearing: &Vec<bool>,
        latency: &Vec<u32>,
    ) -> (diagnostics: Diagnostics)
        requires
            universe_facts(*self, ids@, src_u@, dst_u@),
            bearing@.len() == ids@.len(),
            latency@.len() == ids@.len(),
            forall|i: int| 0 <= i < ids@.len() ==> #[trigger] latency@[i] == latency_at(*self, ids@[i]@),
            forall|i: int| 0 <= i < ids@.len() ==> #[trigger] bearing@[i] == latency_bearing(*self, ids@[i]@),
            forall|j: int| 0 <= j < node_u@.len() ==> #[trigger] node_u@[j] < ids@.len(),
            node_u@.len() == self.nodes@.len(),
            forall|j: int| 0 <= j < node_u@.len() ==> ids@[#[trigger] node_u@[j] as int]@ == self.nodes@[j].id.0@,
        ensures
            all_latency_cycles(*self, diagnostics@),
            reports_cycles(
                *self,
                texts_of(ids@),
                bearing@,
                diagnostics@,
                search_starts(src_u@, dst_u@, bearing@, node_u@, node_u@.len() as nat).reported,
            ),
            diagnostics@.len() == 0 ==> plain_cycle(*self) || forall|walk: Seq<Seq<char>>, i: int|
                #[trigger] closed_walk(*self, walk) && 0 <= i < walk.len() ==> !declared(*self, #[trigger] walk[i]),
    {
        let mut visiting: Vec<bool> = Vec::new();
        let mut visited: Vec<bool> = Vec::new();
        let mut i: usize = 0;
        while i < ids.len()
            invariant
                i <= ids@.len(),
                visiting@.len() == i,
                visited@.len() == i,
                forall|w: int| 0 <= w < i ==> !#[trigger] visiting@[w],
                forall|w: int| 0 <= w < i ==> !#[trigger] visited@[w],
            decreases ids@.len() - i,
        {
            visiting.push(false);
            visited.push(false);
            i = i + 1;
        }
        let mut stack: Vec<usize> = Vec::new();
        let mut reported: Vec<Vec<usize>> = Vec::new();
        let mut diagnostics = Diagnostics::new();
        proof {
            lemma_universe_bridge(*self, ids@, src_u@, dst_u@);
            lemma_settled_empty(self.connections@, ids@, src_u@, dst_u@, visited@);
            assert(visiting@ =~= Seq::new(bearing@.len(), |i: int| false));
            assert(visited@ =~= Seq::new(bearing@.len(), |i: int| false));
            assert(reported_lists(reported@) =~= Seq::<Seq<usize>>::empty());
            assert(search_state(visiting@, visited@, stack@, reported@) == search_starts(src_u@, dst_u@, bearing@, node_u@, 0));
        }
        let mut j: usize = 0;
        while j < node_u.len()
            invariant
                universe_facts(*self, ids@, src_u@, dst_u@),
                bearing@.len() == ids@.len(),
                latency@.len() == ids@.len(),
                forall|i: int| 0 <= i < ids@.len() ==> #[trigger] latency@[i] == latency_at(*self, ids@[i]@),
            forall|i: int| 0 <= i < ids@.len() ==> #[trigger] latency@[i] == latency_at(*self, ids@[i]@),
                forall|i: int| 0 <= i < ids@.len() ==> #[trigger] bearing@[i] == latency_bearing(*self, ids@[i]@),
                forall|k: int| 0 <= k < node_u@.len() ==> #[trigger] node_u@[k] < ids@.len(),
                j <= node_u@.len(),
                visiting@.len() == ids@.len(),
                visited@.len() == ids@.len(),
                forall|w: int| 0 <= w < ids@.len() ==> !#[trigger] visiting@[w],
                stack@.len() == 0,
                all_latency_cycles(*self, diagnostics@),
                node_u@.len() == self.nodes@.len(),
                forall|k: int| 0 <= k < node_u@.len() ==> ids@[#[trigger] node_u@[k] as int]@ == self.nodes@[k].id.0@,
                reported@.len() == diagnostics@.len(),
                reports_cycles(*self, texts_of(ids@), bearing@, diagnostics@, reported_lists(reported@)),
                search_state(visiting@, visited@, stack@, reported@) == search_starts(
                    src_u@,
                    dst_u@,
                    bearing@,
                    node_u@,
                    j as nat,
                ),
                diagnostics@.len() > 0 || plain_cycle(*self) || (settled_marks(
                    self.connections@,
                    ids@,
                    src_u@,
                    dst_u@,
                    visited@,
                ) && forall|k: int| 0 <= k < j ==> #[trigger] visited@[node_u@[k] as int]),
            decreases node_u@.len() - j,
        {
            proof {
                lemma_count_true_bound(marks(visiting@, visited@));
            }
            let ghost before_visited = visited@;
            self.walk_for_latency_cycle(
                node_u[j],
                ids,
                src_u,
                dst_u,
                bearing,
                latency,
                &mut visiting,
                &mut visited,
                &mut stack,
                &mut reported,
                &mut diagnostics,
                Ghost(ids@.len() as nat),
            );
            proof {
                if !(diagnostics@.len() > 0 || plain_cycle(*self)) {
                    assert forall|k: int| 0 <= k < j + 1 implies #[trigger] visited@[node_u@[k] as int] by {
                        if k < j {
                            assert(before_visited[node_u@[k] as int]);
                        }
                    }
                }
            }
            j = j + 1;
        }
        proof {
            if !(diagnostics@.len() > 0 || plain_cycle(*self)) {
                assert forall|walk: Seq<Seq<char>>, i: int|
                    #[trigger] closed_walk(*self, walk) && 0 <= i < walk.len() implies !declared(
                        *self,
                        #[trigger] walk[i],
                    ) by {
                    lemma_walk_bridge(*self, walk);
                    lemma_settled_avoids_cycles(self.connections@, ids@, src_u@, dst_u@, visited@, walk, i);
                    if declared(*self, walk[i]) {
                        lemma_atomic_position(self.nodes@, walk[i]);
                        let k = atomic_position(self.nodes@, walk[i]);
                        assert(ids@[node_u@[k] as int]@ == walk[i]);
                        assert(visited@[node_u@[k] as int]);
                        assert(marked_id(ids@, visited@, walk[i]));
                    }
                }
            }
        }
        diagnostics
    }
}

/// `true` when `a` holds the same number of entries as `b` and every entry of
/// `b`: for entries without repetition, the same set.
fn same_members(a: &Vec<usize>, b: &Vec<usize>) -> (same: bool)
    ensures
        same == (a@.len() == b@.len() && forall|i: int| 0 <= i < b@.len() ==> a@.contains(#[trigger] b@[i])),
{
    if a.len() != b.len() {
        return false;
    }
    let mut i: usize = 0;
    while i < b.len()
        invariant
            i <= b@.len(),
            a@.len() == b@.len(),
            forall|k: int| 0 <= k < i ==> a@.contains(#[trigger] b@[k]),
        decreases b@.len() - i,
    {
        let mut found = false;
        let mut j: usize = 0;
        while j < a.len()
            invariant
                i < b@.len(),
                a@.len() == b@.len(),
                j <= a@.len(),
                found ==> a@.contains(b@[i as int]),
                !found ==> forall|t: int| 0 <= t < j ==> a@[t] != b@[i as int],
            decreases a@.len() - j,
        {
            if a[j] == b[i] {
                found = true;
            }
            j = j + 1;
        }
        if !found {
            proof {
                assert(!a@.contains(b@[i as int]));
            }
            return false;
        }
        i = i + 1;
    }
    true
}

proof fn lemma_port_channels(ports: Seq<ResolvedPort>, name: Seq<char>, i: int)
    requires
        0 <= i <= ports.len(),
        forall|j: int| 0 <= j < i ==> ports[j].name@ != name,
        i == ports.len() || ports[i].name@ == name,
    ensures
        port_channels(ports, name) == if i < ports.len() {
            ports[i].channels as nat
        } else {
            0
        },
    decreases ports.len(),
{
    if ports.len() > 0 && ports[0].name@ != name {
        let t = ports.drop_first();
        assert forall|j: int| 0 <= j < i - 1 implies t[j].name@ != name by {
            assert(t[j] == ports[j + 1]);
        }
        if i < ports.len() {
            assert(t[i - 1] == ports[i]);
        }
        lemma_port_channels(t, name, i - 1);
    }
}

impl FlattenedGraph {
    /// The channel count of `connection`'s source port, or zero when the port
    /// does not resolve.
    fn edge_channels(&self, connection: &Connection) -> (channels: u32)
        ensures
            channels as nat == edge_channels(*self, *connection),
    {
        let p = self.position(connection.source.node.as_str());
        if p < self.nodes.len() {
            let ports = &self.nodes[p].ports;
            let mut i: usize = 0;
            while i < ports.len()
                invariant
                    p < self.nodes@.len(),
                    p == atomic_position(self.nodes@, connection.source.node.0@),
                    ports@ == self.nodes@[p as int].ports@,
                    i <= ports@.len(),
                    forall|j: int| 0 <= j < i ==> ports@[j].name@ != connection.source.port@,
                decreases ports@.len() - i,
            {
                if str_eq(ports[i].name.as_str(), connection.source.port.as_str()) {
                    proof {
                        lemma_port_channels(ports@, connection.source.port@, i as int);
                        assert(ports@ == declared_node(*self, connection.source.node.0@).ports@);
                    }
                    return ports[i].channels;
                }
                i = i + 1;
            }
            proof {
                lemma_port_channels(ports@, connection.source.port@, i as int);
                assert(ports@ == declared_node(*self, connection.source.node.0@).ports@);
            }
            0
        } else {
            0
        }
    }

    /// Balances latency across this graph: inserts compensation delays where
    /// paths of unequal latency converge and computes the total root latency.
    ///
    /// A graph whose forward connections (those not into a `feedback_delay`
    /// node) do not order, through a cycle or a connection from an undeclared
    /// node, is rejected with one diagnostic listing the nodes left unordered.
    /// Otherwise feedback cycles through latency-bearing nodes are searched
    /// for and each one found is reported; with none reported the plan is
    /// exact.
    pub fn balance_latency(&self) -> (result: Result<LatencyPlan, Diagnostics>)
        requires
            forward_acyclic(*self) && !has_latency_bearing_cycle(*self) ==> latencies_fit(*self),
        ensures
            !forward_acyclic(*self) ==> (result matches Err(d) && d@.len() == 1
                && is_forward_cycle_diagnostic(*self, d@[0])),
            forward_acyclic(*self) ==> match result {
                Ok(plan) => is_balanced_plan(*self, plan),
                Err(d) => d@.len() > 0 && all_latency_cycles(*self, d@),
            },
            forward_acyclic(*self) && !has_latency_bearing_cycle(*self) ==> result is Ok,
            forward_acyclic(*self) && has_latency_bearing_cycle(*self) ==> result is Err,
            forward_acyclic(*self) && searched_latency_cycles(*self).len() > 0 ==> (result matches Err(d)
                && reports_cycles(*self, universe_ids(*self), universe_bearing(*self), d@, searched_latency_cycles(*self))),
            forward_acyclic(*self) && searched_latency_cycles(*self).len() == 0 && has_latency_bearing_cycle(*self)
                ==> (result matches Err(d) && d@.len() == 1 && reports_bearer(
                *self,
                d@[0],
                universe_ids(*self)[first_cycle_bearer(*self, universe_ids(*self))],
            )),
    {
        let n = self.nodes.len();
        let cn = self.connections.len();
        let (src, dst, cut) = self.endpoint_positions();
        let (order, placed) = self.forward_order(&src, &dst, &cut);
        let ghost g = *self;
        proof {
            assert forall|v: int| 0 <= v < n && first_of_id(g, v) implies (#[trigger] placed@[v] <==> grounded(
                g,
                g.nodes@[v].id.0@,
                n as nat,
            )) by {
                if placed@[v] {
                    let p = choose|p: int| 0 <= p < order@.len() && order@[p] == v;
                    lemma_order_grounds(g, src@, dst@, cut@, order@, p);
                    lemma_grounded_deeper(g, g.nodes@[v].id.0@, (p + 1) as nat, n as nat);
                } else {
                    lemma_unplaced_ungrounded(g, src@, dst@, cut@, placed@, v, n as nat);
                }
            }
        }
        let mut stuck: Vec<String> = Vec::new();
        let mut j: usize = 0;
        while j < n
            invariant
                n == self.nodes@.len(),
                g == *self,
                placed@.len() == n,
                forall|v: int| 0 <= v < n && first_of_id(g, v) ==> (#[trigger] placed@[v] <==> grounded(
                    g,
                    g.nodes@[v].id.0@,
                    n as nat,
                )),
                j <= n,
                texts_of(stuck@) == stuck_ids(g, j as nat),
                stuck@.len() == 0 <==> forall|k: int|
                    0 <= k < j ==> grounded(g, #[trigger] g.nodes@[k].id.0@, n as nat),
            decreases n - j,
        {
            let v = self.position(self.nodes[j].id.as_str());
            proof {
                lemma_atomic_position(self.nodes@, self.nodes@[j as int].id.0@);
                lemma_atomic_position(self.nodes@, self.nodes@[v as int].id.0@);
            }
            let ghost before = stuck@;
            if !placed[v] {
                stuck.push(self.nodes[j].id.0.clone());
                proof {
                    assert(texts_of(stuck@) =~= texts_of(before).push(self.nodes@[j as int].id.0@));
                }
            }
            proof {
                if stuck@.len() == 0 {
                    assert forall|k: int| 0 <= k < j + 1 implies grounded(g, #[trigger] g.nodes@[k].id.0@, n as nat) by {
                        if k == j {
                            assert(g.nodes@[v as int].id.0@ == g.nodes@[k].id.0@);
                        }
                    }
                }
            }
            j = j + 1;
        }
        if stuck.len() > 0 {
            let listing = join_texts(&stuck, ", ");
            let message = concat3(
                "latency balancing found a routing cycle with no 'feedback_delay' node among nodes: ",
                listing.as_str(),
                "; every feedback cycle must pass through a 'feedback_delay' primitive",
            );
            let diagnostic = Diagnostic::new(ErrorCode::KernelCycleWithoutFeedbackDelay, Severity::Error, message)
                .with_suggested_fix(String::from_str("insert a 'feedback_delay' node into the cycle"));
            return Err(Diagnostics::single(diagnostic));
        }
        proof {
            assert(forward_acyclic(g));
        }
        let (ids, node_u, src_u, dst_u) = self.id_universe();
        let (bearing, latency) = self.bearing_flags(&ids);
        let diagnostics = self.reject_latency_in_feedback_cycles(&ids, &node_u, &src_u, &dst_u, &bearing, &latency);
        proof {
            let uids = universe_ids(g);
            assert(texts_of(ids@) == uids);
            assert forall|a: int, b: int| 0 <= a < b < uids.len() implies uids[a] != uids[b] by {
                assert(uids[a] == ids@[a]@);
                assert(uids[b] == ids@[b]@);
            }
            assert forall|c: int| 0 <= c < src_u@.len() implies #[trigger] src_u@[c] == universe_sources(g)[c] by {
                lemma_id_position(uids, src_u@[c] as int);
                assert(uids[src_u@[c] as int] == ids@[src_u@[c] as int]@);
            }
            assert forall|c: int| 0 <= c < dst_u@.len() implies #[trigger] dst_u@[c] == universe_destinations(g)[c] by {
                lemma_id_position(uids, dst_u@[c] as int);
                assert(uids[dst_u@[c] as int] == ids@[dst_u@[c] as int]@);
            }
            assert forall|k: int| 0 <= k < node_u@.len() implies #[trigger] node_u@[k] == universe_nodes(g)[k] by {
                lemma_id_position(uids, node_u@[k] as int);
                assert(uids[node_u@[k] as int] == ids@[node_u@[k] as int]@);
            }
            assert(src_u@ =~= universe_sources(g));
            assert(dst_u@ =~= universe_destinations(g));
            assert(node_u@ =~= universe_nodes(g));
            assert(bearing@ =~= universe_bearing(g));
            assert(search_starts(src_u@, dst_u@, bearing@, node_u@, node_u@.len() as nat).reported
                == searched_latency_cycles(g));
        }
        if diagnostics.len() > 0 {
            return Err(diagnostics);
        }
        if let Some(v) = self.latency_bearing_on_cycle(&ids, &src_u, &dst_u, &bearing) {
            let cycle_text = concat3("through '", ids[v].as_str(), "'");
            let mut message = concat3("feedback cycle ", cycle_text.as_str(), " contains latency-bearing node '");
            message.append(ids[v].as_str());
            message.append("' (");
            message.append(decimal_string(latency[v] as u64).as_str());
            message.append(" samples); latency inside a feedback cycle cannot be compensated");
            let diagnostic = Diagnostic::new(ErrorCode::KernelLatencyInFeedbackCycle, Severity::Error, message)
                .with_module_id(ids[v].clone())
                .with_suggested_fix(
                String::from_str(
                    "move the latency-bearing node out of the feedback cycle, or keep only the 'feedback_delay' node's delay inside it",
                ),
            );
            proof {
                let walk = choose|walk: Seq<Seq<char>>|
                    #[trigger] closed_walk(g, walk) && walk[0] == ids@[v as int]@ && latency_bearing(g, walk[0]);
                assert(closed_walk(g, walk) && 0 <= 0 < walk.len() && walk[0] == ids@[v as int]@);
                assert(diagnostic.message@ =~= latency_cycle_message(
                    "through '"@ + ids@[v as int]@ + "'"@,
                    ids@[v as int]@,
                    latency_at(g, ids@[v as int]@),
                ));
                assert(is_latency_cycle_diagnostic(g, diagnostic));
                assert(texts_of(ids@)[v as int] == ids@[v as int]@);
                lemma_first_cycle_bearer(g, texts_of(ids@), v as int);
                assert(reports_bearer(g, diagnostic, universe_ids(g)[first_cycle_bearer(g, universe_ids(g))]));
            }
            let reported = Diagnostics::single(diagnostic);
            proof {
                assert forall|i: int| 0 <= i < reported@.len() implies is_latency_cycle_diagnostic(g, #[trigger] reported@[i]) by {
                    assert(reported@[i] == diagnostic);
                }
            }
            return Err(reported);
        }
        let (arrive, leave) = self.settle_latencies(&src, &dst, &cut, &order);
        proof {
            assert forall|v: int| 0 <= v < n && first_of_id(g, v) implies #[trigger] arrive@[v] == arrival(
                g,
                g.nodes@[v].id.0@,
            ) && leave@[v] == departure(g, g.nodes@[v].id.0@) by {
                assert(grounded(g, g.nodes@[v].id.0@, n as nat));
                assert(placed@[v]);
                assert(exists|p: int| 0 <= p < order@.len() && order@[p] == v);
                let p = choose|p: int| 0 <= p < order@.len() && order@[p] == v;
                assert(arrive@[order@[p] as int] == arrival(g, g.nodes@[order@[p] as int].id.0@));
                assert(leave@[order@[p] as int] == departure(g, g.nodes@[order@[p] as int].id.0@));
            }
            assert forall|v: int| 0 <= v < n && first_of_id(g, v) implies #[trigger] leave@[v] == departure(
                g,
                g.nodes@[v].id.0@,
            ) by {
                assert(arrive@[v] == arrival(g, g.nodes@[v].id.0@));
            }
        }
        let mut compensations: Vec<Compensation> = Vec::new();
        let mut c: usize = 0;
        while c < cn
            invariant
                n == self.nodes@.len(),
                cn == self.connections@.len(),
                g == *self,
                positions_match(g, src@, dst@, cut@),
                arrive@.len() == n,
                leave@.len() == n,
                forall|v: int| 0 <= v < n && first_of_id(g, v) ==> #[trigger] arrive@[v] == arrival(
                    g,
                    g.nodes@[v].id.0@,
                ),
                forall|v: int| 0 <= v < n && first_of_id(g, v) ==> #[trigger] leave@[v] == departure(
                    g,
                    g.nodes@[v].id.0@,
                ),
                c <= cn,
                compensations@ == compensations_through(g, c as nat),
            decreases cn - c,
        {
            let connection = &self.connections[c];
            let d = dst[c];
            let s = src[c];
            proof {
                lemma_atomic_position(self.nodes@, connection.destination.node.0@);
                lemma_atomic_position(self.nodes@, connection.source.node.0@);
                if d < n {
                    lemma_atomic_position(self.nodes@, self.nodes@[d as int].id.0@);
                }
                if s < n {
                    lemma_atomic_position(self.nodes@, self.nodes@[s as int].id.0@);
                }
            }
            if !(d < n && cut[d]) {
                let arrive_here: u32 = if d < n {
                    arrive[d]
                } else {
                    0
                };
                let leave_there: u32 = if s < n {
                    leave[s]
                } else {
                    0
                };
                proof {
                    assert(arrive_here == arrival(g, connection.destination.node.0@));
                    assert(leave_there == departure(g, connection.source.node.0@));
                    assert(!cuts(g, connection.destination.node.0@));
                }
                if arrive_here > leave_there {
                    let channels = self.edge_channels(connection);
                    compensations.push(
                        Compensation { connection: connection.clone(), samples: arrive_here - leave_there, channels },
                    );
                }
            } else {
                proof {
                    assert(cuts(g, connection.destination.node.0@));
                }
            }
            proof {
                assert(self.connections@[c as int] == *connection);
            }
            c = c + 1;
        }
        let mut root_latency: u32 = 0;
        let mut r: usize = 0;
        while r < self.root_output_sources.len()
            invariant
                n == self.nodes@.len(),
                g == *self,
                leave@.len() == n,
                forall|v: int| 0 <= v < n && first_of_id(g, v) ==> #[trigger] leave@[v] == departure(
                    g,
                    g.nodes@[v].id.0@,
                ),
                r <= self.root_output_sources@.len(),
                root_latency as nat == root_latency_through(g, r as nat),
            decreases self.root_output_sources@.len() - r,
        {
            let p = self.position(self.root_output_sources[r].node.as_str());
            proof {
                lemma_atomic_position(self.nodes@, self.root_output_sources@[r as int].node.0@);
                if p < n {
                    lemma_atomic_position(self.nodes@, self.nodes@[p as int].id.0@);
                }
            }
            let candidate: u32 = if p < n {
                leave[p]
            } else {
                0
            };
            if candidate > root_latency {
                root_latency = candidate;
            }
            r = r + 1;
        }
        if self.root_output_sources.len() == 0 {
            let mut v: usize = 0;
            while v < n
                invariant
                    n == self.nodes@.len(),
                    g == *self,
                    leave@.len() == n,
                    forall|w: int| 0 <= w < n && first_of_id(g, w) ==> #[trigger] leave@[w] == departure(
                        g,
                        g.nodes@[w].id.0@,
                    ),
                    v <= n,
                    root_latency as nat == nodes_latency_through(g, v as nat),
                decreases n - v,
            {
                let p = self.position(self.nodes[v].id.as_str());
                proof {
                    lemma_atomic_position(self.nodes@, self.nodes@[v as int].id.0@);
                    if p < n {
                        lemma_atomic_position(self.nodes@, self.nodes@[p as int].id.0@);
                    }
                }
                let candidate: u32 = if p < n {
                    leave[p]
                } else {
                    0
                };
                if candidate > root_latency {
                    root_latency = candidate;
                }
                v = v + 1;
            }
        }
        Ok(LatencyPlan { compensations, root_latency })
    }
}

/// The delay a compensation inserts (none when there is no compensation).
pub open spec fn delay_of(compensation: Option<Compensation>) -> nat {
    match compensation {
        Some(x) => x.samples as nat,
        None => 0,
    }
}

proof fn lemma_output_settles(g: FlattenedGraph, id: Seq<char>, depth: nat, k1: nat, k2: nat)
    requires
        grounded(g, id, depth),
        depth <= k1,
        depth <= k2,
    ensures
        output_at(g, id, k1) == output_at(g, id, k2),
    decreases depth, 1nat, 0nat,
{
    if !cuts(g, id) {
        lemma_latest_input_settles(g, id, depth, (k1 - 1) as nat, (k2 - 1) as nat, g.connections@.len() as nat);
    }
}

proof fn lemma_latest_input_settles(g: FlattenedGraph, id: Seq<char>, depth: nat, k1: nat, k2: nat, m: nat)
    requires
        grounded(g, id, depth),
        !cuts(g, id),
        depth <= k1 + 1,
        depth <= k2 + 1,
    ensures
        latest_input(g, id, k1, m) == latest_input(g, id, k2, m),
    decreases depth, 0nat, m,
{
    if m > 0 && m <= g.connections@.len() {
        lemma_latest_input_settles(g, id, depth, k1, k2, (m - 1) as nat);
        let c = g.connections@[m - 1];
        if c.destination.node.0@ == id && declared(g, c.source.node.0@) {
            assert(grounded(g, c.source.node.0@, (depth - 1) as nat));
            lemma_output_settles(g, c.source.node.0@, (depth - 1) as nat, k1, k2);
        }
    }
}

proof fn lemma_latest_input_covers(g: FlattenedGraph, id: Seq<char>, k: nat, m: nat, c: int)
    requires
        0 <= c < m <= g.connections@.len(),
        g.connections@[c].destination.node.0@ == id,
        declared(g, g.connections@[c].source.node.0@),
    ensures
        output_at(g, g.connections@[c].source.node.0@, k) <= latest_input(g, id, k, m),
    decreases m,
{
    if c < m - 1 {
        lemma_latest_input_covers(g, id, k, (m - 1) as nat, c);
    }
}

/// Balancing aligns the inputs of every node: in a graph whose forward
/// connections order and whose latencies fit, a connection between declared
/// nodes into a node that is no `feedback_delay` node leaves its source at a
/// latency which, delayed by the connection's compensation (none meaning no
/// delay), equals the destination's arrival latency.
pub proof fn law_compensation_aligns_inputs(g: FlattenedGraph, c: int)
    requires
        forward_acyclic(g),
        latencies_fit(g),
        0 <= c < g.connections@.len(),
        declared(g, g.connections@[c].source.node.0@),
        declared(g, g.connections@[c].destination.node.0@),
        !cuts(g, g.connections@[c].destination.node.0@),
    ensures
        departure(g, g.connections@[c].source.node.0@) + delay_of(compensation_for(g, g.connections@[c]))
            == arrival(g, g.connections@[c].destination.node.0@),
{
    let n = g.nodes@.len();
    let connection = g.connections@[c];
    let source = connection.source.node.0@;
    let destination = connection.destination.node.0@;
    lemma_atomic_position(g.nodes@, destination);
    lemma_atomic_position(g.nodes@, source);
    let d = atomic_position(g.nodes@, destination);
    let s = atomic_position(g.nodes@, source);
    assert(grounded(g, g.nodes@[d].id.0@, n as nat));
    assert(grounded(g, source, (n - 1) as nat));
    lemma_output_settles(g, source, (n - 1) as nat, (n - 1) as nat, n as nat);
    lemma_latest_input_covers(g, destination, (n - 1) as nat, g.connections@.len() as nat, c);
    assert(departure(g, g.nodes@[d].id.0@) <= u32::MAX);
    assert(output_at(g, destination, n as nat) == arrival(g, destination) + latency_at(g, destination));
}

/// A balanced plan's root latency is the latest settled output among the
/// ports feeding the root outputs: at least each one's latency and equal to
/// one of them. A root without output sources takes the latest settled
/// output among all nodes, and zero when there are none.
pub proof fn law_root_latency_is_the_latest_output(g: FlattenedGraph, plan: LatencyPlan)
    requires
        is_balanced_plan(g, plan),
    ensures
        forall|r: int|
            0 <= r < g.root_output_sources@.len() ==> plan.root_latency >= departure(
                g,
                #[trigger] g.root_output_sources@[r].node.0@,
            ),
        g.root_output_sources@.len() > 0 ==> exists|r: int|
            0 <= r < g.root_output_sources@.len() && plan.root_latency == departure(
                g,
                #[trigger] g.root_output_sources@[r].node.0@,
            ),
        g.root_output_sources@.len() == 0 ==> forall|v: int|
            0 <= v < g.nodes@.len() ==> plan.root_latency >= departure(g, #[trigger] g.nodes@[v].id.0@),
        g.root_output_sources@.len() == 0 && g.nodes@.len() > 0 ==> exists|v: int|
            0 <= v < g.nodes@.len() && plan.root_latency == departure(g, #[trigger] g.nodes@[v].id.0@),
        g.root_output_sources@.len() == 0 && g.nodes@.len() == 0 ==> plan.root_latency == 0,
{
    lemma_root_latency_through(g, g.root_output_sources@.len() as nat);
    lemma_nodes_latency_through(g, g.nodes@.len() as nat);
}

} // verus!
