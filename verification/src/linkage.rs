//! The folder graph of one account and the search for the folder paths of a
//! document.
//!
//! The remote folder structure is an arbitrary directed graph: a document may
//! have several parents and folders may form cycles. A path is therefore a
//! chain of distinct ancestors that ends in a node without parents.

use vstd::prelude::*;
use vstd::hash_map::StringHashMap;
use crate::graph::{
    graph_add_edge, graph_add_node, graph_edge_count, graph_edges, graph_neighbors, graph_new,
    graph_node_count, graph_node_weight, graph_nodes, graph_sinks, has_out_edge,
    lemma_out_targets_hold, out_targets, sinks,
};
use crate::records::{Link, LinkData};
use crate::rows::{distinct_by, lemma_filter_distinct, lemma_filter_members, rows_of};
use crate::store::{link_key, link_of_account, MirrorStore};

verus! {

/// The links between the documents of one account, as a graph in memory.
pub struct LinkageTable {
    /// The account whose links the table holds.
    pub account_id: i32,
    /// If true, edges lead from children to parents; otherwise from parents
    /// to children.
    pub transposed: bool,
    /// The graph; the weight of a node is a document id.
    pub graph: petgraph::graph::Graph<String, (), petgraph::Directed, u32>,
    /// The node index of each document id.
    pub nodes: StringHashMap<usize>,
}

/// The index maps each document id to the one node that carries it, and
/// every edge joins existing nodes.
pub open spec fn table_wf(
    ids: Seq<Seq<char>>,
    edges: Seq<(usize, usize)>,
    index: Map<Seq<char>, usize>,
) -> bool {
    &&& ids.len() <= u32::MAX
    &&& forall|i: int|
        0 <= i < ids.len() ==> index.contains_key(#[trigger] ids[i]) && index[ids[i]] == i
    &&& forall|id: Seq<char>| #[trigger]
        index.contains_key(id) ==> index[id] < ids.len() && ids[index[id] as int] == id
    &&& forall|k: int|
        0 <= k < edges.len() ==> (#[trigger] edges[k]).0 < ids.len() && edges[k].1 < ids.len()
}

/// Edges given by node indices, as pairs of document ids.
pub open spec fn edge_ids_of(ids: Seq<Seq<char>>, edges: Seq<(usize, usize)>) -> Seq<
    (Seq<char>, Seq<char>),
> {
    Seq::new(edges.len(), |k: int| (ids[edges[k].0 as int], ids[edges[k].1 as int]))
}

/// The edges that a list of links gives: from parent to child, or, when
/// transposed, from child to parent.
pub open spec fn oriented(rows: Seq<LinkData>, transposed: bool) -> Seq<(Seq<char>, Seq<char>)> {
    Seq::new(
        rows.len(),
        |k: int|
            if transposed {
                (rows[k].child_id, rows[k].parent_id)
            } else {
                (rows[k].parent_id, rows[k].child_id)
            },
    )
}

/// A list of ids with one more id at its end, unless the list has it.
pub open spec fn with_id(ids: Seq<Seq<char>>, id: Seq<char>) -> Seq<Seq<char>> {
    if ids.contains(id) {
        ids
    } else {
        ids.push(id)
    }
}

/// The documents that a list of links names, each once, in the order in
/// which the links name them first: of each link the parent, then the
/// child.
pub open spec fn mentioned_ids(rows: Seq<LinkData>) -> Seq<Seq<char>>
    decreases rows.len(),
{
    if rows.len() == 0 {
        Seq::empty()
    } else {
        with_id(
            with_id(mentioned_ids(rows.drop_last()), rows.last().parent_id),
            rows.last().child_id,
        )
    }
}

/// The place of an id in a list of distinct ids.
pub open spec fn index_in(ids: Seq<Seq<char>>, id: Seq<char>) -> int {
    choose|i: int| 0 <= i < ids.len() && ids[i] == id
}

/// Edges given by pairs of ids, as pairs of places in a list of ids.
pub open spec fn edges_of(ids: Seq<Seq<char>>, pairs: Seq<(Seq<char>, Seq<char>)>) -> Seq<
    (usize, usize),
> {
    Seq::new(
        pairs.len(),
        |k: int| (index_in(ids, pairs[k].0) as usize, index_in(ids, pairs[k].1) as usize),
    )
}

/// The paths of a document in the folder structure that a list of links
/// gives: the nodes are the documents that the links name, in the order of
/// [`mentioned_ids`], and an edge leads from the child of each link to its
/// parent.
pub open spec fn paths_of_links(rows: Seq<LinkData>, doc: Seq<char>) -> Seq<Seq<Seq<char>>> {
    let ids = mentioned_ids(rows);
    if ids.contains(doc) {
        chains_ids(
            ids,
            found_chains(
                ids.len(),
                edges_of(ids, oriented(rows, true)),
                index_in(ids, doc) as usize,
            ),
        )
    } else {
        Seq::empty()
    }
}

/// The index of a table knows exactly the ids of its nodes, each at its
/// place.
pub proof fn lemma_index_places(
    ids: Seq<Seq<char>>,
    edges: Seq<(usize, usize)>,
    index: Map<Seq<char>, usize>,
)
    requires
        table_wf(ids, edges, index),
    ensures
        forall|id: Seq<char>| #[trigger] index.contains_key(id) <==> ids.contains(id),
        forall|id: Seq<char>| #[trigger] index.contains_key(id) ==> index[id] == index_in(ids, id),
        forall|i: int| 0 <= i < ids.len() ==> index_in(ids, #[trigger] ids[i]) == i,
        edges == edges_of(ids, edge_ids_of(ids, edges)),
{
    assert forall|i: int| 0 <= i < ids.len() implies index_in(ids, #[trigger] ids[i]) == i by {
        let j = index_in(ids, ids[i]);
        assert(index[ids[j]] == j);
        assert(index[ids[i]] == i);
    }
    assert forall|id: Seq<char>| #[trigger] index.contains_key(id) <==> ids.contains(id) by {
        if index.contains_key(id) {
            assert(ids[index[id] as int] == id);
        }
        if ids.contains(id) {
            let i = choose|i: int| 0 <= i < ids.len() && ids[i] == id;
            assert(index.contains_key(ids[i]));
        }
    }
    assert forall|id: Seq<char>| #[trigger] index.contains_key(id) implies index[id] == index_in(
        ids,
        id,
    ) by {
        assert(ids[index[id] as int] == id);
        assert(index_in(ids, ids[index[id] as int]) == index[id]);
    }
    let pairs = edge_ids_of(ids, edges);
    assert forall|k: int| 0 <= k < edges.len() implies edges[k] == edges_of(ids, pairs)[k] by {
        assert(edges[k].0 < ids.len() && edges[k].1 < ids.len());
        assert(index_in(ids, ids[edges[k].0 as int]) == edges[k].0);
        assert(index_in(ids, ids[edges[k].1 as int]) == edges[k].1);
    }
    assert(edges =~= edges_of(ids, pairs));
}

/// The paths that a table gives for a document are those of the links from
/// which the table was built.
pub proof fn lemma_table_paths(table: LinkageTable, rows: Seq<LinkData>, doc: Seq<char>)
    requires
        table.wf(),
        table.node_ids() == mentioned_ids(rows),
        table.edge_ids() == oriented(rows, true),
    ensures
        table.found_paths(doc) == paths_of_links(rows, doc),
{
    lemma_index_places(table.node_ids(), table.edges(), table.nodes@);
}

/// Whether some link names the document as parent or as child.
pub open spec fn mentions(rows: Seq<LinkData>, id: Seq<char>) -> bool {
    exists|k: int|
        0 <= k < rows.len() && ((#[trigger] rows[k]).parent_id == id || rows[k].child_id == id)
}

/// The most links that a table can be built from.
pub const MAX_TABLE_LINKS: usize = 0x7fff_fff0;

/// Why no table could be built.
#[derive(Clone, Copy, Debug, PartialEq, Eq, Structural)]
pub enum LinkageError {
    /// The account has more links than a table can hold.
    TooManyLinks,
}

/// The document ids of a chain of node indices.
pub open spec fn ids_of(ids: Seq<Seq<char>>, chain: Seq<usize>) -> Seq<Seq<char>> {
    Seq::new(chain.len(), |i: int| ids[chain[i] as int])
}

/// A list of owned strings as a sequence of character sequences.
pub open spec fn path_view(p: Seq<String>) -> Seq<Seq<char>> {
    Seq::new(p.len(), |i: int| p[i]@)
}

/// The outermost element of a path; for the empty path, the start itself.
pub open spec fn path_head(p: Seq<Seq<char>>, start_id: Seq<char>) -> Seq<char> {
    if p.len() == 0 {
        start_id
    } else {
        p[0]
    }
}

/// `chain` lists distinct nodes, none of them `start`, such that an edge
/// leads from `start` to the last of them, from each to the one before it,
/// and no edge leaves the first. The empty chain qualifies when no edge
/// leaves `start`.
pub open spec fn is_parent_chain(
    n: nat,
    edges: Seq<(usize, usize)>,
    start: usize,
    chain: Seq<usize>,
) -> bool {
    let walk = chain.push(start);
    &&& forall|i: int| 0 <= i < walk.len() ==> #[trigger] walk[i] < n
    &&& walk.no_duplicates()
    &&& forall|i: int| 0 <= i < chain.len() ==> edges.contains((walk[i + 1], #[trigger] chain[i]))
    &&& !has_out_edge(edges, walk[0])
}

/// `w` is a nonempty sequence of nodes joined by edges.
pub open spec fn is_walk(edges: Seq<(usize, usize)>, w: Seq<usize>) -> bool {
    &&& w.len() > 0
    &&& forall|i: int, j: int|
        0 <= i && j == i + 1 && j < w.len() ==> edges.contains((#[trigger] w[i], #[trigger] w[j]))
}

/// Edges lead from `a` to `b` in zero or more steps.
pub open spec fn reachable(edges: Seq<(usize, usize)>, a: usize, b: usize) -> bool {
    exists|w: Seq<usize>| #[trigger] is_walk(edges, w) && w[0] == a && w.last() == b
}

spec fn is_suffix(a: Seq<usize>, b: Seq<usize>) -> bool {
    &&& a.len() <= b.len()
    &&& forall|i: int| 0 <= i < a.len() ==> #[trigger] a[i] == b[b.len() - a.len() + i]
}

/// `line` is what following the predecessors from `x` visits after `x`: it
/// ends in `start`, whose predecessor is `None`.
#[verifier::opaque]
spec fn is_line(
    pred: Seq<Option<usize>>,
    edges: Seq<(usize, usize)>,
    start: usize,
    x: usize,
    line: Seq<usize>,
) -> bool {
    let walk = seq![x] + line;
    &&& walk.last() == start
    &&& forall|i: int| 0 <= i < walk.len() ==> #[trigger] walk[i] < pred.len()
    &&& walk.no_duplicates()
    &&& pred[start as int] == None::<usize>
    &&& forall|i: int, j: int|
        0 <= i && j == i + 1 && j < walk.len() ==> pred[#[trigger] walk[i] as int] == Some(
            #[trigger] walk[j],
        )
    &&& forall|i: int| 0 <= i < line.len() ==> edges.contains((#[trigger] line[i], walk[i]))
}

#[verifier::opaque]
spec fn core_inv(
    n: nat,
    edges: Seq<(usize, usize)>,
    start: usize,
    pred: Seq<Option<usize>>,
    queue: Seq<usize>,
    lines: Seq<Seq<usize>>,
    seen: Set<usize>,
) -> bool {
    &&& pred.len() == n
    &&& queue.len() == lines.len()
    &&& forall|j: int| 0 <= j < lines.len() ==> is_line(pred, edges, start, queue[j], #[trigger] lines[j])
    &&& forall|j: int, k: int|
        0 <= j < k < lines.len() ==> is_suffix(#[trigger] lines[j], #[trigger] lines[k])
    &&& seen.contains(start)
    &&& forall|j: int| 0 <= j < queue.len() ==> seen.contains(#[trigger] queue[j])
    &&& forall|j: int, i: int|
        0 <= j < lines.len() && 0 <= i < lines[j].len() ==> seen.contains(#[trigger] lines[j][i])
    &&& forall|v: usize| seen.contains(v) ==> v < n
}

/// `b` to the power `e`; 1 for an exponent below 1.
pub open spec fn pow(b: int, e: int) -> int
    decreases e,
{
    if e <= 0 {
        1
    } else {
        b * pow(b, e - 1)
    }
}

/// The measure that shrinks with every node taken from the work list: an
/// entry whose line has length `d` weighs `b^(n - d)`.
spec fn stack_weight(lines: Seq<Seq<usize>>, b: int, n: int) -> int
    decreases lines.len(),
{
    if lines.len() == 0 {
        0
    } else {
        stack_weight(lines.drop_last(), b, n) + pow(b, n - lines.last().len())
    }
}

/// What following the predecessors from `x` visits, `x` first, in `fuel`
/// steps at most.
pub open spec fn walk_of(pred: Seq<Option<usize>>, x: usize, fuel: nat) -> Seq<usize>
    decreases fuel,
{
    if fuel == 0 || x >= pred.len() {
        seq![x]
    } else {
        match pred[x as int] {
            Some(y) => seq![x] + walk_of(pred, y, (fuel - 1) as nat),
            None => seq![x],
        }
    }
}

/// The predecessors and the work list after the parents `nbrs` of `cur` have
/// been looked at in turn: a parent that is on the work list, or on the way
/// from `cur` back to the start, is passed over; any other gets `cur` as
/// its predecessor and goes on the list.
pub open spec fn expand(
    pred: Seq<Option<usize>>,
    queue: Seq<usize>,
    cur: usize,
    nbrs: Seq<usize>,
    n: nat,
) -> (Seq<Option<usize>>, Seq<usize>)
    decreases nbrs.len(),
{
    if nbrs.len() == 0 {
        (pred, queue)
    } else {
        let before = expand(pred, queue, cur, nbrs.drop_last(), n);
        let t = nbrs.last();
        if before.1.contains(t) || walk_of(before.0, cur, n).contains(t) || t >= before.0.len() {
            before
        } else {
            (before.0.update(t as int, Some(cur)), before.1.push(t))
        }
    }
}

/// The state of the search for the paths of a document.
pub struct SearchState {
    /// The predecessor of each node on the way by which it was reached.
    pub pred: Seq<Option<usize>>,
    /// The work list; the node taken next is the last.
    pub queue: Seq<usize>,
    /// The paths found, as chains of nodes, outermost first.
    pub found: Seq<Seq<usize>>,
}

/// One step of the search: the last node is taken from the work list; if
/// it has no parents, the way from it back to the start, the start left
/// out, is a path; then its parents are looked at, the parent of the most
/// recent link first.
pub open spec fn search_step(edges: Seq<(usize, usize)>, n: nat, st: SearchState) -> SearchState {
    let cur = st.queue.last();
    let found = if has_out_edge(edges, cur) {
        st.found
    } else {
        st.found.push(walk_of(st.pred, cur, n).drop_last())
    };
    let next = expand(st.pred, st.queue.drop_last(), cur, out_targets(edges, cur), n);
    SearchState { pred: next.0, queue: next.1, found }
}

/// The paths found when the search is run from a state until the work list
/// is empty, in `fuel` steps at most.
pub open spec fn search_run(
    edges: Seq<(usize, usize)>,
    n: nat,
    st: SearchState,
    fuel: nat,
) -> Seq<Seq<usize>>
    decreases fuel,
{
    if st.queue.len() == 0 || fuel == 0 {
        st.found
    } else {
        search_run(edges, n, search_step(edges, n, st), (fuel - 1) as nat)
    }
}

/// The state in which the search starts: no node has a predecessor, and the
/// start alone is on the work list.
pub open spec fn search_start(n: nat, start: usize) -> SearchState {
    SearchState {
        pred: Seq::new(n, |i: int| None::<usize>),
        queue: seq![start],
        found: Seq::empty(),
    }
}

/// The paths of the node `start` in a graph of `n` nodes, as chains of
/// nodes, in the order in which the search finds them. The search ends
/// within the steps that it is given here.
pub open spec fn found_chains(n: nat, edges: Seq<(usize, usize)>, start: usize) -> Seq<Seq<usize>> {
    search_run(edges, n, search_start(n, start), pow((edges.len() + 1) as int, n as int) as nat)
}

/// The ids of chains of nodes.
pub open spec fn chains_ids(ids: Seq<Seq<char>>, chains: Seq<Seq<usize>>) -> Seq<Seq<Seq<char>>> {
    Seq::new(chains.len(), |k: int| ids_of(ids, chains[k]))
}

/// Lists of paths, each path taken by its texts.
pub open spec fn paths_view(paths: Seq<Vec<String>>) -> Seq<Seq<Seq<char>>> {
    Seq::new(paths.len(), |k: int| path_view(paths[k]@))
}

/// The search so far and `fuel` more steps give `target`.
#[verifier::opaque]
spec fn tracks(
    target: Seq<Seq<usize>>,
    edges: Seq<(usize, usize)>,
    n: nat,
    pred: Seq<Option<usize>>,
    queue: Seq<usize>,
    found: Seq<Seq<usize>>,
    fuel: int,
) -> bool {
    fuel >= 0 && target == search_run(edges, n, SearchState { pred, queue, found }, fuel as nat)
}

proof fn lemma_track_begin(n: nat, edges: Seq<(usize, usize)>, start: usize, pred: Seq<Option<usize>>)
    requires
        pred.len() == n,
        forall|i: int| 0 <= i < n ==> #[trigger] pred[i] == None::<usize>,
    ensures
        tracks(
            found_chains(n, edges, start),
            edges,
            n,
            pred,
            seq![start],
            Seq::empty(),
            pow((edges.len() + 1) as int, n as int),
        ),
        pow((edges.len() + 1) as int, n as int) == stack_weight(
            seq![Seq::<usize>::empty()],
            (edges.len() + 1) as int,
            n as int,
        ),
{
    reveal(tracks);
    lemma_pow_positive((edges.len() + 1) as int, n as int);
    assert(pred =~= search_start(n, start).pred);
    let lines = seq![Seq::<usize>::empty()];
    assert(lines.drop_last().len() == 0);
    assert(stack_weight(lines.drop_last(), (edges.len() + 1) as int, n as int) == 0);
    assert(lines.last().len() == 0);
}

proof fn lemma_track_step(
    target: Seq<Seq<usize>>,
    edges: Seq<(usize, usize)>,
    n: nat,
    pred: Seq<Option<usize>>,
    queue: Seq<usize>,
    found: Seq<Seq<usize>>,
    fuel: int,
    pred2: Seq<Option<usize>>,
    queue2: Seq<usize>,
    found2: Seq<Seq<usize>>,
)
    requires
        tracks(target, edges, n, pred, queue, found, fuel),
        queue.len() > 0,
        fuel >= 1,
        (pred2, queue2) == expand(
            pred,
            queue.drop_last(),
            queue.last(),
            out_targets(edges, queue.last()),
            n,
        ),
        found2 == if has_out_edge(edges, queue.last()) {
            found
        } else {
            found.push(walk_of(pred, queue.last(), n).drop_last())
        },
    ensures
        tracks(target, edges, n, pred2, queue2, found2, fuel - 1),
{
    reveal(tracks);
    let st = SearchState { pred, queue, found };
    assert(search_step(edges, n, st) == (SearchState { pred: pred2, queue: queue2, found: found2 }));
}

proof fn lemma_track_end(
    target: Seq<Seq<usize>>,
    edges: Seq<(usize, usize)>,
    n: nat,
    pred: Seq<Option<usize>>,
    queue: Seq<usize>,
    found: Seq<Seq<usize>>,
    fuel: int,
)
    requires
        tracks(target, edges, n, pred, queue, found, fuel),
        queue.len() == 0,
    ensures
        target == found,
{
    reveal(tracks);
}

/// Looking at one more parent does what the search does with it.
proof fn lemma_expand_next(
    pred: Seq<Option<usize>>,
    queue: Seq<usize>,
    cur: usize,
    nbrs: Seq<usize>,
    idx: int,
    n: nat,
)
    requires
        0 <= idx < nbrs.len(),
    ensures
        expand(pred, queue, cur, nbrs.subrange(0, idx + 1), n) == ({
            let before = expand(pred, queue, cur, nbrs.subrange(0, idx), n);
            let t = nbrs[idx];
            if before.1.contains(t) || walk_of(before.0, cur, n).contains(t) || t
                >= before.0.len() {
                before
            } else {
                (before.0.update(t as int, Some(cur)), before.1.push(t))
            }
        }),
{
    let upto = nbrs.subrange(0, idx + 1);
    assert(upto.drop_last() =~= nbrs.subrange(0, idx));
    assert(upto.last() == nbrs[idx]);
}

/// Following the predecessors from a node visits the node and its line.
proof fn lemma_walk_of_line(
    pred: Seq<Option<usize>>,
    edges: Seq<(usize, usize)>,
    start: usize,
    x: usize,
    line: Seq<usize>,
    fuel: nat,
)
    requires
        is_line(pred, edges, start, x, line),
        fuel >= line.len(),
    ensures
        walk_of(pred, x, fuel) == seq![x] + line,
    decreases line.len(),
{
    reveal(is_line);
    let walk = seq![x] + line;
    assert(walk[0] == x);
    if line.len() == 0 {
        assert(walk[walk.len() - 1] == start);
        assert(pred[x as int] == None::<usize>);
        assert(walk =~= seq![x]);
    } else {
        let y = line[0];
        let rest = line.drop_first();
        let tail = seq![y] + rest;
        assert(tail =~= line);
        assert(walk[1] == y);
        assert(pred[walk[0] as int] == Some(walk[1]));
        assert forall|i: int| 0 <= i < tail.len() implies #[trigger] tail[i] < pred.len() by {
            assert(walk[i + 1] == tail[i]);
        }
        assert forall|a: int, c: int| 0 <= a < tail.len() && 0 <= c < tail.len() && a != c implies
            tail[a] != tail[c] by {
            assert(walk[a + 1] == tail[a]);
            assert(walk[c + 1] == tail[c]);
        }
        assert forall|i: int, j: int| 0 <= i && j == i + 1 && j < tail.len() implies pred[
        #[trigger] tail[i] as int] == Some(#[trigger] tail[j]) by {
            assert(walk[i + 1] == tail[i]);
            assert(walk[j + 1] == tail[j]);
            assert(pred[walk[i + 1] as int] == Some(walk[j + 1]));
        }
        assert forall|i: int| 0 <= i < rest.len() implies edges.contains(
            (#[trigger] rest[i], tail[i]),
        ) by {
            assert(rest[i] == line[i + 1]);
            assert(tail[i] == walk[i + 1]);
            assert(edges.contains((line[i + 1], walk[i + 1])));
        }
        assert(tail[tail.len() - 1] == walk[walk.len() - 1]);
        assert(is_line(pred, edges, start, y, rest));
        lemma_walk_of_line(pred, edges, start, y, rest, (fuel - 1) as nat);
        assert(walk =~= seq![x] + (seq![y] + rest));
    }
}

proof fn lemma_pow_positive(b: int, e: int)
    requires
        b >= 1,
    ensures
        pow(b, e) >= 1,
    decreases e,
{
    if e > 0 {
        lemma_pow_positive(b, e - 1);
        assert(b * pow(b, e - 1) >= 1) by (nonlinear_arith)
            requires
                b >= 1,
                pow(b, e - 1) >= 1,
        ;
    }
}

proof fn lemma_weight_nonneg(lines: Seq<Seq<usize>>, b: int, n: int)
    requires
        b >= 1,
    ensures
        stack_weight(lines, b, n) >= 0,
    decreases lines.len(),
{
    if lines.len() > 0 {
        lemma_weight_nonneg(lines.drop_last(), b, n);
        lemma_pow_positive(b, n - lines.last().len());
    }
}

proof fn lemma_weight_push(lines: Seq<Seq<usize>>, l: Seq<usize>, b: int, n: int)
    ensures
        stack_weight(lines.push(l), b, n) == stack_weight(lines, b, n) + pow(b, n - l.len()),
{
    assert(lines.push(l).drop_last() =~= lines);
}

/// A sequence of distinct numbers below `n` has at most `n` elements.
proof fn lemma_distinct_bound(s: Seq<usize>, n: nat)
    requires
        s.no_duplicates(),
        forall|i: int| 0 <= i < s.len() ==> #[trigger] s[i] < n,
    ensures
        s.len() <= n,
    decreases n,
{
    if s.len() == 0 {
    } else if n == 0 {
        assert(s[0] < n);
    } else {
        let top = (n - 1) as usize;
        if exists|i: int| 0 <= i < s.len() && s[i] == top {
            let i = choose|i: int| 0 <= i < s.len() && s[i] == top;
            let t = s.remove(i);
            assert forall|a: int, c: int| 0 <= a < t.len() && 0 <= c < t.len() && a != c implies t[a]
                != t[c] by {
                let a2 = if a < i { a } else { a + 1 };
                let c2 = if c < i { c } else { c + 1 };
                assert(t[a] == s[a2]);
                assert(t[c] == s[c2]);
            }
            assert forall|a: int| 0 <= a < t.len() implies #[trigger] t[a] < (n - 1) as nat by {
                let a2 = if a < i { a } else { a + 1 };
                assert(t[a] == s[a2]);
                assert(s[a2] < n);
                assert(a2 != i);
            }
            lemma_distinct_bound(t, (n - 1) as nat);
        } else {
            assert forall|a: int| 0 <= a < s.len() implies #[trigger] s[a] < (n - 1) as nat by {
                assert(s[a] < n);
            }
            lemma_distinct_bound(s, (n - 1) as nat);
        }
    }
}

/// What `sinks` holds: exactly the indices below `n` that no edge leaves.
pub proof fn lemma_sinks(n: nat, edges: Seq<(usize, usize)>)
    requires
        n <= usize::MAX,
    ensures
        forall|x: usize|
            #![trigger sinks(n, edges).contains(x)]
            #![trigger has_out_edge(edges, x)]
            sinks(n, edges).contains(x) <==> x < n && !has_out_edge(edges, x),
    decreases n,
{
    if n > 0 {
        let m = (n - 1) as nat;
        lemma_sinks(m, edges);
        let top = (n - 1) as usize;
        let here = sinks(n, edges);
        let before = sinks(m, edges);
        assert(here == if has_out_edge(edges, top) {
            before
        } else {
            before.push(top)
        });
        assert forall|x: usize| here.contains(x) implies x < n && !has_out_edge(edges, x) by {
            let i = choose|i: int| 0 <= i < here.len() && here[i] == x;
            if i < before.len() {
                assert(before[i] == x);
                assert(before.contains(x));
                assert(x < m && !has_out_edge(edges, x));
            } else {
                assert(!has_out_edge(edges, top));
                assert(here[i] == top);
            }
        }
        assert forall|x: usize| x < n && !has_out_edge(edges, x) implies here.contains(x) by {
            if x < m {
                assert(before.contains(x));
                let i = choose|i: int| 0 <= i < before.len() && before[i] == x;
                assert(here[i] == x);
            } else {
                assert(x == top);
                assert(here[here.len() - 1] == x);
            }
        }
    } else {
        assert(sinks(n, edges).len() == 0);
    }
}

proof fn lemma_walk_stays(edges: Seq<(usize, usize)>, closed: Set<usize>, w: Seq<usize>, i: int)
    requires
        is_walk(edges, w),
        closed.contains(w[0]),
        forall|v: usize, t: usize| closed.contains(v) && edges.contains((v, t)) ==> closed.contains(t),
        0 <= i < w.len(),
    ensures
        closed.contains(w[i]),
    decreases i,
{
    if i > 0 {
        lemma_walk_stays(edges, closed, w, i - 1);
        assert(edges.contains((w[i - 1], w[i])));
    }
}

proof fn lemma_line_stable(
    pred: Seq<Option<usize>>,
    edges: Seq<(usize, usize)>,
    start: usize,
    x: usize,
    line: Seq<usize>,
    y: usize,
    v: Option<usize>,
)
    requires
        is_line(pred, edges, start, x, line),
        y < pred.len(),
        y != x,
        !line.contains(y),
    ensures
        is_line(pred.update(y as int, v), edges, start, x, line),
{
    reveal(is_line);
    reveal(core_inv);
    let walk = seq![x] + line;
    let pred2 = pred.update(y as int, v);
    assert(walk[walk.len() - 1] == start);
    assert forall|i: int| 0 <= i < walk.len() implies walk[i] != y by {
        if i > 0 {
            assert(line[i - 1] == walk[i]);
        }
    }
    assert forall|i: int, j: int| 0 <= i && j == i + 1 && j < walk.len() implies pred2[
    #[trigger] walk[i] as int] == Some(#[trigger] walk[j]) by {
        assert(pred[walk[i] as int] == Some(walk[j]));
    }
}

proof fn lemma_line_extend(
    pred: Seq<Option<usize>>,
    edges: Seq<(usize, usize)>,
    start: usize,
    cur: usize,
    line: Seq<usize>,
    next: usize,
)
    requires
        is_line(pred, edges, start, cur, line),
        next < pred.len(),
        !(seq![cur] + line).contains(next),
        edges.contains((cur, next)),
    ensures
        is_line(pred.update(next as int, Some(cur)), edges, start, next, seq![cur] + line),
{
    reveal(is_line);
    reveal(core_inv);
    let walk = seq![cur] + line;
    let line2 = walk;
    let walk2 = seq![next] + line2;
    let pred2 = pred.update(next as int, Some(cur));
    assert forall|i: int| 0 <= i < walk2.len() implies #[trigger] walk2[i] < pred2.len() by {
        if i > 0 {
            assert(walk2[i] == walk[i - 1]);
        }
    }
    assert forall|a: int, c: int| 0 <= a < walk2.len() && 0 <= c < walk2.len() && a != c implies
        walk2[a] != walk2[c] by {
        if a > 0 {
            assert(walk2[a] == walk[a - 1]);
        }
        if c > 0 {
            assert(walk2[c] == walk[c - 1]);
        }
    }
    assert(walk[walk.len() - 1] == start);
    assert(walk2[walk2.len() - 1] == start);
    assert(start != next);
    assert forall|i: int, j: int| 0 <= i && j == i + 1 && j < walk2.len() implies pred2[
    #[trigger] walk2[i] as int] == Some(#[trigger] walk2[j]) by {
        if i > 0 {
            assert(walk2[i] == walk[i - 1]);
            assert(walk2[j] == walk[j - 1]);
            assert(walk[i - 1] != next);
            assert(pred[walk[i - 1] as int] == Some(walk[j - 1]));
        } else {
            assert(walk2[1] == walk[0]);
        }
    }
    assert forall|i: int| 0 <= i < line2.len() implies edges.contains(
        (#[trigger] line2[i], walk2[i]),
    ) by {
        if i > 0 {
            assert(line2[i] == line[i - 1]);
            assert(walk2[i] == walk[i - 1]);
        }
    }
    assert(walk2.last() == walk.last());
}

proof fn lemma_suffix_member(a: Seq<usize>, b: Seq<usize>, y: usize)
    requires
        is_suffix(a, b),
        a.contains(y),
    ensures
        b.contains(y),
{
    let i = choose|i: int| 0 <= i < a.len() && a[i] == y;
    assert(a[i] == b[b.len() - a.len() + i]);
}

/// A line that starts at a node without parents is a parent chain.
proof fn lemma_record(
    n: nat,
    edges: Seq<(usize, usize)>,
    start: usize,
    pred: Seq<Option<usize>>,
    cur: usize,
    line: Seq<usize>,
)
    requires
        pred.len() == n,
        is_line(pred, edges, start, cur, line),
        !has_out_edge(edges, cur),
    ensures
        is_parent_chain(n, edges, start, (seq![cur] + line).drop_last()),
        chain_head((seq![cur] + line).drop_last(), start) == cur,
        cur == start ==> (seq![cur] + line).drop_last().len() == 0,
{
    reveal(is_line);
    reveal(core_inv);
    let walk_cur = seq![cur] + line;
    let chain = walk_cur.drop_last();
    let walk = chain.push(start);
    assert(walk =~= walk_cur);
    assert(walk_cur[0] == cur);
    assert forall|i: int| 0 <= i < chain.len() implies edges.contains(
        (walk[i + 1], #[trigger] chain[i]),
    ) by {
        assert(edges.contains((line[i], walk_cur[i])));
        assert(walk_cur[i + 1] == line[i]);
    }
    if cur == start && line.len() > 0 {
        assert(walk_cur[walk_cur.len() - 1] == walk_cur[0]);
    }
}

proof fn lemma_covers_push(chains: Seq<Seq<usize>>, chain: Seq<usize>, start: usize, r: usize)
    requires
        covers(chains, start, r),
    ensures
        covers(chains.push(chain), start, r),
{
    let k = choose|k: int| 0 <= k < chains.len() && chain_head(#[trigger] chains[k], start) == r;
    assert(chains.push(chain)[k] == chains[k]);
}

/// Once the work list is empty, every node that can be reached from the
/// start has been taken from it.
proof fn lemma_all_reached(
    edges: Seq<(usize, usize)>,
    seen: Set<usize>,
    done: Set<usize>,
    start: usize,
    r: usize,
)
    requires
        seen.contains(start),
        forall|v: usize| seen.contains(v) ==> done.contains(v),
        forall|v: usize, t: usize|
            done.contains(v) && #[trigger] edges.contains((v, t)) ==> seen.contains(t),
        reachable(edges, start, r),
    ensures
        done.contains(r),
{
    let w = choose|w: Seq<usize>| #[trigger] is_walk(edges, w) && w[0] == start && w.last() == r;
    assert forall|v: usize, t: usize| seen.contains(v) && edges.contains((v, t)) implies seen.contains(
        t,
    ) by {
        assert(done.contains(v));
    }
    lemma_walk_stays(edges, seen, w, w.len() - 1);
}

/// A line ends in the start, so the walk of a node is its chain and then the
/// start.
proof fn lemma_walk_ends(
    pred: Seq<Option<usize>>,
    edges: Seq<(usize, usize)>,
    start: usize,
    x: usize,
    line: Seq<usize>,
)
    requires
        is_line(pred, edges, start, x, line),
    ensures
        (seq![x] + line).last() == start,
{
    reveal(is_line);
}

/// The nodes of a parent chain are nodes of the graph.
proof fn lemma_chain_members(n: nat, edges: Seq<(usize, usize)>, start: usize, chain: Seq<usize>)
    requires
        is_parent_chain(n, edges, start, chain),
    ensures
        forall|i: int| 0 <= i < chain.len() ==> #[trigger] chain[i] < n,
{
    let walk = chain.push(start);
    assert forall|i: int| 0 <= i < chain.len() implies #[trigger] chain[i] < n by {
        assert(walk[i] == chain[i]);
    }
}

/// What has been taken from the work list so far, as walks from a node back
/// to the start: no walk is taken twice, and a walk is put on the list only
/// after the walk that it extends has been taken.
#[verifier::opaque]
spec fn hist_inv(queue: Seq<usize>, lines: Seq<Seq<usize>>, popped: Set<Seq<usize>>) -> bool {
    &&& queue.len() == lines.len()
    &&& queue.no_duplicates()
    &&& forall|j: int|
        0 <= j < queue.len() ==> !popped.contains(seq![queue[j]] + #[trigger] lines[j])
    &&& forall|j: int|
        0 <= j < lines.len() && (#[trigger] lines[j]).len() > 0 ==> popped.contains(lines[j])
    &&& forall|w: Seq<usize>| #[trigger]
        popped.contains(w) && w.len() > 1 ==> popped.contains(w.drop_first())
}

/// No walk that has been taken extends `walk` by one node.
spec fn no_child_taken(popped: Set<Seq<usize>>, walk: Seq<usize>) -> bool {
    forall|c: Seq<usize>| #[trigger] popped.contains(c) && c.len() > 1 ==> c.drop_first() != walk
}

proof fn lemma_hist_start(start: usize)
    ensures
        hist_inv(seq![start], seq![Seq::<usize>::empty()], Set::<Seq<usize>>::empty()),
{
    reveal(hist_inv);
}

proof fn lemma_hist_take(queue: Seq<usize>, lines: Seq<Seq<usize>>, popped: Set<Seq<usize>>)
    requires
        hist_inv(queue, lines, popped),
        queue.len() > 0,
    ensures
        queue.len() == lines.len(),
        !popped.contains(seq![queue.last()] + lines.last()),
        hist_inv(
            queue.drop_last(),
            lines.drop_last(),
            popped.insert(seq![queue.last()] + lines.last()),
        ),
        no_child_taken(
            popped.insert(seq![queue.last()] + lines.last()),
            seq![queue.last()] + lines.last(),
        ),
        !queue.drop_last().contains(queue.last()),
{
    reveal(hist_inv);
    let top = queue.len() - 1;
    let walk = seq![queue.last()] + lines.last();
    let q2 = queue.drop_last();
    let l2 = lines.drop_last();
    let p2 = popped.insert(walk);
    assert(!popped.contains(seq![queue[top]] + lines[top]));
    assert forall|j: int| 0 <= j < q2.len() implies !p2.contains(
        seq![q2[j]] + #[trigger] l2[j],
    ) by {
        assert(!popped.contains(seq![queue[j]] + lines[j]));
        assert(queue[j] != queue[top]);
        assert((seq![queue[j]] + lines[j])[0] == queue[j]);
        assert(walk[0] == queue[top]);
    }
    assert forall|j: int| 0 <= j < l2.len() && (#[trigger] l2[j]).len() > 0 implies p2.contains(
        l2[j],
    ) by {
        assert(popped.contains(lines[j]));
    }
    assert(walk.drop_first() =~= lines[top]);
    assert forall|w: Seq<usize>| #[trigger] p2.contains(w) && w.len() > 1 implies p2.contains(
        w.drop_first(),
    ) by {
        if w == walk {
            assert(lines[top].len() > 0);
            assert(popped.contains(lines[top]));
        }
    }
    assert forall|c: Seq<usize>| #[trigger] p2.contains(c) && c.len() > 1 implies c.drop_first()
        != walk by {
        if c != walk {
            assert(popped.contains(c.drop_first()));
        }
    }
    if q2.contains(queue.last()) {
        let j = choose|j: int| 0 <= j < q2.len() && q2[j] == queue.last();
        assert(queue[j] == queue[top]);
    }
}

proof fn lemma_hist_push(
    queue: Seq<usize>,
    lines: Seq<Seq<usize>>,
    popped: Set<Seq<usize>>,
    walk: Seq<usize>,
    next: usize,
)
    requires
        hist_inv(queue, lines, popped),
        popped.contains(walk),
        walk.len() > 0,
        no_child_taken(popped, walk),
        !queue.contains(next),
    ensures
        hist_inv(queue.push(next), lines.push(walk), popped),
{
    reveal(hist_inv);
    let q2 = queue.push(next);
    let l2 = lines.push(walk);
    assert forall|a: int, c: int| 0 <= a < q2.len() && 0 <= c < q2.len() && a != c implies q2[a]
        != q2[c] by {
        if a < queue.len() && c < queue.len() {
            assert(queue[a] != queue[c]);
        } else if a < queue.len() {
            assert(queue.contains(queue[a]));
        } else {
            assert(queue.contains(queue[c]));
        }
    }
    assert forall|j: int| 0 <= j < q2.len() implies !popped.contains(
        seq![q2[j]] + #[trigger] l2[j],
    ) by {
        if j < queue.len() {
            assert(!popped.contains(seq![queue[j]] + lines[j]));
        } else {
            let c = seq![next] + walk;
            assert(c.drop_first() =~= walk);
        }
    }
    assert forall|j: int| 0 <= j < l2.len() && (#[trigger] l2[j]).len() > 0 implies popped.contains(
        l2[j],
    ) by {
        if j < lines.len() {
            assert(popped.contains(lines[j]));
        }
    }
}

/// Chains of nodes that carry the same ids are the same chain.
proof fn lemma_chain_by_ids(
    ids: Seq<Seq<char>>,
    index: Map<Seq<char>, usize>,
    a: Seq<usize>,
    b: Seq<usize>,
)
    requires
        forall|i: int| 0 <= i < ids.len() ==> index.contains_key(#[trigger] ids[i]) && index[ids[i]]
            == i,
        forall|i: int| 0 <= i < a.len() ==> #[trigger] a[i] < ids.len(),
        forall|i: int| 0 <= i < b.len() ==> #[trigger] b[i] < ids.len(),
        ids_of(ids, a) == ids_of(ids, b),
    ensures
        a == b,
{
    assert(ids_of(ids, a).len() == a.len());
    assert(ids_of(ids, b).len() == b.len());
    assert forall|i: int| 0 <= i < a.len() implies a[i] == b[i] by {
        assert(ids_of(ids, a)[i] == ids_of(ids, b)[i]);
        assert(index[ids[a[i] as int]] == a[i]);
        assert(index[ids[b[i] as int]] == b[i]);
    }
    assert(a =~= b);
}

/// The search starts with the start node alone on the work list.
proof fn lemma_start(n: nat, edges: Seq<(usize, usize)>, start: usize, pred: Seq<Option<usize>>)
    requires
        pred.len() == n,
        start < n,
        forall|i: int| 0 <= i < n ==> #[trigger] pred[i] == None::<usize>,
    ensures
        core_inv(n, edges, start, pred, seq![start], seq![Seq::<usize>::empty()], set![start]),
{
    reveal(is_line);
    reveal(core_inv);
    let walk0 = seq![start] + Seq::<usize>::empty();
    assert(walk0 =~= seq![start]);
    assert(is_line(pred, edges, start, start, Seq::<usize>::empty()));
}

/// A line and the node it starts from are distinct nodes, so there are no
/// more of them than nodes.
proof fn lemma_line_bound(
    pred: Seq<Option<usize>>,
    edges: Seq<(usize, usize)>,
    start: usize,
    x: usize,
    line: Seq<usize>,
)
    requires
        is_line(pred, edges, start, x, line),
    ensures
        line.len() + 1 <= pred.len(),
        x < pred.len(),
{
    reveal(is_line);
    let walk = seq![x] + line;
    assert(walk[0] == x);
    lemma_distinct_bound(walk, pred.len());
}

/// What is on the work list has been seen and is a node.
proof fn lemma_queue_seen(
    n: nat,
    edges: Seq<(usize, usize)>,
    start: usize,
    pred: Seq<Option<usize>>,
    queue: Seq<usize>,
    lines: Seq<Seq<usize>>,
    seen: Set<usize>,
    j: int,
)
    requires
        core_inv(n, edges, start, pred, queue, lines, seen),
        0 <= j < queue.len(),
    ensures
        seen.contains(queue[j]),
        queue[j] < n,
        pred.len() == n,
        queue.len() == lines.len(),
{
    reveal(core_inv);
}

/// Taking the last entry from the work list keeps the search state in order.
proof fn lemma_take(
    n: nat,
    edges: Seq<(usize, usize)>,
    start: usize,
    pred: Seq<Option<usize>>,
    queue: Seq<usize>,
    lines: Seq<Seq<usize>>,
    seen: Set<usize>,
)
    requires
        core_inv(n, edges, start, pred, queue, lines, seen),
        queue.len() > 0,
    ensures
        core_inv(n, edges, start, pred, queue.drop_last(), lines.drop_last(), seen),
        is_line(pred, edges, start, queue.last(), lines.last()),
        queue.len() == lines.len(),
        pred.len() == n,
        queue.last() < n,
        seen.contains(queue.last()),
        forall|i: int| 0 <= i < lines.last().len() ==> seen.contains(#[trigger] lines.last()[i]),
        forall|j: int|
            0 <= j < lines.len() - 1 ==> is_suffix(
                #[trigger] lines.drop_last()[j],
                seq![queue.last()] + lines.last(),
            ),
{
    reveal(is_line);
    reveal(core_inv);
    let q2 = queue.drop_last();
    let l2 = lines.drop_last();
    let top = lines.len() - 1;
    assert(is_line(pred, edges, start, queue[top], lines[top]));
    assert forall|j: int| 0 <= j < l2.len() implies is_line(
        pred,
        edges,
        start,
        q2[j],
        #[trigger] l2[j],
    ) by {
        assert(is_line(pred, edges, start, queue[j], lines[j]));
    }
    assert forall|j: int, k: int| 0 <= j < k < l2.len() implies is_suffix(
        #[trigger] l2[j],
        #[trigger] l2[k],
    ) by {
        assert(is_suffix(lines[j], lines[k]));
    }
    assert forall|j: int| 0 <= j < q2.len() implies seen.contains(#[trigger] q2[j]) by {
        assert(seen.contains(queue[j]));
    }
    assert forall|j: int, i: int| 0 <= j < l2.len() && 0 <= i < l2[j].len() implies seen.contains(
        #[trigger] l2[j][i],
    ) by {
        assert(seen.contains(lines[j][i]));
    }
    assert(seen.contains(queue[top]));
    assert forall|i: int| 0 <= i < lines.last().len() implies seen.contains(
        #[trigger] lines.last()[i],
    ) by {
        assert(seen.contains(lines[top][i]));
    }
    let walk = seq![queue.last()] + lines.last();
    assert forall|j: int| 0 <= j < lines.len() - 1 implies is_suffix(#[trigger] l2[j], walk) by {
        assert(is_suffix(lines[j], lines[top]));
        assert forall|i: int| 0 <= i < l2[j].len() implies #[trigger] l2[j][i] == walk[walk.len()
            - l2[j].len() + i] by {
            assert(lines[j][i] == lines[top][lines[top].len() - lines[j].len() + i]);
        }
    }
}

/// Recording `cur` as the predecessor of `next` and putting `next` on the
/// work list keeps the search state in order.
proof fn lemma_install(
    n: nat,
    edges: Seq<(usize, usize)>,
    start: usize,
    pred: Seq<Option<usize>>,
    queue: Seq<usize>,
    lines: Seq<Seq<usize>>,
    seen: Set<usize>,
    cur: usize,
    line_cur: Seq<usize>,
    next: usize,
)
    requires
        core_inv(n, edges, start, pred, queue, lines, seen),
        is_line(pred, edges, start, cur, line_cur),
        forall|j: int| 0 <= j < lines.len() ==> is_suffix(#[trigger] lines[j], seq![cur] + line_cur),
        seen.contains(cur),
        forall|i: int| 0 <= i < line_cur.len() ==> seen.contains(#[trigger] line_cur[i]),
        next < n,
        edges.contains((cur, next)),
        !queue.contains(next),
        !(seq![cur] + line_cur).contains(next),
    ensures
        core_inv(
            n,
            edges,
            start,
            pred.update(next as int, Some(cur)),
            queue.push(next),
            lines.push(seq![cur] + line_cur),
            seen.insert(next),
        ),
        is_line(pred.update(next as int, Some(cur)), edges, start, cur, line_cur),
        forall|j: int|
            0 <= j < lines.len() + 1 ==> is_suffix(
                #[trigger] lines.push(seq![cur] + line_cur)[j],
                seq![cur] + line_cur,
            ),
{
    reveal(is_line);
    reveal(core_inv);
    let walk = seq![cur] + line_cur;
    let pred2 = pred.update(next as int, Some(cur));
    let q2 = queue.push(next);
    let l2 = lines.push(walk);
    let seen2 = seen.insert(next);
    assert(walk[0] == cur);
    assert(!line_cur.contains(next)) by {
        if line_cur.contains(next) {
            let i = choose|i: int| 0 <= i < line_cur.len() && line_cur[i] == next;
            assert(walk[i + 1] == next);
        }
    }
    assert(next != cur);
    lemma_line_stable(pred, edges, start, cur, line_cur, next, Some(cur));
    lemma_line_extend(pred, edges, start, cur, line_cur, next);
    assert forall|j: int| 0 <= j < l2.len() implies is_line(
        pred2,
        edges,
        start,
        q2[j],
        #[trigger] l2[j],
    ) by {
        if j < lines.len() {
            assert(is_line(pred, edges, start, queue[j], lines[j]));
            assert(queue[j] != next);
            assert(is_suffix(lines[j], walk));
            if lines[j].contains(next) {
                lemma_suffix_member(lines[j], walk, next);
            }
            lemma_line_stable(pred, edges, start, queue[j], lines[j], next, Some(cur));
        }
    }
    assert forall|j: int| 0 <= j < l2.len() implies is_suffix(#[trigger] l2[j], walk) by {
        if j < lines.len() {
            assert(is_suffix(lines[j], walk));
        }
    }
    assert forall|j: int, k: int| 0 <= j < k < l2.len() implies is_suffix(
        #[trigger] l2[j],
        #[trigger] l2[k],
    ) by {
        if k < lines.len() {
            assert(is_suffix(lines[j], lines[k]));
        } else {
            assert(is_suffix(l2[j], walk));
        }
    }
    assert forall|j: int| 0 <= j < q2.len() implies seen2.contains(#[trigger] q2[j]) by {
        if j < queue.len() {
            assert(seen.contains(queue[j]));
        }
    }
    assert forall|j: int, i: int| 0 <= j < l2.len() && 0 <= i < l2[j].len() implies seen2.contains(
        #[trigger] l2[j][i],
    ) by {
        if j < lines.len() {
            assert(seen.contains(lines[j][i]));
        } else if i > 0 {
            assert(walk[i] == line_cur[i - 1]);
        }
    }
}


/// The head of a chain of node indices; for the empty chain, the start.
spec fn chain_head(chain: Seq<usize>, start: usize) -> usize {
    if chain.len() == 0 {
        start
    } else {
        chain[0]
    }
}

spec fn covers(chains: Seq<Seq<usize>>, start: usize, r: usize) -> bool {
    exists|k: int| 0 <= k < chains.len() && chain_head(#[trigger] chains[k], start) == r
}

fn contains_index(v: &Vec<usize>, x: usize) -> (b: bool)
    ensures
        b == v@.contains(x),
{
    let mut i: usize = 0;
    while i < v.len()
        invariant
            i <= v@.len(),
            forall|k: int| 0 <= k < i ==> v@[k] != x,
        decreases v@.len() - i,
    {
        if v[i] == x {
            return true;
        }
        i += 1;
    }
    false
}

fn none_vec(n: usize) -> (v: Vec<Option<usize>>)
    ensures
        v@.len() == n,
        forall|i: int| 0 <= i < n ==> #[trigger] v@[i] == None::<usize>,
{
    let mut v: Vec<Option<usize>> = Vec::new();
    let mut i: usize = 0;
    while i < n
        invariant
            i <= n,
            v@.len() == i,
            forall|k: int| 0 <= k < i ==> #[trigger] v@[k] == None::<usize>,
        decreases n - i,
    {
        v.push(None);
        i += 1;
    }
    v
}

fn sink_flags(n: usize, list: &Vec<usize>) -> (flags: Vec<bool>)
    requires
        forall|k: int| 0 <= k < list@.len() ==> #[trigger] list@[k] < n,
    ensures
        flags@.len() == n,
        forall|i: int| 0 <= i < n ==> #[trigger] flags@[i] == list@.contains(i as usize),
{
    let mut flags: Vec<bool> = Vec::new();
    let mut i: usize = 0;
    while i < n
        invariant
            i <= n,
            flags@.len() == i,
            forall|k: int| 0 <= k < i ==> !(#[trigger] flags@[k]),
        decreases n - i,
    {
        flags.push(false);
        i += 1;
    }
    let mut j: usize = 0;
    while j < list.len()
        invariant
            j <= list@.len(),
            flags@.len() == n,
            forall|k: int| 0 <= k < list@.len() ==> #[trigger] list@[k] < n,
            forall|i: int|
                0 <= i < n ==> #[trigger] flags@[i] == list@.subrange(0, j as int).contains(
                    i as usize,
                ),
        decreases list@.len() - j,
    {
        let r: usize = list[j];
        let ghost before = list@.subrange(0, j as int);
        let ghost after = list@.subrange(0, j + 1);
        flags.set(r, true);
        proof {
            assert(after =~= before.push(r));
            assert forall|i: int| 0 <= i < n implies #[trigger] flags@[i] == after.contains(
                i as usize,
            ) by {
                if i == r {
                    assert(after[j as int] == r);
                } else if before.contains(i as usize) {
                    let k = choose|k: int| 0 <= k < before.len() && before[k] == i as usize;
                    assert(after[k] == i as usize);
                } else if after.contains(i as usize) {
                    let k = choose|k: int| 0 <= k < after.len() && after[k] == i as usize;
                    assert(before[k] == i as usize);
                }
            }
        }
        j += 1;
    }
    proof {
        assert(list@.subrange(0, list@.len() as int) =~= list@);
    }
    flags
}

/// Whether `next` is `cur` or one of the predecessors that lead from `cur`
/// back to the start.
fn on_chain(
    pred: &Vec<Option<usize>>,
    cur: usize,
    next: usize,
    Ghost(edges): Ghost<Seq<(usize, usize)>>,
    Ghost(start): Ghost<usize>,
    Ghost(line): Ghost<Seq<usize>>,
) -> (found: bool)
    requires
        is_line(pred@, edges, start, cur, line),
    ensures
        found == (seq![cur] + line).contains(next),
{
    let ghost walk = seq![cur] + line;
    let ghost mut i: int = 0;
    let mut ix: usize = cur;
    proof {
        reveal(is_line);
        assert(walk[0] == cur);
    }
    let mut found: bool = ix == next;
    let mut step: Option<usize> = pred[ix];
    while !found && step.is_some()
        invariant
            is_line(pred@, edges, start, cur, line),
            walk == seq![cur] + line,
            0 <= i < walk.len(),
            ix == walk[i],
            step == pred@[ix as int],
            found == (ix == next),
            forall|k: int| 0 <= k < i ==> walk[k] != next,
        decreases walk.len() - i,
    {
        proof {
            reveal(is_line);
            if i + 1 < walk.len() {
                assert(pred@[walk[i] as int] == Some(walk[i + 1]));
            } else {
                assert(walk[i] == start);
            }
        }
        ix = step.unwrap();
        proof {
            i = i + 1;
        }
        found = ix == next;
        step = pred[ix];
    }
    proof {
        reveal(is_line);
        if !found {
            if i + 1 < walk.len() {
                assert(pred@[walk[i] as int] == Some(walk[i + 1]));
            }
            assert(i + 1 == walk.len());
        }
    }
    found
}

impl LinkageTable {
    /// The document ids of the nodes, by node index.
    pub open spec fn node_ids(&self) -> Seq<Seq<char>> {
        graph_nodes(self.graph)
    }

    /// The edges as pairs of node indices, oldest first.
    pub open spec fn edges(&self) -> Seq<(usize, usize)> {
        graph_edges(self.graph)
    }

    /// The index maps each document id to the one node that carries it, and
    /// every edge joins existing nodes.
    pub open spec fn wf(&self) -> bool {
        table_wf(self.node_ids(), self.edges(), self.nodes@)
    }

    /// The edges as pairs of document ids, oldest first.
    pub open spec fn edge_ids(&self) -> Seq<(Seq<char>, Seq<char>)> {
        edge_ids_of(self.node_ids(), self.edges())
    }

    /// The paths of the document `start_id`, in the order in which the
    /// search finds them; none for a document that the table does not know.
    pub open spec fn found_paths(&self, start_id: Seq<char>) -> Seq<Seq<Seq<char>>> {
        if self.nodes@.contains_key(start_id) {
            chains_ids(
                self.node_ids(),
                found_chains(self.node_ids().len(), self.edges(), self.nodes@[start_id]),
            )
        } else {
            Seq::empty()
        }
    }

    /// `p` names, outermost first, a chain of distinct ancestors of `start`
    /// that ends in a node without parents.
    pub open spec fn is_path_of(&self, start: usize, p: Seq<Seq<char>>) -> bool {
        exists|chain: Seq<usize>|
            #[trigger] is_parent_chain(self.node_ids().len(), self.edges(), start, chain) && p
                == ids_of(self.node_ids(), chain)
    }

    /// The ids on the way from `cur` back to the start, the start left out.
    fn walk_path(
        &self,
        pred: &Vec<Option<usize>>,
        cur: usize,
        Ghost(start): Ghost<usize>,
        Ghost(line): Ghost<Seq<usize>>,
    ) -> (path: Vec<String>)
        requires
            self.wf(),
            pred@.len() == self.node_ids().len(),
            is_line(pred@, self.edges(), start, cur, line),
        ensures
            path_view(path@) == ids_of(self.node_ids(), (seq![cur] + line).drop_last()),
    {
        let ghost walk = seq![cur] + line;
        let ghost ids = self.node_ids();
        let ghost mut i: int = 0;
        let mut path: Vec<String> = Vec::new();
        let mut ix: usize = cur;
        proof {
            reveal(is_line);
            assert(walk[0] == cur);
        }
        let mut step: Option<usize> = pred[ix];
        while step.is_some()
            invariant
                self.wf(),
                ids == self.node_ids(),
                pred@.len() == ids.len(),
                is_line(pred@, self.edges(), start, cur, line),
                walk == seq![cur] + line,
                0 <= i < walk.len(),
                ix == walk[i],
                step == pred@[ix as int],
                path@.len() == i,
                forall|k: int| 0 <= k < i ==> (#[trigger] path@[k])@ == ids[walk[k] as int],
            decreases walk.len() - i,
        {
            proof {
                reveal(is_line);
                if i + 1 < walk.len() {
                    assert(pred@[walk[i] as int] == Some(walk[i + 1]));
                } else {
                    assert(walk[i] == start);
                }
            }
            let weight = graph_node_weight(&self.graph, ix).unwrap();
            path.push(weight.clone());
            ix = step.unwrap();
            proof {
                i = i + 1;
            }
            step = pred[ix];
        }
        proof {
            reveal(is_line);
            if i + 1 < walk.len() {
                assert(pred@[walk[i] as int] == Some(walk[i + 1]));
            }
            assert(i == walk.len() - 1);
            assert(path_view(path@) =~= ids_of(ids, walk.drop_last()));
        }
        path
    }

    /// Finds the folders that contain a document, as paths of document ids.
    ///
    /// The paths are those of [`LinkageTable::found_paths`]. Each path lists
    /// distinct ancestors, the outermost folder first and the
    /// folder that holds the document last; the document itself is left out.
    /// No path is given twice. A document that the table does not know has
    /// no path. A document without parents has the one empty path. Every
    /// parentless ancestor that can be reached from the document is the head
    /// of at least one path.
    ///
    /// The table must hold edges from children to parents.
    #[verifier::rlimit(30)]
    pub fn find_parent_paths(&self, start_id: &str) -> (paths: Vec<Vec<String>>)
        requires
            self.wf(),
            self.transposed,
        ensures
            !self.nodes@.contains_key(start_id@) ==> paths@.len() == 0,
            self.nodes@.contains_key(start_id@) ==> {
                let start = self.nodes@[start_id@];
                &&& forall|k: int|
                    0 <= k < paths@.len() ==> self.is_path_of(
                        start,
                        path_view((#[trigger] paths@[k])@),
                    )
                &&& forall|r: usize|
                    r < self.node_ids().len() && #[trigger] reachable(self.edges(), start, r)
                        && !has_out_edge(self.edges(), r) ==> exists|k: int|
                        0 <= k < paths@.len() && path_head(
                            path_view((#[trigger] paths@[k])@),
                            start_id@,
                        ) == self.node_ids()[r as int]
                &&& !has_out_edge(self.edges(), start) ==> paths@.len() == 1 && paths@[0]@.len()
                    == 0
            },
            forall|a: int, b: int|
                0 <= a < b < paths@.len() ==> path_view((#[trigger] paths@[a])@) != path_view(
                    (#[trigger] paths@[b])@,
                ),
            paths_view(paths@) == self.found_paths(start_id@),
    {
        let n: usize = graph_node_count(&self.graph);
        let e: usize = graph_edge_count(&self.graph);
        let start_ix: usize = match self.nodes.get(start_id) {
            Some(ix) => *ix,
            None => {
                let none: Vec<Vec<String>> = Vec::new();
                proof {
                    assert(paths_view(none@) =~= self.found_paths(start_id@));
                }
                return none;
            },
        };
        let sink_list: Vec<usize> = graph_sinks(&self.graph);
        let ghost ids = self.node_ids();
        let ghost edges = self.edges();
        proof {
            lemma_sinks(n as nat, edges);
            assert forall|k: int| 0 <= k < sink_list@.len() implies #[trigger] sink_list@[k]
                < n by {
                assert(sinks(n as nat, edges).contains(sink_list@[k]));
            }
        }
        let is_root: Vec<bool> = sink_flags(n, &sink_list);
        let mut pred: Vec<Option<usize>> = none_vec(n);
        let mut queue: Vec<usize> = Vec::new();
        queue.push(start_ix);
        let mut results: Vec<Vec<String>> = Vec::new();
        let ghost mut lines: Seq<Seq<usize>> = seq![Seq::<usize>::empty()];
        let ghost mut seen: Set<usize> = set![start_ix];
        let ghost mut done: Set<usize> = Set::empty();
        let ghost mut chains: Seq<Seq<usize>> = Seq::empty();
        let ghost mut popped: Set<Seq<usize>> = Set::empty();
        let ghost b: int = e + 1;
        let ghost target = found_chains(n as nat, edges, start_ix);
        let ghost mut fuel: int = pow(b, n as int);
        proof {
            assert(queue@ =~= seq![start_ix]);
            assert(queue@[0] == start_ix);
            lemma_track_begin(n as nat, edges, start_ix, pred@);
            lemma_start(n as nat, edges, start_ix, pred@);
            lemma_hist_start(start_ix);
            assert forall|i: int| 0 <= i < n implies #[trigger] is_root@[i] == !has_out_edge(
                edges,
                i as usize,
            ) by {
                assert(sink_list@.contains(i as usize) == sinks(n as nat, edges).contains(
                    i as usize,
                ));
            }
        }
        while queue.len() > 0
            invariant
                self.wf(),
                ids == self.node_ids(),
                edges == self.edges(),
                n == ids.len(),
                e == edges.len(),
                b == e + 1,
                start_ix < n,
                is_root@.len() == n,
                forall|i: int|
                    0 <= i < n ==> #[trigger] is_root@[i] == !has_out_edge(edges, i as usize),
                core_inv(n as nat, edges, start_ix, pred@, queue@, lines, seen),
                pred@.len() == n,
                queue@.len() == lines.len(),
                seen.contains(start_ix),
                forall|v: usize| seen.contains(v) ==> done.contains(v) || queue@.contains(v),
                forall|v: usize, t: usize|
                    done.contains(v) && #[trigger] edges.contains((v, t)) ==> seen.contains(t),
                hist_inv(queue@, lines, popped),
                tracks(target, edges, n as nat, pred@, queue@, chains, fuel),
                fuel >= stack_weight(lines, b, n as int),
                chains.no_duplicates(),
                forall|k: int|
                    0 <= k < chains.len() ==> popped.contains((#[trigger] chains[k]).push(start_ix)),
                chains.len() == results@.len(),
                forall|k: int|
                    0 <= k < chains.len() ==> is_parent_chain(
                        n as nat,
                        edges,
                        start_ix,
                        #[trigger] chains[k],
                    ) && path_view(results@[k]@) == ids_of(ids, chains[k]),
                forall|r: usize|
                    done.contains(r) && !has_out_edge(edges, r) ==> #[trigger] covers(
                        chains,
                        start_ix,
                        r,
                    ),
                !has_out_edge(edges, start_ix) ==> (queue@ == seq![start_ix] && results@.len()
                    == 0) || (queue@.len() == 0 && results@.len() == 1 && results@[0]@.len()
                    == 0),
            decreases stack_weight(lines, b, n as int),
        {
            let ghost line_cur = lines.last();
            let ghost rest_lines = lines.drop_last();
            let ghost weight_before = stack_weight(lines, b, n as int);
            let ghost queue_before = queue@;
            let ghost chains_before = chains;
            let ghost popped_before = popped;
            let ghost pred_before = pred@;
            proof {
                lemma_take(n as nat, edges, start_ix, pred@, queue@, lines, seen);
                lemma_hist_take(queue@, lines, popped);
                lemma_weight_nonneg(rest_lines, b, n as int);
            }
            let cur: usize = queue.pop().unwrap();
            let ghost walk_cur = seq![cur] + line_cur;
            let ghost queue_rest = queue@;
            proof {
                lines = rest_lines;
                popped = popped.insert(walk_cur);
                assert(queue@ =~= queue_before.drop_last());
                lemma_line_bound(pred@, edges, start_ix, cur, line_cur);
                lemma_walk_of_line(pred@, edges, start_ix, cur, line_cur, n as nat);
                assert(walk_cur[0] == cur);
                assert(queue_before.last() == cur);
            }
            if is_root[cur] {
                let path = self.walk_path(&pred, cur, Ghost(start_ix), Ghost(line_cur));
                results.push(path);
                proof {
                    let chain = walk_cur.drop_last();
                    lemma_record(n as nat, edges, start_ix, pred@, cur, line_cur);
                    lemma_walk_ends(pred@, edges, start_ix, cur, line_cur);
                    assert(chain.push(start_ix) =~= walk_cur);
                    assert forall|k: int| 0 <= k < chains.len() implies chains[k] != chain by {
                        assert(popped_before.contains(chains[k].push(start_ix)));
                    }
                    chains = chains.push(chain);
                    assert forall|a: int, c: int|
                        0 <= a < chains.len() && 0 <= c < chains.len() && a != c implies chains[a]
                        != chains[c] by {
                        if a < chains_before.len() && c < chains_before.len() {
                            assert(chains_before[a] != chains_before[c]);
                        }
                    }
                    assert forall|k: int| 0 <= k < chains.len() implies popped.contains(
                        (#[trigger] chains[k]).push(start_ix),
                    ) by {
                        if k < chains_before.len() {
                            assert(popped_before.contains(chains_before[k].push(start_ix)));
                        }
                    }
                    assert(chain_head(chains[chains.len() - 1], start_ix) == cur);
                    assert(covers(chains, start_ix, cur));
                    assert forall|r: usize|
                        done.contains(r) && !has_out_edge(edges, r) implies #[trigger] covers(
                        chains,
                        start_ix,
                        r,
                    ) by {
                        lemma_covers_push(chains_before, chain, start_ix, r);
                    }
                    if !has_out_edge(edges, start_ix) {
                        assert(cur == start_ix);
                        assert(path_view(path@).len() == 0);
                    }
                }
            }
            proof {
                assert forall|k: int| 0 <= k < chains.len() implies popped.contains(
                    (#[trigger] chains[k]).push(start_ix),
                ) by {
                    if k < chains_before.len() {
                        assert(popped_before.contains(chains_before[k].push(start_ix)));
                    }
                }
                assert forall|v: usize| seen.contains(v) implies done.contains(v)
                    || queue@.contains(v) || v == cur by {
                    if !done.contains(v) && v != cur {
                        assert(queue_before.contains(v));
                        let j = choose|j: int| 0 <= j < queue_before.len() && queue_before[j] == v;
                        assert(queue@[j] == v);
                    }
                }
            }
            let nbrs: Vec<usize> = graph_neighbors(&self.graph, cur);
            let mut idx: usize = 0;
            let ghost mut pushed: int = 0;
            let ghost unit = pow(b, n - line_cur.len() - 1);
            let ghost weight_rest = stack_weight(rest_lines, b, n as int);
            proof {
                lemma_out_targets_hold(edges, cur);
                lemma_pow_positive(b, n - line_cur.len() - 1);
                assert(nbrs@.subrange(0, 0).len() == 0);
            }
            while idx < nbrs.len()
                invariant
                    line_cur.len() + 1 <= n,
                    (pred@, queue@) == expand(
                        pred_before,
                        queue_rest,
                        cur,
                        nbrs@.subrange(0, idx as int),
                        n as nat,
                    ),
                    self.wf(),
                    ids == self.node_ids(),
                    edges == self.edges(),
                    n == ids.len(),
                    start_ix < n,
                    cur < n,
                    nbrs@ == out_targets(edges, cur),
                    forall|t: usize| #[trigger]
                        out_targets(edges, cur).contains(t) <==> edges.contains((cur, t)),
                    idx <= nbrs@.len(),
                    core_inv(n as nat, edges, start_ix, pred@, queue@, lines, seen),
                    pred@.len() == n,
                    queue@.len() == lines.len(),
                    seen.contains(start_ix),
                    hist_inv(queue@, lines, popped),
                    popped.contains(walk_cur),
                    no_child_taken(popped, walk_cur),
                    is_line(pred@, edges, start_ix, cur, line_cur),
                    walk_cur == seq![cur] + line_cur,
                    forall|j: int| 0 <= j < lines.len() ==> is_suffix(#[trigger] lines[j], walk_cur),
                    seen.contains(cur),
                    forall|i: int|
                        0 <= i < line_cur.len() ==> seen.contains(#[trigger] line_cur[i]),
                    forall|v: usize|
                        seen.contains(v) ==> done.contains(v) || queue@.contains(v) || v == cur,
                    forall|v: usize, t: usize|
                        done.contains(v) && #[trigger] edges.contains((v, t)) ==> seen.contains(t),
                    forall|k: int| 0 <= k < idx ==> seen.contains(#[trigger] nbrs@[k]),
                    0 <= pushed <= idx,
                    unit == pow(b, n - line_cur.len() - 1),
                    stack_weight(lines, b, n as int) == weight_rest + pushed * unit,
                    pushed == 0 ==> queue@ == queue_rest,
                decreases nbrs@.len() - idx,
            {
                let next: usize = nbrs[idx];
                let ghost queue_here = queue@;
                proof {
                    lemma_walk_of_line(pred@, edges, start_ix, cur, line_cur, n as nat);
                    lemma_expand_next(pred_before, queue_rest, cur, nbrs@, idx as int, n as nat);
                    assert(out_targets(edges, cur).contains(next));
                    assert(edges.contains((cur, next)));
                    let k = choose|k: int| 0 <= k < edges.len() && edges[k] == (cur, next);
                    assert(edges[k].1 < n);
                }
                if !contains_index(&queue, next) {
                    let found = on_chain(
                        &pred,
                        cur,
                        next,
                        Ghost(edges),
                        Ghost(start_ix),
                        Ghost(line_cur),
                    );
                    if !found {
                        proof {
                            lemma_install(
                                n as nat,
                                edges,
                                start_ix,
                                pred@,
                                queue@,
                                lines,
                                seen,
                                cur,
                                line_cur,
                                next,
                            );
                            lemma_weight_push(lines, walk_cur, b, n as int);
                            lemma_hist_push(queue@, lines, popped, walk_cur, next);
                        }
                        pred.set(next, Some(cur));
                        queue.push(next);
                        proof {
                            assert(weight_rest + pushed * unit + unit == weight_rest + (pushed + 1)
                                * unit) by (nonlinear_arith);
                            lines = lines.push(walk_cur);
                            seen = seen.insert(next);
                            pushed = pushed + 1;
                            assert(queue@[queue@.len() - 1] == next);
                            assert forall|v: usize| seen.contains(v) implies done.contains(v)
                                || queue@.contains(v) || v == cur by {
                                if v != next && v != cur && !done.contains(v) {
                                    assert(queue_here.contains(v));
                                    let j = choose|j: int|
                                        0 <= j < queue_here.len() && queue_here[j] == v;
                                    assert(queue@[j] == v);
                                }
                            }
                        }
                    } else {
                        proof {
                            let i = choose|i: int| 0 <= i < walk_cur.len() && walk_cur[i] == next;
                            if i > 0 {
                                assert(line_cur[i - 1] == next);
                            }
                        }
                    }
                } else {
                    proof {
                        let j = choose|j: int| 0 <= j < queue@.len() && queue@[j] == next;
                        lemma_queue_seen(n as nat, edges, start_ix, pred@, queue@, lines, seen, j);
                    }
                }
                idx += 1;
            }
            proof {
                let done_before = done;
                done = done.insert(cur);
                assert forall|v: usize, t: usize|
                    done.contains(v) && #[trigger] edges.contains((v, t)) implies seen.contains(
                    t,
                ) by {
                    if v == cur {
                        assert(out_targets(edges, cur).contains(t));
                        let k = choose|k: int| 0 <= k < nbrs@.len() && nbrs@[k] == t;
                        assert(seen.contains(nbrs@[k]));
                    }
                }
                assert(n - line_cur.len() >= 1);
                assert(pow(b, n - line_cur.len()) == b * unit);
                assert(nbrs@.len() <= e);
                assert(pushed * unit < b * unit) by (nonlinear_arith)
                    requires
                        0 <= pushed < b,
                        unit >= 1,
                ;
                assert(stack_weight(lines, b, n as int) < weight_before);
                assert(weight_before >= 1);
                assert(nbrs@.subrange(0, nbrs@.len() as int) =~= nbrs@);
                lemma_track_step(
                    target,
                    edges,
                    n as nat,
                    pred_before,
                    queue_before,
                    chains_before,
                    fuel,
                    pred@,
                    queue@,
                    chains,
                );
                fuel = fuel - 1;
                if !has_out_edge(edges, start_ix) {
                    assert(cur == start_ix);
                    assert(nbrs@.len() == 0);
                }
            }
        }
        proof {
            lemma_track_end(target, edges, n as nat, pred@, queue@, chains, fuel);
            assert(paths_view(results@) =~= chains_ids(ids, chains));
            assert forall|a: int, c: int| 0 <= a < c < results@.len() implies path_view(
                (#[trigger] results@[a])@,
            ) != path_view((#[trigger] results@[c])@) by {
                if ids_of(ids, chains[a]) == ids_of(ids, chains[c]) {
                    lemma_chain_members(n as nat, edges, start_ix, chains[a]);
                    lemma_chain_members(n as nat, edges, start_ix, chains[c]);
                    lemma_chain_by_ids(ids, self.nodes@, chains[a], chains[c]);
                }
            }
            assert forall|k: int| 0 <= k < results@.len() implies self.is_path_of(
                start_ix,
                path_view((#[trigger] results@[k])@),
            ) by {
                assert(is_parent_chain(n as nat, edges, start_ix, chains[k]));
            }
            assert forall|r: usize|
                r < n && #[trigger] reachable(edges, start_ix, r) && !has_out_edge(
                    edges,
                    r,
                ) implies exists|k: int|
                0 <= k < results@.len() && path_head(
                    path_view((#[trigger] results@[k])@),
                    start_id@,
                ) == ids[r as int] by {
                assert forall|v: usize| seen.contains(v) implies done.contains(v) by {
                    if queue@.contains(v) {
                    }
                }
                lemma_all_reached(edges, seen, done, start_ix, r);
                assert(covers(chains, start_ix, r));
                let k = choose|k: int|
                    0 <= k < chains.len() && chain_head(#[trigger] chains[k], start_ix) == r;
                assert(path_view(results@[k]@) == ids_of(ids, chains[k]));
            }
        }
        results
    }
}


/// The node that carries `id`; a new node where there was none.
fn node_for(
    graph: &mut petgraph::graph::Graph<String, (), petgraph::Directed, u32>,
    nodes: &mut StringHashMap<usize>,
    id: &String,
) -> (ix: usize)
    requires
        table_wf(graph_nodes(*old(graph)), graph_edges(*old(graph)), old(nodes)@),
        graph_nodes(*old(graph)).len() < u32::MAX,
    ensures
        table_wf(graph_nodes(*final(graph)), graph_edges(*final(graph)), final(nodes)@),
        graph_edges(*final(graph)) == graph_edges(*old(graph)),
        ix < graph_nodes(*final(graph)).len(),
        graph_nodes(*final(graph))[ix as int] == id@,
        old(nodes)@.contains_key(id@) ==> graph_nodes(*final(graph)) == graph_nodes(*old(graph))
            && final(nodes)@ == old(nodes)@,
        !old(nodes)@.contains_key(id@) ==> graph_nodes(*final(graph)) == graph_nodes(
            *old(graph),
        ).push(id@) && final(nodes)@ == old(nodes)@.insert(id@, ix),
{
    let found: Option<usize> = match nodes.get(id.as_str()) {
        Some(ix) => Some(*ix),
        None => None,
    };
    match found {
        Some(ix) => ix,
        None => {
            let ghost ids = graph_nodes(*graph);
            let ix: usize = graph_add_node(graph, id.clone());
            nodes.insert(id.clone(), ix);
            proof {
                let ids2 = graph_nodes(*graph);
                assert forall|i: int| 0 <= i < ids2.len() implies nodes@.contains_key(
                    #[trigger] ids2[i],
                ) && nodes@[ids2[i]] == i by {
                    if i < ids.len() {
                        assert(old(nodes)@.contains_key(ids[i]));
                    }
                }
            }
            ix
        },
    }
}

/// Adding a node leaves the ids of the edges as they were.
proof fn lemma_edge_ids_grow(ids: Seq<Seq<char>>, ids2: Seq<Seq<char>>, edges: Seq<(usize, usize)>)
    requires
        ids.len() <= ids2.len(),
        forall|i: int| 0 <= i < ids.len() ==> ids2[i] == ids[i],
        forall|k: int|
            0 <= k < edges.len() ==> (#[trigger] edges[k]).0 < ids.len() && edges[k].1 < ids.len(),
    ensures
        edge_ids_of(ids2, edges) == edge_ids_of(ids, edges),
{
    assert(edge_ids_of(ids2, edges) =~= edge_ids_of(ids, edges));
}

/// Builds the table of the links of one account.
///
/// If `transposed` is false, edges lead from parents to children; if true,
/// from children to parents. The table has one node for each document that
/// a link of the account names and one edge for each link, in the order of
/// the link rows.
pub fn load_linkage_table(store: &MirrorStore, acct_id: i32, transposed: bool) -> (r: Result<
    LinkageTable,
    LinkageError,
>)
    ensures
        match r {
            Ok(table) => {
                let rows = store@.links.filter(link_of_account(acct_id));
                &&& rows.len() <= MAX_TABLE_LINKS
                &&& table.wf()
                &&& table.account_id == acct_id
                &&& table.transposed == transposed
                &&& table.edge_ids() == oriented(rows, transposed)
                &&& table.node_ids() == mentioned_ids(rows)
                &&& forall|id: Seq<char>| #[trigger]
                    table.nodes@.contains_key(id) <==> mentions(rows, id)
            },
            Err(e) => store@.links.filter(link_of_account(acct_id)).len() > MAX_TABLE_LINKS,
        },
{
    let links: Vec<Link> = store.links_of_account(acct_id);
    if links.len() > MAX_TABLE_LINKS {
        return Err(LinkageError::TooManyLinks);
    }
    let ghost rows = rows_of(links@);
    let mut graph = graph_new();
    let mut nodes: StringHashMap<usize> = StringHashMap::new();
    let mut i: usize = 0;
    proof {
        assert(edge_ids_of(graph_nodes(graph), graph_edges(graph)) =~= oriented(
            rows.subrange(0, 0),
            transposed,
        ));
        assert(rows.subrange(0, 0).len() == 0);
    }
    while i < links.len()
        invariant
            graph_nodes(graph) == mentioned_ids(rows.subrange(0, i as int)),
            i <= links@.len(),
            links@.len() <= MAX_TABLE_LINKS,
            rows == rows_of(links@),
            table_wf(graph_nodes(graph), graph_edges(graph), nodes@),
            graph_nodes(graph).len() <= 2 * i,
            graph_edges(graph).len() == i,
            edge_ids_of(graph_nodes(graph), graph_edges(graph)) == oriented(
                rows.subrange(0, i as int),
                transposed,
            ),
            forall|id: Seq<char>| #[trigger]
                nodes@.contains_key(id) <==> mentions(rows.subrange(0, i as int), id),
        decreases links@.len() - i,
    {
        let link = &links[i];
        let ghost ids0 = graph_nodes(graph);
        let ghost edges0 = graph_edges(graph);
        let ghost index0 = nodes@;
        proof {
            lemma_index_places(ids0, edges0, index0);
        }
        let pix: usize = node_for(&mut graph, &mut nodes, &link.parent_id);
        let ghost ids1 = graph_nodes(graph);
        proof {
            lemma_index_places(ids1, graph_edges(graph), nodes@);
        }
        let cix: usize = node_for(&mut graph, &mut nodes, &link.child_id);
        let ghost ids2 = graph_nodes(graph);
        if transposed {
            graph_add_edge(&mut graph, cix, pix);
        } else {
            graph_add_edge(&mut graph, pix, cix);
        }
        proof {
            let edges2 = graph_edges(graph);
            let upto = rows.subrange(0, i as int);
            let next = rows.subrange(0, i + 1);
            assert(next[i as int] == rows[i as int]);
            assert(rows[i as int] == links@[i as int]@);
            assert(next.drop_last() =~= upto);
            assert(next.last() == rows[i as int]);
            assert(ids1 == with_id(ids0, rows[i as int].parent_id));
            assert(ids2 == with_id(ids1, rows[i as int].child_id));
            assert(ids2[pix as int] == ids1[pix as int]);
            lemma_edge_ids_grow(ids0, ids2, edges0);
            assert(edge_ids_of(ids2, edges2) =~= oriented(next, transposed)) by {
                assert forall|k: int| 0 <= k < edges2.len() implies edge_ids_of(ids2, edges2)[k]
                    == oriented(next, transposed)[k] by {
                    if k < i {
                        assert(edge_ids_of(ids2, edges0)[k] == oriented(upto, transposed)[k]);
                        assert(upto[k] == next[k]);
                    }
                }
            }
            assert forall|id: Seq<char>| #[trigger] nodes@.contains_key(id) <==> mentions(
                next,
                id,
            ) by {
                if nodes@.contains_key(id) {
                    if index0.contains_key(id) {
                        assert(mentions(upto, id));
                        let k = choose|k: int|
                            0 <= k < upto.len() && ((#[trigger] upto[k]).parent_id == id
                                || upto[k].child_id == id);
                        assert(next[k] == upto[k]);
                    } else {
                        assert(next[i as int].parent_id == id || next[i as int].child_id == id);
                    }
                }
                if mentions(next, id) {
                    let k = choose|k: int|
                        0 <= k < next.len() && ((#[trigger] next[k]).parent_id == id
                            || next[k].child_id == id);
                    if k < i {
                        assert(upto[k] == next[k]);
                        assert(mentions(upto, id));
                    }
                }
            }
        }
        i += 1;
    }
    proof {
        assert(rows.subrange(0, links@.len() as int) =~= rows);
    }
    Ok(LinkageTable { account_id: acct_id, transposed, graph, nodes })
}


/// A path of a document names no folder twice and does not name the
/// document itself.
pub proof fn lemma_path_is_simple(table: LinkageTable, start: usize, p: Seq<Seq<char>>)
    requires
        table.wf(),
        table.is_path_of(start, p),
    ensures
        p.no_duplicates(),
        start < table.node_ids().len(),
        !p.contains(table.node_ids()[start as int]),
{
    let ids = table.node_ids();
    let chain = choose|chain: Seq<usize>|
        #[trigger] is_parent_chain(ids.len(), table.edges(), start, chain) && p == ids_of(
            ids,
            chain,
        );
    let walk = chain.push(start);
    assert(walk[chain.len() as int] == start);
    assert forall|i: int| 0 <= i < chain.len() implies chain[i] < ids.len() && chain[i]
        != start by {
        assert(walk[i] == chain[i]);
        assert(walk[i] < ids.len());
    }
    assert forall|i: int, j: int| 0 <= i < p.len() && 0 <= j < p.len() && i != j implies p[i]
        != p[j] by {
        assert(walk[i] == chain[i] && walk[j] == chain[j]);
        assert(table.nodes@[ids[chain[i] as int]] == chain[i]);
        assert(table.nodes@[ids[chain[j] as int]] == chain[j]);
    }
    if p.contains(ids[start as int]) {
        let i = choose|i: int| 0 <= i < p.len() && p[i] == ids[start as int];
        assert(table.nodes@[ids[chain[i] as int]] == chain[i]);
        assert(table.nodes@[ids[start as int]] == start);
    }
}


/// A table has no edge twice: the links of an account are distinct rows, so
/// they differ in the parent or in the child.
pub proof fn lemma_no_duplicate_edges(links: Seq<LinkData>, account_id: i32, transposed: bool)
    requires
        distinct_by(links, link_key()),
    ensures
        oriented(links.filter(link_of_account(account_id)), transposed).no_duplicates(),
{
    let pred = link_of_account(account_id);
    let rows = links.filter(pred);
    let out = oriented(rows, transposed);
    lemma_filter_distinct(links, pred, link_key());
    lemma_filter_members(links, pred);
    assert forall|i: int, j: int| 0 <= i < out.len() && 0 <= j < out.len() && i != j implies out[i]
        != out[j] by {
        assert(rows.contains(rows[i]) && rows.contains(rows[j]));
        assert(pred(rows[i]) && pred(rows[j]));
        if i < j {
            assert(link_key()(rows[i]) != link_key()(rows[j]));
        } else {
            assert(link_key()(rows[j]) != link_key()(rows[i]));
        }
    }
}

} // verus!
