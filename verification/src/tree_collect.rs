//! Collecting, in a tree, the nodes whose mixed value passes a threshold.

use orx_parallel::{par_recursive, ParRec};
use rayon::iter::{IntoParallelRefIterator, ParallelIterator};
use vstd::prelude::*;
use crate::workload::{callable, deterministic};
use crate::method::Method;
use crate::order::permutes;

verus! {

/// The seed of the root of the benchmark's tree.
pub const ROOT_SEED: u64 = 42;

/// The mixing rounds that make a node's value from its seed.
pub const VALUE_ROUNDS: u64 = 2;

/// The modulus of the mixed value that is compared with the threshold.
pub const THRESHOLD_MODULUS: u64 = 10_000;

/// A node of the tree: a value and the children below it.
pub struct Node {
    pub value: u64,
    pub children: Vec<Node>,
}

/// `node` is a tree that `build_tree` makes: its value is what `mix` gives
/// for `seed`; below it, `fan_out` children (none at depth 0), the `i`-th
/// built the same way one level shallower from `seed ^ i`.
pub open spec fn built<M: Fn(u64, u64) -> u64>(
    node: Node,
    depth: nat,
    fan_out: nat,
    seed: u64,
    mix: &M,
) -> bool
    decreases depth,
{
    &&& call_ensures(*mix, (VALUE_ROUNDS, seed), node.value)
    &&& node.children.len() == if depth == 0 { 0 } else { fan_out }
    &&& depth > 0 ==> forall|i: int|
        0 <= i < fan_out ==> built(
            #[trigger] node.children@[i],
            (depth - 1) as nat,
            fan_out,
            seed ^ (i as u64),
            mix,
        )
}

/// Builds the tree of the given depth and fan-out from `seed`.
pub fn build_tree<M: Fn(u64, u64) -> u64>(depth: usize, fan_out: usize, seed: u64, mix: &M) -> (node: Node)
    requires
        callable(mix),
    ensures
        built(node, depth as nat, fan_out as nat, seed, mix),
    decreases depth,
{
    let mut children: Vec<Node> = Vec::new();
    if depth > 0 {
        for index in 0..fan_out
            invariant
                depth > 0,
                callable(mix),
                children.len() == index,
                forall|i: int| 0 <= i < index ==> built(
                    #[trigger] children@[i],
                    (depth - 1) as nat,
                    fan_out as nat,
                    seed ^ (i as u64),
                    mix,
                ),
        {
            let child = build_tree(depth - 1, fan_out, seed ^ index as u64, mix);
            children.push(child);
        }
    }
    let value = mix(VALUE_ROUNDS, seed);
    Node { value, children }
}


/// The nodes of the tree below and including `node`, in pre-order: the node,
/// then the nodes of each child's tree in turn.
pub open spec fn preorder(node: Node) -> Seq<Node>
    decreases node,
{
    seq![node] + preorder_all(node.children@)
}

/// The pre-order nodes of the trees of `nodes`, one tree after the other.
pub open spec fn preorder_all(nodes: Seq<Node>) -> Seq<Node>
    decreases nodes,
{
    if nodes.len() == 0 {
        Seq::empty()
    } else {
        preorder_all(nodes.drop_last()) + preorder(nodes.last())
    }
}


/// `keep` may be what the threshold test says of `node`: whether a value that
/// `mix` gives for the node's value with `weight`, modulo `THRESHOLD_MODULUS`,
/// is below `threshold`.
pub open spec fn selected<M: Fn(u64, u64) -> u64>(
    mix: &M,
    weight: u64,
    threshold: u64,
    node: Node,
    keep: bool,
) -> bool {
    exists|v: u64| call_ensures(*mix, (weight, node.value), v) && keep == (v % THRESHOLD_MODULUS < threshold)
}

/// The nodes whose flag in `keep` is set, in their order.
pub open spec fn select(nodes: Seq<Node>, keep: Seq<bool>) -> Seq<Node>
    decreases nodes.len(),
{
    if nodes.len() == 0 || keep.len() != nodes.len() {
        Seq::empty()
    } else {
        let rest = select(nodes.drop_last(), keep.drop_last());
        if keep.last() {
            rest.push(nodes.last())
        } else {
            rest
        }
    }
}

/// `keep` holds, for each of `nodes`, what the threshold test may say of it.
pub open spec fn selection<M: Fn(u64, u64) -> u64>(
    mix: &M,
    weight: u64,
    threshold: u64,
    nodes: Seq<Node>,
    keep: Seq<bool>,
) -> bool {
    &&& keep.len() == nodes.len()
    &&& forall|i: int| 0 <= i < nodes.len() ==> selected(mix, weight, threshold, nodes[i], #[trigger] keep[i])
}

/// `out` is the tree's nodes that pass the threshold test, in pre-order.
pub open spec fn collects<M: Fn(u64, u64) -> u64>(
    mix: &M,
    weight: u64,
    threshold: u64,
    root: Node,
    out: Seq<Node>,
) -> bool {
    exists|keep: Seq<bool>|
        #![trigger select(preorder(root), keep)]
        selection(mix, weight, threshold, preorder(root), keep) && out == select(preorder(root), keep)
}

/// The nodes that the references point to.
pub open spec fn targets(refs: Seq<&Node>) -> Seq<Node> {
    refs.map_values(|r: &Node| *r)
}

/// Selecting from two stretches one after the other selects from each.
pub proof fn lemma_select_append(a: Seq<Node>, ka: Seq<bool>, b: Seq<Node>, kb: Seq<bool>)
    requires
        ka.len() == a.len(),
        kb.len() == b.len(),
    ensures
        select(a + b, ka + kb) == select(a, ka) + select(b, kb),
    decreases b.len(),
{
    if b.len() == 0 {
        assert(a + b =~= a);
        assert(ka + kb =~= ka);
        assert(select(a, ka) + select(b, kb) =~= select(a, ka));
    } else {
        lemma_select_append(a, ka, b.drop_last(), kb.drop_last());
        assert((a + b).drop_last() =~= a + b.drop_last());
        assert((ka + kb).drop_last() =~= ka + kb.drop_last());
        if kb.last() {
            assert(select(a, ka) + select(b, kb) =~= (select(a, ka) + select(b.drop_last(), kb.drop_last())).push(b.last()));
        }
    }
}

/// Selections of two stretches make a selection of both.
proof fn lemma_selection_append<M: Fn(u64, u64) -> u64>(
    mix: &M,
    weight: u64,
    threshold: u64,
    a: Seq<Node>,
    ka: Seq<bool>,
    b: Seq<Node>,
    kb: Seq<bool>,
)
    requires
        selection(mix, weight, threshold, a, ka),
        selection(mix, weight, threshold, b, kb),
    ensures
        selection(mix, weight, threshold, a + b, ka + kb),
{
    assert forall|i: int| 0 <= i < (a + b).len() implies selected(mix, weight, threshold, (a + b)[i], #[trigger] (ka + kb)[i]) by {
        if i < a.len() {
            assert(selected(mix, weight, threshold, a[i], ka[i]));
        } else {
            assert(selected(mix, weight, threshold, b[i - a.len()], kb[i - a.len()]));
        }
    }
}

/// The threshold test: whether `mix` of the node's value with `weight`,
/// modulo `THRESHOLD_MODULUS`, is below `threshold`.
pub fn matches<M: Fn(u64, u64) -> u64>(node: &Node, threshold: u64, weight: u64, mix: &M) -> (keep: bool)
    requires
        callable(mix),
    ensures
        selected(mix, weight, threshold, *node, keep),
{
    let node_value = mix(weight, node.value);
    node_value % THRESHOLD_MODULUS < threshold
}

/// Appends to `nodes`, in pre-order, the nodes of the tree of `node` that
/// pass the threshold test.
pub fn collect_seq<'a, M: Fn(u64, u64) -> u64>(
    node: &'a Node,
    threshold: u64,
    weight: u64,
    mix: &M,
    nodes: &mut Vec<&'a Node>,
)
    requires
        callable(mix),
    ensures
        exists|out: Seq<Node>|
            collects(mix, weight, threshold, *node, out) && targets(final(nodes)@) == targets(old(nodes)@) + out,
    decreases node,
{
    let ghost start = targets(nodes@);
    let keep_node = matches(node, threshold, weight, mix);
    if keep_node {
        nodes.push(node);
    }
    let ghost mut keep: Seq<bool> = seq![keep_node];
    proof {
        assert(targets(nodes@) =~= start + select(seq![*node], keep)) by {
            reveal_with_fuel(select, 2);
            assert(seq![*node].drop_last() =~= Seq::<Node>::empty());
        }
        assert(preorder_all(node.children@.take(0)) =~= Seq::<Node>::empty()) by {
            assert(node.children@.take(0) =~= Seq::<Node>::empty());
        }
        assert(seq![*node] + preorder_all(node.children@.take(0)) =~= seq![*node]);
    }
    let mut i: usize = 0;
    while i < node.children.len()
        invariant
            callable(mix),
            i <= node.children.len(),
            selection(mix, weight, threshold, seq![*node] + preorder_all(node.children@.take(i as int)), keep),
            targets(nodes@) == start + select(seq![*node] + preorder_all(node.children@.take(i as int)), keep),
        decreases node.children.len() - i,
    {
        let ghost before = targets(nodes@);
        let ghost covered = seq![*node] + preorder_all(node.children@.take(i as int));
        let child = &node.children[i];
        proof {
            assert(decreases_to!(node.children => node.children[i as int]));
        }
        collect_seq(child, threshold, weight, mix, nodes);
        proof {
            let out = choose|out: Seq<Node>|
                collects(mix, weight, threshold, *child, out) && targets(nodes@) == before + out;
            let child_keep = choose|k: Seq<bool>|
                #![trigger select(preorder(*child), k)]
                selection(mix, weight, threshold, preorder(*child), k) && out == select(preorder(*child), k);
            lemma_select_append(covered, keep, preorder(*child), child_keep);
            lemma_selection_append(mix, weight, threshold, covered, keep, preorder(*child), child_keep);
            assert(node.children@.take(i + 1).drop_last() =~= node.children@.take(i as int));
            assert(preorder_all(node.children@.take(i + 1)) == preorder_all(node.children@.take(i as int)) + preorder(*child));
            assert(seq![*node] + preorder_all(node.children@.take(i + 1)) =~= covered + preorder(*child));
            keep = keep + child_keep;
        }
        i = i + 1;
    }
    proof {
        assert(node.children@.take(node.children.len() as int) =~= node.children@);
        assert(preorder(*node) == seq![*node] + preorder_all(node.children@));
        assert(collects(mix, weight, threshold, *node, select(preorder(*node), keep)));
    }
}


/// `out` is the nodes of the trees of `nodes`, one tree after the other,
/// that pass the threshold test, in pre-order.
pub open spec fn collects_all<M: Fn(u64, u64) -> u64>(
    mix: &M,
    weight: u64,
    threshold: u64,
    nodes: Seq<Node>,
    out: Seq<Node>,
) -> bool {
    exists|keep: Seq<bool>|
        #![trigger select(preorder_all(nodes), keep)]
        selection(mix, weight, threshold, preorder_all(nodes), keep) && out == select(preorder_all(nodes), keep)
}

/// Collections from each tree, one after the other, make a collection from
/// all of them.
proof fn lemma_collects_all<M: Fn(u64, u64) -> u64>(
    mix: &M,
    weight: u64,
    threshold: u64,
    nodes: Seq<Node>,
    outs: Seq<Seq<Node>>,
)
    requires
        outs.len() == nodes.len(),
        forall|i: int| 0 <= i < nodes.len() ==> collects(mix, weight, threshold, nodes[i], #[trigger] outs[i]),
    ensures
        collects_all(mix, weight, threshold, nodes, outs.flatten()),
    decreases nodes.len(),
{
    if nodes.len() == 0 {
        assert(outs =~= Seq::<Seq<Node>>::empty());
        let keep = Seq::<bool>::empty();
        assert(select(preorder_all(nodes), keep) =~= Seq::<Node>::empty());
        assert(selection(mix, weight, threshold, preorder_all(nodes), keep));
    } else {
        let (front, back) = (nodes.drop_last(), outs.drop_last());
        assert forall|i: int| 0 <= i < front.len() implies collects(mix, weight, threshold, front[i], #[trigger] back[i]) by {
            assert(collects(mix, weight, threshold, nodes[i], outs[i]));
        }
        lemma_collects_all(mix, weight, threshold, front, back);
        let keep = choose|keep: Seq<bool>|
            #![trigger select(preorder_all(front), keep)]
            selection(mix, weight, threshold, preorder_all(front), keep) && back.flatten() == select(preorder_all(front), keep);
        let last = nodes.last();
        assert(collects(mix, weight, threshold, last, outs.last()));
        let last_keep = choose|k: Seq<bool>|
            #![trigger select(preorder(last), k)]
            selection(mix, weight, threshold, preorder(last), k) && outs.last() == select(preorder(last), k);
        lemma_select_append(preorder_all(front), keep, preorder(last), last_keep);
        lemma_selection_append(mix, weight, threshold, preorder_all(front), keep, preorder(last), last_keep);
        assert(outs =~= back.push(outs.last()));
        back.lemma_flatten_push(outs.last());
        assert(select(preorder_all(nodes), keep + last_keep) == outs.flatten());
    }
}

/// The targets of references, one stretch after another, are the targets of
/// each stretch.
proof fn lemma_targets_append(a: Seq<&Node>, b: Seq<&Node>)
    ensures
        targets(a + b) == targets(a) + targets(b),
{
    assert(targets(a + b) =~= targets(a) + targets(b));
}

/// The views of vectors of references.
pub open spec fn ref_views<'a>(parts: Seq<Vec<&'a Node>>) -> Seq<Seq<&'a Node>> {
    parts.map_values(|p: Vec<&'a Node>| p@)
}

/// Appends `right` to `left`, as the reduction of the rayon collection does.
pub fn append_nodes<'a>(left: Vec<&'a Node>, right: Vec<&'a Node>) -> (joined: Vec<&'a Node>)
    ensures
        joined@ == left@ + right@,
{
    let mut left = left;
    let mut right = right;
    left.append(&mut right);
    left
}

/// rayon's `par_iter` over the children, `map` with `collect`, then `reduce`
/// with `Vec::new` and `append_nodes`: the vectors that `collect` returns for
/// the children, concatenated in the children's order (the reduction of an
/// indexed parallel iterator joins neighbouring pieces, left before right,
/// and `append_nodes` is associative with the empty vector as identity). Each
/// call of `collect` is believed to meet its own contract.
#[verifier::external_body]
fn rayon_collect_children<'a, G>(children: &'a Vec<Node>, collect: G) -> (nodes: Vec<&'a Node>)
    where
        G: Fn(&'a Node) -> Vec<&'a Node> + Sync + Send,
    requires
        forall|i: int| 0 <= i < children.len() ==> call_requires(collect, (&children@[i],)),
    ensures
        concatenates(collect, children@, nodes@),
{
    children.par_iter().map(collect).reduce(Vec::new, append_nodes)
}

/// `nodes` are the vectors that `collect` returned for the children,
/// concatenated in the children's order.
pub open spec fn concatenates<'a, G: Fn(&'a Node) -> Vec<&'a Node>>(
    collect: G,
    children: Seq<Node>,
    nodes: Seq<&'a Node>,
) -> bool {
    exists|parts: Seq<Vec<&'a Node>>|
        #![trigger ref_views(parts).flatten()]
        {
            &&& parts.len() == children.len()
            &&& forall|i: int| 0 <= i < children.len() ==> call_ensures(collect, (&children[i],), #[trigger] parts[i])
            &&& nodes == ref_views(parts).flatten()
        }
}

/// The targets of flattened vectors are the flattened targets of each.
proof fn lemma_targets_flatten(parts: Seq<Seq<&Node>>)
    ensures
        targets(parts.flatten()) == parts.map_values(|p: Seq<&Node>| targets(p)).flatten(),
    decreases parts.len(),
{
    if parts.len() > 0 {
        let front = parts.drop_last();
        lemma_targets_flatten(front);
        assert(parts =~= front.push(parts.last()));
        front.lemma_flatten_push(parts.last());
        lemma_targets_append(front.flatten(), parts.last());
        let mapped = parts.map_values(|p: Seq<&Node>| targets(p));
        assert(mapped =~= front.map_values(|p: Seq<&Node>| targets(p)).push(targets(parts.last())));
        front.map_values(|p: Seq<&Node>| targets(p)).lemma_flatten_push(targets(parts.last()));
    } else {
        assert(parts.flatten() =~= Seq::<&Node>::empty());
        assert(parts.map_values(|p: Seq<&Node>| targets(p)) =~= Seq::<Seq<Node>>::empty());
        assert(targets(Seq::<&Node>::empty()) =~= Seq::<Node>::empty());
    }
}

/// `collects`, for a mixing function taken by reference.
pub open spec fn collects_by<M: Fn(u64, u64) -> u64>(
    mix: &M,
    weight: u64,
    threshold: u64,
    root: &Node,
    out: Seq<Node>,
) -> bool {
    collects(mix, weight, threshold, *root, out)
}

/// `node` is one of the children of `parent`.
pub open spec fn is_child(parent: &Node, node: &Node) -> bool {
    exists|i: int| 0 <= i < parent.children.len() && parent.children@[i] == *node
}

/// A child is smaller than its parent.
proof fn lemma_child_decreases(parent: &Node, child: &Node)
    requires
        is_child(parent, child),
    ensures
        decreases_to!(parent => child),
{
    let i = choose|i: int| 0 <= i < parent.children.len() && parent.children@[i] == *child;
    assert(decreases_to!(parent.children => parent.children[i]));
}

/// Collects, in pre-order, the nodes of the tree of `node` that pass the
/// threshold test, with the children's trees collected in parallel by rayon.
pub fn collect_rayon<'a, M: Fn(u64, u64) -> u64 + Sync>(
    node: &'a Node,
    threshold: u64,
    weight: u64,
    mix: &M,
) -> (nodes: Vec<&'a Node>)
    requires
        callable(mix),
    ensures
        collects(mix, weight, threshold, *node, targets(nodes@)),
    decreases node,
{
    let keep_node = matches(node, threshold, weight, mix);
    let mut nodes: Vec<&'a Node> = if keep_node {
        vec![node]
    } else {
        vec![]
    };
    let collect = |child: &'a Node| -> (found: Vec<&'a Node>)
        requires
            callable(mix),
            is_child(node, child),
        ensures
            collects_by(mix, weight, threshold, child, targets(found@)),
        {
            proof {
                lemma_child_decreases(node, child);
            }
            collect_rayon(child, threshold, weight, mix)
        };
    proof {
        assert forall|i: int| 0 <= i < node.children.len() implies call_requires(collect, (&node.children@[i],)) by {
            assert(is_child(node, &node.children@[i]));
        }
    }
    let mut below = rayon_collect_children(&node.children, collect);
    proof {
        let parts = choose|parts: Seq<Vec<&'a Node>>|
            #![trigger ref_views(parts).flatten()]
            {
                &&& parts.len() == node.children.len()
                &&& forall|i: int| 0 <= i < node.children.len() ==> call_ensures(collect, (&node.children@[i],), #[trigger] parts[i])
                &&& below@ == ref_views(parts).flatten()
            };
        let views = ref_views(parts);
        let outs = views.map_values(|p: Seq<&Node>| targets(p));
        assert forall|i: int| 0 <= i < node.children.len() implies collects(mix, weight, threshold, node.children@[i], #[trigger] outs[i]) by {
            assert(call_ensures(collect, (&node.children@[i],), parts[i]));
        }
        lemma_collects_all(mix, weight, threshold, node.children@, outs);
        lemma_targets_flatten(views);
        let keep = choose|keep: Seq<bool>|
            #![trigger select(preorder_all(node.children@), keep)]
            selection(mix, weight, threshold, preorder_all(node.children@), keep)
                && outs.flatten() == select(preorder_all(node.children@), keep);
        let ghost head = nodes@;
        assert(targets(head) == select(seq![*node], seq![keep_node])) by {
            reveal_with_fuel(select, 2);
            assert(seq![*node].drop_last() =~= Seq::<Node>::empty());
            assert(targets(head) =~= select(seq![*node], seq![keep_node]));
        }
        lemma_select_append(seq![*node], seq![keep_node], preorder_all(node.children@), keep);
        lemma_selection_append(mix, weight, threshold, seq![*node], seq![keep_node], preorder_all(node.children@), keep);
        lemma_targets_append(head, below@);
        assert(select(preorder(*node), seq![keep_node] + keep) == targets(head + below@));
    }
    nodes.append(&mut below);
    nodes
}


/// orx-parallel's `par_recursive` from the root, expanding each node to its
/// children, then `filter` with `keep` and `collect`: every node of the tree
/// is visited once (the source hands each visited node's children to the
/// workers), and the nodes that `keep` accepts are collected, in the
/// breadth-first order of the default `Ordered` iteration, which is some
/// order of the pre-order ones. Each call of `keep` is believed to meet its
/// own contract.
#[verifier::external_body]
fn orx_collect_recursive<'a, P>(root: &'a Node, keep: P) -> (nodes: Vec<&'a Node>)
    where
        P: Fn(&'a Node) -> bool + Copy + Sync + Send,
    requires
        forall|n: &'a Node| call_requires(keep, (n,)),
    ensures
        gathers(keep, *root, nodes@),
{
    par_recursive([root], |node: &&'a Node| &node.children).filter(move |node: &&'a Node| keep(*node)).collect()
}

/// `nodes` are, in some order, the nodes of the tree of `root` for which a
/// call of `keep` said `true`.
pub open spec fn gathers<'a, P: Fn(&'a Node) -> bool>(keep: P, root: Node, nodes: Seq<&'a Node>) -> bool {
    exists|flags: Seq<bool>|
        #![trigger select(preorder(root), flags)]
        {
            &&& flags.len() == preorder(root).len()
            &&& forall|i: int| 0 <= i < flags.len() ==> call_ensures(keep, (&preorder(root)[i],), #[trigger] flags[i])
            &&& permutes(targets(nodes), select(preorder(root), flags))
        }
}

/// `selected`, for a mixing function and a node taken by reference.
pub open spec fn selected_by<M: Fn(u64, u64) -> u64>(
    mix: &M,
    weight: u64,
    threshold: u64,
    node: &Node,
    keep: bool,
) -> bool {
    selected(mix, weight, threshold, *node, keep)
}

/// Collects the nodes of the tree of `node` that pass the threshold test,
/// with orx-parallel's recursive parallel iterator, in some order.
pub fn collect_orx<'a, M: Fn(u64, u64) -> u64 + Sync>(
    node: &'a Node,
    threshold: u64,
    weight: u64,
    mix: &M,
) -> (nodes: Vec<&'a Node>)
    requires
        callable(mix),
    ensures
        exists|out: Seq<Node>| collects(mix, weight, threshold, *node, out) && permutes(targets(nodes@), out),
{
    let keep = |n: &'a Node| -> (kept: bool)
        requires
            callable(mix),
        ensures
            selected_by(mix, weight, threshold, n, kept),
        {
            matches(n, threshold, weight, mix)
        };
    let nodes = orx_collect_recursive(node, keep);
    proof {
        let flags = choose|flags: Seq<bool>|
            #![trigger select(preorder(*node), flags)]
            {
                &&& flags.len() == preorder(*node).len()
                &&& forall|i: int| 0 <= i < flags.len() ==> call_ensures(keep, (&preorder(*node)[i],), #[trigger] flags[i])
                &&& permutes(targets(nodes@), select(preorder(*node), flags))
            };
        assert forall|i: int| 0 <= i < flags.len() implies selected(mix, weight, threshold, preorder(*node)[i], #[trigger] flags[i]) by {
            assert(call_ensures(keep, (&preorder(*node)[i],), flags[i]));
        }
        assert(selection(mix, weight, threshold, preorder(*node), flags));
        assert(collects(mix, weight, threshold, *node, select(preorder(*node), flags)));
    }
    nodes
}

/// The number of collected nodes: some collection of the nodes that pass the
/// threshold test has that many.
pub open spec fn counts<M: Fn(u64, u64) -> u64>(
    mix: &M,
    weight: u64,
    threshold: u64,
    root: Node,
    count: usize,
) -> bool {
    exists|out: Seq<Node>| collects(mix, weight, threshold, root, out) && count == out.len()
}

/// Runs the benchmark with `method` and counts the nodes it collected.
pub fn execute<M: Fn(u64, u64) -> u64 + Sync>(
    method: Method,
    root: &Node,
    threshold: u64,
    weight: u64,
    mix: &M,
) -> (count: usize)
    requires
        callable(mix),
    ensures
        counts(mix, weight, threshold, *root, count),
{
    match method {
        Method::Sequential => {
            let count = expected_output(root, threshold, weight, mix);
            count
        },
        Method::Rayon => {
            let nodes = collect_rayon(root, threshold, weight, mix);
            assert(collects(mix, weight, threshold, *root, targets(nodes@)) && nodes.len() == targets(nodes@).len());
            nodes.len()
        },
        _ => {
            let nodes = collect_orx(root, threshold, weight, mix);
            proof {
                let out = choose|out: Seq<Node>|
                    collects(mix, weight, threshold, *root, out) && permutes(targets(nodes@), out);
                targets(nodes@).to_multiset_ensures();
                out.to_multiset_ensures();
                assert(nodes.len() == out.len());
            }
            nodes.len()
        },
    }
}

/// The count that every method must report: that of the sequential
/// collection.
pub fn expected_output<M: Fn(u64, u64) -> u64>(root: &Node, threshold: u64, weight: u64, mix: &M) -> (count: usize)
    requires
        callable(mix),
    ensures
        counts(mix, weight, threshold, *root, count),
{
    let mut nodes: Vec<&Node> = Vec::new();
    collect_seq(root, threshold, weight, mix, &mut nodes);
    proof {
        assert(targets(Seq::<&Node>::empty()) =~= Seq::<Node>::empty());
        let out = choose|out: Seq<Node>|
            collects(mix, weight, threshold, *root, out) && targets(nodes@) == targets(Seq::<&Node>::empty()) + out;
        assert(targets(nodes@) =~= out);
    }
    nodes.len()
}

/// The benchmark's input: the tree of the given depth and fan-out, built
/// from `ROOT_SEED`.
pub fn make_input<M: Fn(u64, u64) -> u64>(depth: usize, fan_out: usize, mix: &M) -> (root: Node)
    requires
        callable(mix),
    ensures
        built(root, depth as nat, fan_out as nat, ROOT_SEED, mix),
{
    build_tree(depth, fan_out, ROOT_SEED, mix)
}


/// With a mixing function that gives one value per call, the collection is
/// determined, and so is the count: every method of the benchmark reports
/// the sequential run's count.
pub proof fn lemma_count_unique<M: Fn(u64, u64) -> u64>(
    mix: &M,
    weight: u64,
    threshold: u64,
    root: Node,
    a: usize,
    b: usize,
)
    requires
        deterministic(mix),
        counts(mix, weight, threshold, root, a),
        counts(mix, weight, threshold, root, b),
    ensures
        a == b,
{
    let out_a = choose|out: Seq<Node>| collects(mix, weight, threshold, root, out) && a == out.len();
    let out_b = choose|out: Seq<Node>| collects(mix, weight, threshold, root, out) && b == out.len();
    let pre = preorder(root);
    let ka = choose|keep: Seq<bool>|
        #![trigger select(preorder(root), keep)]
        selection(mix, weight, threshold, preorder(root), keep) && out_a == select(preorder(root), keep);
    let kb = choose|keep: Seq<bool>|
        #![trigger select(preorder(root), keep)]
        selection(mix, weight, threshold, preorder(root), keep) && out_b == select(preorder(root), keep);
    assert forall|i: int| 0 <= i < pre.len() implies ka[i] == kb[i] by {
        assert(selected(mix, weight, threshold, pre[i], ka[i]));
        assert(selected(mix, weight, threshold, pre[i], kb[i]));
    }
    assert(ka =~= kb);
}


/// With a mixing function that gives one value per call, the collection is
/// determined: the rayon collection is the sequential one, node for node in
/// pre-order, and the orx-parallel collection holds the same nodes.
pub proof fn lemma_collection_unique<M: Fn(u64, u64) -> u64>(
    mix: &M,
    weight: u64,
    threshold: u64,
    root: Node,
    a: Seq<Node>,
    b: Seq<Node>,
)
    requires
        deterministic(mix),
        collects(mix, weight, threshold, root, a),
        collects(mix, weight, threshold, root, b),
    ensures
        a == b,
{
    let pre = preorder(root);
    let ka = choose|keep: Seq<bool>|
        #![trigger select(preorder(root), keep)]
        selection(mix, weight, threshold, preorder(root), keep) && a == select(preorder(root), keep);
    let kb = choose|keep: Seq<bool>|
        #![trigger select(preorder(root), keep)]
        selection(mix, weight, threshold, preorder(root), keep) && b == select(preorder(root), keep);
    assert forall|i: int| 0 <= i < pre.len() implies ka[i] == kb[i] by {
        assert(selected(mix, weight, threshold, pre[i], ka[i]));
        assert(selected(mix, weight, threshold, pre[i], kb[i]));
    }
    assert(ka =~= kb);
}

/// Selecting by flags that are set wherever the first ones are selects at
/// least as many nodes.
proof fn lemma_select_len_monotone(nodes: Seq<Node>, k1: Seq<bool>, k2: Seq<bool>)
    requires
        k1.len() == nodes.len(),
        k2.len() == nodes.len(),
        forall|i: int| 0 <= i < nodes.len() && #[trigger] k1[i] ==> k2[i],
    ensures
        select(nodes, k1).len() <= select(nodes, k2).len(),
    decreases nodes.len(),
{
    if nodes.len() > 0 {
        let n = nodes.len() - 1;
        assert forall|i: int| 0 <= i < n && #[trigger] k1.drop_last()[i] implies k2.drop_last()[i] by {
            assert(k1[i]);
        }
        lemma_select_len_monotone(nodes.drop_last(), k1.drop_last(), k2.drop_last());
        assert(k1[n] ==> k2[n]);
    }
}

/// With a mixing function that gives one value per call, raising the
/// threshold collects at least as many nodes.
pub proof fn lemma_count_grows_with_threshold<M: Fn(u64, u64) -> u64>(
    mix: &M,
    weight: u64,
    low: u64,
    high: u64,
    root: Node,
    count_low: usize,
    count_high: usize,
)
    requires
        deterministic(mix),
        low <= high,
        counts(mix, weight, low, root, count_low),
        counts(mix, weight, high, root, count_high),
    ensures
        count_low <= count_high,
{
    let pre = preorder(root);
    let a = choose|out: Seq<Node>| collects(mix, weight, low, root, out) && count_low == out.len();
    let b = choose|out: Seq<Node>| collects(mix, weight, high, root, out) && count_high == out.len();
    let ka = choose|keep: Seq<bool>|
        #![trigger select(preorder(root), keep)]
        selection(mix, weight, low, preorder(root), keep) && a == select(preorder(root), keep);
    let kb = choose|keep: Seq<bool>|
        #![trigger select(preorder(root), keep)]
        selection(mix, weight, high, preorder(root), keep) && b == select(preorder(root), keep);
    assert forall|i: int| 0 <= i < pre.len() && #[trigger] ka[i] implies kb[i] by {
        assert(selected(mix, weight, low, pre[i], ka[i]));
        assert(selected(mix, weight, high, pre[i], kb[i]));
    }
    lemma_select_len_monotone(pre, ka, kb);
}


/// Selecting by flags that are set wherever the first ones are: the first
/// selection is a selection from the second.
proof fn lemma_select_subsequence(nodes: Seq<Node>, k1: Seq<bool>, k2: Seq<bool>) -> (flags: Seq<bool>)
    requires
        k1.len() == nodes.len(),
        k2.len() == nodes.len(),
        forall|i: int| 0 <= i < nodes.len() && #[trigger] k1[i] ==> k2[i],
    ensures
        flags.len() == select(nodes, k2).len(),
        select(nodes, k1) == select(select(nodes, k2), flags),
    decreases nodes.len(),
{
    if nodes.len() == 0 {
        Seq::empty()
    } else {
        let n = nodes.len() - 1;
        assert forall|i: int| 0 <= i < n && #[trigger] k1.drop_last()[i] implies k2.drop_last()[i] by {
            assert(k1[i]);
        }
        let rest = lemma_select_subsequence(nodes.drop_last(), k1.drop_last(), k2.drop_last());
        let (s1, s2) = (select(nodes.drop_last(), k1.drop_last()), select(nodes.drop_last(), k2.drop_last()));
        if k2[n] {
            let flags = rest.push(k1[n]);
            assert(select(nodes, k2) == s2.push(nodes[n]));
            assert(select(nodes, k2).drop_last() =~= s2);
            assert(flags.drop_last() =~= rest);
            flags
        } else {
            assert(!k1[n]);
            rest
        }
    }
}

/// With a mixing function that gives one value per call, raising the
/// threshold collects every node it collected before, in the same order,
/// and maybe more: the collection under the lower threshold is a selection
/// from the one under the higher.
pub proof fn lemma_collection_grows_with_threshold<M: Fn(u64, u64) -> u64>(
    mix: &M,
    weight: u64,
    low: u64,
    high: u64,
    root: Node,
    out_low: Seq<Node>,
    out_high: Seq<Node>,
)
    requires
        deterministic(mix),
        low <= high,
        collects(mix, weight, low, root, out_low),
        collects(mix, weight, high, root, out_high),
    ensures
        exists|flags: Seq<bool>|
            #![trigger select(out_high, flags)]
            flags.len() == out_high.len() && out_low == select(out_high, flags),
{
    let pre = preorder(root);
    let ka = choose|keep: Seq<bool>|
        #![trigger select(preorder(root), keep)]
        selection(mix, weight, low, preorder(root), keep) && out_low == select(preorder(root), keep);
    let kb = choose|keep: Seq<bool>|
        #![trigger select(preorder(root), keep)]
        selection(mix, weight, high, preorder(root), keep) && out_high == select(preorder(root), keep);
    assert forall|i: int| 0 <= i < pre.len() && #[trigger] ka[i] implies kb[i] by {
        assert(selected(mix, weight, low, pre[i], ka[i]));
        assert(selected(mix, weight, high, pre[i], kb[i]));
    }
    let flags = lemma_select_subsequence(pre, ka, kb);
    assert(flags.len() == out_high.len() && out_low == select(out_high, flags));
}

} // verus!
