//! An arena-allocated tree of label suffixes.
//!
//! Each node stands for one labelling prefix: the labels along the walk
//! from the root down to the node. Nodes are appended to the arena and
//! never removed; pruning during a beam search drops beam membership, not
//! nodes. A node records the label that extends its parent's prefix and
//! the timestep at which the prefix first became live.

use vstd::prelude::*;

verus! {

/// One arena slot. `children` maps a label to the child node carrying it.
pub struct Node {
    /// The arena id of the parent; the root is its own parent.
    pub parent: usize,
    /// The label that extends the parent's prefix (unused on the root).
    pub label: usize,
    /// The timestep at which this prefix was first placed on the beam.
    pub time: usize,
    /// Pairs of (label, child id), one per child, labels distinct.
    pub children: Vec<(usize, usize)>,
}

/// The arena. Node 0 is always the root, standing for the empty prefix.
pub struct SuffixTree {
    /// The arena slots; well-formedness is [`tree_wf`] of this sequence.
    pub nodes: Vec<Node>,
}

/// Entry `j` of node `i`'s child list points at a real child below `i`.
pub open spec fn child_ok(nodes: Seq<Node>, i: int, j: int) -> bool {
    let e = nodes[i].children@[j];
    &&& i < e.1 < nodes.len()
    &&& nodes[e.1 as int].parent == i
    &&& nodes[e.1 as int].label == e.0
}

/// Node `c` appears in its parent's child list under its own label.
pub open spec fn linked(nodes: Seq<Node>, c: int) -> bool {
    exists|j: int|
        0 <= j < nodes[nodes[c].parent as int].children@.len()
            && (#[trigger] nodes[nodes[c].parent as int].children@[j]).0 == nodes[c].label
            && nodes[nodes[c].parent as int].children@[j].1 == c
}

/// The arena invariant: the root is slot 0 and its own parent; every other
/// node's parent precedes it (so the tree is acyclic), carries a non-blank
/// label, and a time no earlier than its parent's; and the child lists are
/// exactly the parent-child relation, with distinct labels per node.
pub open spec fn tree_wf(nodes: Seq<Node>) -> bool {
    &&& nodes.len() >= 1
    &&& nodes[0].parent == 0
    &&& forall|i: int| 1 <= i < nodes.len() ==> (#[trigger] nodes[i]).parent < i
    &&& forall|i: int| 1 <= i < nodes.len() ==> (#[trigger] nodes[i]).label >= 1
    &&& forall|i: int|
        1 <= i < nodes.len() ==> (#[trigger] nodes[i]).time >= nodes[nodes[i].parent as int].time
    &&& forall|i: int, j: int|
        0 <= i < nodes.len() && 0 <= j < nodes[i].children@.len() ==> #[trigger] child_ok(
            nodes,
            i,
            j,
        )
    &&& forall|c: int| 1 <= c < nodes.len() ==> #[trigger] linked(nodes, c)
    &&& forall|i: int, j1: int, j2: int|
        0 <= i < nodes.len() && 0 <= j1 < nodes[i].children@.len() && 0 <= j2
            < nodes[i].children@.len() && j1 != j2 ==> (#[trigger] nodes[i].children@[j1]).0 != (
        #[trigger] nodes[i].children@[j2]).0
}

/// Every non-root label lies below `w` (the alphabet length).
pub open spec fn labels_lt(nodes: Seq<Node>, w: int) -> bool {
    forall|i: int| 1 <= i < nodes.len() ==> (#[trigger] nodes[i]).label < w
}

/// Every node's time is at most `b`.
pub open spec fn times_le(nodes: Seq<Node>, b: int) -> bool {
    forall|i: int| 0 <= i < nodes.len() ==> (#[trigger] nodes[i]).time <= b
}


/// Each node's linkage as a plain triple (parent, label, time): the
/// abstraction of the arena that the decoders' step model works over.
pub open spec fn tree_abs(nodes: Seq<Node>) -> Seq<(usize, usize, usize)> {
    nodes.map_values(|n: Node| (n.parent, n.label, n.time))
}

/// The first non-root triple extending `p` with `l`, from `i` on;
/// negative when there is none.
pub open spec fn find_child_at(tr: Seq<(usize, usize, usize)>, p: int, l: int, i: int) -> int
    decreases tr.len() - i,
{
    if i < 0 || i >= tr.len() {
        -1
    } else if i >= 1 && tr[i].0 == p && tr[i].1 == l {
        i
    } else {
        find_child_at(tr, p, l, i + 1)
    }
}

/// The first non-root triple extending `p` with `l`, if any.
pub open spec fn find_child(tr: Seq<(usize, usize, usize)>, p: int, l: int) -> int {
    find_child_at(tr, p, l, 0)
}

/// When no node from `i` on extends `p` with `l`, the scan finds nothing.
proof fn lemma_no_child_find(nodes: Seq<Node>, p: int, l: int, i: int)
    requires
        0 <= i,
        forall|c: int|
            i <= c < nodes.len() && c >= 1 ==> !((#[trigger] nodes[c]).parent == p
                && nodes[c].label == l),
    ensures
        find_child_at(tree_abs(nodes), p, l, i) == -1,
    decreases nodes.len() - i,
{
    if i < nodes.len() {
        lemma_no_child_find(nodes, p, l, i + 1);
    }
}

/// What the scan finds is a real match.
proof fn lemma_find_child_valid(tr: Seq<(usize, usize, usize)>, p: int, l: int, i: int)
    requires
        0 <= i,
    ensures
        ({
            let j = find_child_at(tr, p, l, i);
            j == -1 || (i <= j < tr.len() && j >= 1 && tr[j].0 == p && tr[j].1 == l)
        }),
    decreases tr.len() - i,
{
    if i < tr.len() {
        lemma_find_child_valid(tr, p, l, i + 1);
    }
}

/// When the scan finds nothing, there is no match to find.
proof fn lemma_find_child_misses(tr: Seq<(usize, usize, usize)>, p: int, l: int, i: int)
    requires
        0 <= i,
        find_child_at(tr, p, l, i) == -1,
    ensures
        forall|c: int| i <= c < tr.len() && c >= 1 ==> !((#[trigger] tr[c]).0 == p && tr[c].1 == l),
    decreases tr.len() - i,
{
    if i < tr.len() {
        lemma_find_child_misses(tr, p, l, i + 1);
    }
}

/// A well-formed tree has at most one child of `p` carrying `l`.
proof fn lemma_child_unique(nodes: Seq<Node>, p: int, l: int, c1: int, c2: int)
    requires
        tree_wf(nodes),
        1 <= c1 < nodes.len(),
        1 <= c2 < nodes.len(),
        nodes[c1].parent == p && nodes[c1].label == l,
        nodes[c2].parent == p && nodes[c2].label == l,
    ensures
        c1 == c2,
{
    if c1 != c2 {
        assert(linked(nodes, c1));
        assert(linked(nodes, c2));
        let j1 = choose|j: int|
            0 <= j < nodes[p].children@.len() && (#[trigger] nodes[p].children@[j]).0 == l
                && nodes[p].children@[j].1 == c1;
        let j2 = choose|j: int|
            0 <= j < nodes[p].children@.len() && (#[trigger] nodes[p].children@[j]).0 == l
                && nodes[p].children@[j].1 == c2;
        assert(j1 != j2);
        assert(false);
    }
}

/// Some node with parent `p` carries label `l`.
pub open spec fn has_child(nodes: Seq<Node>, p: int, l: int) -> bool {
    exists|c: int|
        1 <= c < nodes.len() && (#[trigger] nodes[c]).parent == p && nodes[c].label == l
}

/// The (label, time) pairs along the walk from the root down to `id`,
/// without the root itself.
pub open spec fn path_spec(nodes: Seq<Node>, id: int) -> Seq<(usize, usize)>
    decreases id,
{
    if 0 < id < nodes.len() && 0 <= nodes[id].parent < id {
        path_spec(nodes, nodes[id].parent as int).push((nodes[id].label, nodes[id].time))
    } else {
        Seq::empty()
    }
}


/// The (label, time) pairs along the walk to `id`, over the abstract
/// triples; the counterpart of [`path_spec`].
pub open spec fn path_abs(tr: Seq<(usize, usize, usize)>, id: int) -> Seq<(usize, usize)>
    decreases id,
{
    if 0 < id < tr.len() && 0 <= tr[id].0 < id {
        path_abs(tr, tr[id].0 as int).push((tr[id].1, tr[id].2))
    } else {
        Seq::empty()
    }
}

/// The abstract walk agrees with the concrete one.
pub proof fn lemma_path_abs(nodes: Seq<Node>, id: int)
    requires
        0 <= id,
    ensures
        path_abs(tree_abs(nodes), id) == path_spec(nodes, id),
    decreases id,
{
    if 0 < id < nodes.len() && 0 <= nodes[id].parent < id {
        lemma_path_abs(nodes, nodes[id].parent as int);
    } else {
        assert(path_abs(tree_abs(nodes), id) =~= Seq::empty());
        assert(path_spec(nodes, id) =~= Seq::empty());
    }
}

/// Along any walk of a well-formed tree, times never decrease, every label
/// is non-blank and below any bound the tree's labels respect, and times
/// respect any bound the tree's times respect.
pub proof fn lemma_path_wf(nodes: Seq<Node>, id: int)
    requires
        tree_wf(nodes),
        0 <= id < nodes.len(),
    ensures
        forall|i: int, j: int|
            0 <= i <= j < path_spec(nodes, id).len() ==> (#[trigger] path_spec(nodes, id)[i]).1 <= (
            #[trigger] path_spec(nodes, id)[j]).1,
        forall|i: int|
            0 <= i < path_spec(nodes, id).len() ==> (#[trigger] path_spec(nodes, id)[i]).1
                <= nodes[id].time,
        forall|i: int|
            0 <= i < path_spec(nodes, id).len() ==> (#[trigger] path_spec(nodes, id)[i]).0 >= 1,
        forall|i: int, w: int|
            #![trigger path_spec(nodes, id)[i], labels_lt(nodes, w)]
            0 <= i < path_spec(nodes, id).len() && labels_lt(nodes, w) ==> (path_spec(
                nodes,
                id,
            )[i]).0 < w,
    decreases id,
{
    if id == 0 {
        assert(path_spec(nodes, 0) =~= Seq::empty());
    } else {
        let p = nodes[id].parent as int;
        lemma_path_wf(nodes, p);
        assert(path_spec(nodes, id) == path_spec(nodes, p).push((nodes[id].label, nodes[id].time)));
    }
}

impl View for SuffixTree {
    type V = Seq<Node>;

    open spec fn view(&self) -> Seq<Node> {
        self.nodes@
    }
}

impl SuffixTree {
    /// Creates a tree holding only the root (the empty prefix).
    pub fn new() -> (out: SuffixTree)
        ensures
            tree_wf(out@),
            out@.len() == 1,
            out@[0].parent == 0,
            out@[0].label == 0,
            out@[0].time == 0,
            path_spec(out@, 0) == Seq::<(usize, usize)>::empty(),
    {
        let mut nodes: Vec<Node> = Vec::new();
        nodes.push(Node { parent: 0, label: 0, time: 0, children: Vec::new() });
        let out = SuffixTree { nodes };
        proof {
            assert forall|c: int| 1 <= c < out@.len() implies #[trigger] linked(out@, c) by {}
            assert(path_spec(out@, 0) =~= Seq::empty());
        }
        out
    }

    /// The id of the root node.
    pub fn root(&self) -> (r: usize)
        ensures
            r == 0,
    {
        0
    }

    /// The label that extends `id`'s parent's prefix.
    pub fn label_at(&self, id: usize) -> (r: usize)
        requires
            id < self@.len(),
        ensures
            r == self@[id as int].label,
    {
        self.nodes[id].label
    }

    /// The parent of `id`.
    pub fn parent_of(&self, id: usize) -> (r: usize)
        requires
            id < self@.len(),
        ensures
            r == self@[id as int].parent,
    {
        self.nodes[id].parent
    }

    /// The timestep at which `id` first became live.
    pub fn time_at(&self, id: usize) -> (r: usize)
        requires
            id < self@.len(),
        ensures
            r == self@[id as int].time,
    {
        self.nodes[id].time
    }

    /// The number of nodes in the arena.
    pub fn len(&self) -> (r: usize)
        ensures
            r == self@.len(),
    {
        self.nodes.len()
    }

    /// Returns the id of `parent`'s child carrying `label`, creating the
    /// child if it is absent. A created child records `time`; an existing
    /// child keeps the time it was created with.
    pub fn get_or_create_child(&mut self, parent: usize, label: usize, time: usize) -> (id: usize)
        requires
            tree_wf(old(self)@),
            parent < old(self)@.len(),
            label >= 1,
            time >= old(self)@[parent as int].time,
        ensures
            tree_wf(final(self)@),
            id < final(self)@.len(),
            final(self)@[id as int].parent == parent,
            final(self)@[id as int].label == label,
            final(self)@.len() >= old(self)@.len(),
            // old nodes keep their place, links and timing
            forall|i: int|
                0 <= i < old(self)@.len() ==> {
                    &&& (#[trigger] final(self)@[i]).parent == old(self)@[i].parent
                    &&& final(self)@[i].label == old(self)@[i].label
                    &&& final(self)@[i].time == old(self)@[i].time
                },
            // lookup case: nothing changes, and the id is the scan's answer
            has_child(old(self)@, parent as int, label as int) ==> final(self)@ == old(self)@
                && id == find_child(tree_abs(old(self)@), parent as int, label as int),
            // creation case: exactly one node is appended, recording `time`
            !has_child(old(self)@, parent as int, label as int) ==> {
                &&& id == old(self)@.len()
                &&& final(self)@.len() == old(self)@.len() + 1
                &&& final(self)@[id as int].time == time
                &&& find_child(tree_abs(old(self)@), parent as int, label as int) == -1
                &&& tree_abs(final(self)@) == tree_abs(old(self)@).push((parent, label, time))
            },
    {
        let k = self.nodes[parent].children.len();
        let mut j: usize = 0;
        while j < k
            invariant
                tree_wf(self@),
                parent < self@.len(),
                j <= k,
                k == self@[parent as int].children@.len(),
                self@ == old(self)@,
                forall|jj: int|
                    0 <= jj < j ==> (#[trigger] self@[parent as int].children@[jj]).0 != label,
            decreases k - j,
        {
            let e = self.nodes[parent].children[j];
            if e.0 == label {
                proof {
                    assert(child_ok(self@, parent as int, j as int));
                    assert(has_child(self@, parent as int, label as int)) by {
                        let c = self@[parent as int].children@[j as int].1 as int;
                        assert(1 <= c < self@.len() && self@[c].parent == parent && self@[c].label
                            == label);
                    }
                    let tr = tree_abs(self@);
                    let fj = find_child(tr, parent as int, label as int);
                    lemma_find_child_valid(tr, parent as int, label as int, 0);
                    assert(tr[e.1 as int].0 == parent && tr[e.1 as int].1 == label);
                    if fj == -1 {
                        lemma_find_child_misses(tr, parent as int, label as int, 0);
                        assert(false);
                    } else {
                        lemma_child_unique(self@, parent as int, label as int, fj, e.1 as int);
                    }
                }
                return e.1;
            }
            j += 1;
        }
        proof {
            // the scan is complete: no child of `parent` carries `label`
            if has_child(self@, parent as int, label as int) {
                let c = choose|c: int|
                    1 <= c < self@.len() && (#[trigger] self@[c]).parent == parent && self@[c].label
                        == label;
                assert(linked(self@, c));
                let jj = choose|jj: int|
                    0 <= jj < self@[parent as int].children@.len() && (#[trigger] self@[parent as int].children@[jj]).0
                        == self@[c].label && self@[parent as int].children@[jj].1 == c;
                assert(false);
            }
        }
        let id = self.nodes.len();
        // re-link the parent with the new child appended to its list
        let mut ch: Vec<(usize, usize)> = Vec::new();
        let mut j2: usize = 0;
        while j2 < k
            invariant
                j2 <= k,
                parent < self@.len(),
                k == self@[parent as int].children@.len(),
                self@ == old(self)@,
                ch@.len() == j2,
                forall|jj: int|
                    0 <= jj < j2 ==> ch@[jj] == self@[parent as int].children@[jj],
            decreases k - j2,
        {
            let e = self.nodes[parent].children[j2];
            ch.push(e);
            j2 += 1;
        }
        ch.push((label, id));
        let p = &self.nodes[parent];
        let new_parent = Node { parent: p.parent, label: p.label, time: p.time, children: ch };
        self.nodes.set(parent, new_parent);
        self.nodes.push(Node { parent, label, time, children: Vec::new() });
        proof {
            let nodes = self@;
            let prev = old(self)@;
            assert(nodes[parent as int].children@ =~= prev[parent as int].children@.push(
                (label, id),
            ));
            assert forall|i: int, j: int|
                0 <= i < nodes.len() && 0 <= j < nodes[i].children@.len() implies #[trigger] child_ok(
                nodes,
                i,
                j,
            ) by {
                if i < prev.len() {
                    if i == parent as int && j == prev[parent as int].children@.len() {
                        assert(nodes[id as int].parent == parent);
                    } else {
                        assert(child_ok(prev, i, j));
                    }
                }
            }
            assert forall|c: int| 1 <= c < nodes.len() implies #[trigger] linked(nodes, c) by {
                if c < prev.len() {
                    assert(linked(prev, c));
                    let jj = choose|jj: int|
                        0 <= jj < prev[prev[c].parent as int].children@.len() && (#[trigger] prev[prev[c].parent as int].children@[jj]).0
                            == prev[c].label && prev[prev[c].parent as int].children@[jj].1 == c;
                    assert(nodes[nodes[c].parent as int].children@[jj]
                        == prev[prev[c].parent as int].children@[jj]);
                } else {
                    let jj = prev[parent as int].children@.len() as int;
                    assert(nodes[nodes[c].parent as int].children@[jj] == (label, id));
                }
            }
            assert(tree_wf(nodes));
            lemma_no_child_find(prev, parent as int, label as int, 0);
            assert forall|x: int| 0 <= x < nodes.len() implies #[trigger] tree_abs(nodes)[x]
                == tree_abs(prev).push((parent, label, time))[x] by {
                if x < prev.len() {
                    assert(nodes[x].parent == prev[x].parent && nodes[x].label == prev[x].label
                        && nodes[x].time == prev[x].time);
                }
            }
            assert(tree_abs(nodes) =~= tree_abs(prev).push((parent, label, time)));
        }
        id
    }

    /// The (label, time) pairs from the root down to `id`, root excluded.
    pub fn path(&self, id: usize) -> (out: Vec<(usize, usize)>)
        requires
            tree_wf(self@),
            id < self@.len(),
        ensures
            out@ == path_spec(self@, id as int),
    {
        let mut rev: Vec<(usize, usize)> = Vec::new();
        let mut cur = id;
        while cur != 0
            invariant
                tree_wf(self@),
                cur < self@.len(),
                forall|i: int|
                    0 <= i < rev@.len() ==> #[trigger] rev@[i] == path_spec(self@, id as int)[
                        path_spec(self@, id as int).len() - 1 - i],
                path_spec(self@, cur as int).len() + rev@.len() == path_spec(
                    self@,
                    id as int,
                ).len(),
                path_spec(self@, cur as int) == path_spec(self@, id as int).take(
                    path_spec(self@, cur as int).len() as int,
                ),
            decreases cur,
        {
            let e = (self.nodes[cur].label, self.nodes[cur].time);
            proof {
                let pcur = path_spec(self@, cur as int);
                let ppar = path_spec(self@, self@[cur as int].parent as int);
                assert(pcur == ppar.push(e));
                assert(pcur.len() >= 1);
                assert(pcur[pcur.len() - 1] == e);
                assert(ppar =~= path_spec(self@, id as int).take(ppar.len() as int));
            }
            rev.push(e);
            cur = self.nodes[cur].parent;
        }
        proof {
            assert(path_spec(self@, 0) =~= Seq::empty());
        }
        let n = rev.len();
        let mut out: Vec<(usize, usize)> = Vec::new();
        let mut i: usize = 0;
        while i < n
            invariant
                i <= n,
                n == rev@.len(),
                n == path_spec(self@, id as int).len(),
                out@.len() == i,
                forall|j: int|
                    0 <= j < rev@.len() ==> #[trigger] rev@[j] == path_spec(self@, id as int)[
                        path_spec(self@, id as int).len() - 1 - j],
                forall|j: int|
                    0 <= j < i ==> #[trigger] out@[j] == path_spec(self@, id as int)[j],
            decreases n - i,
        {
            let e = rev[n - 1 - i];
            out.push(e);
            i += 1;
        }
        proof {
            assert(out@ =~= path_spec(self@, id as int));
        }
        out
    }
}

} // verus!
