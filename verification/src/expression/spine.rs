use vstd::prelude::*;
use crate::node::{
    acyclic, linked, ranked, sized, spec_root, with_child, with_child_at, NodeView,
};
use crate::operator::Operator;
use crate::paren::Paren;
use crate::syntax::{close_at, collapse, push_leaf, set_top, splice_at, Ast, Frame};
use crate::term::Term;

verus! {

/// What the parser keeps in mind about the nodes while it builds the tree.
/// It is there for the proofs only.
pub struct Notes {
    /// The nodes from the root down to the marker.
    pub spine: Seq<usize>,
    /// For each node its place on the spine, or -1 where the tree below
    /// the node is finished.
    pub pos: Seq<int>,
    /// For each finished node the tree below it.
    pub shapes: Seq<Ast>,
    /// A ranking that shows that parents lead to a root.
    pub rank: Seq<nat>,
}

/// The tree below node `id`, given the trees below its children.
pub open spec fn shape_of(nodes: Seq<NodeView<Term>>, shapes: Seq<Ast>, id: int) -> Ast {
    Ast {
        value: nodes[id].value,
        children: Seq::new(
            nodes[id].children.len(),
            |k: int| shapes[nodes[id].children[k] as int],
        ),
    }
}

/// The frame of the node at place `i` of the spine.
pub open spec fn frame_at(nodes: Seq<NodeView<Term>>, notes: Notes, i: int) -> Frame {
    let id = notes.spine[i] as int;
    let count = if i < notes.spine.len() - 1 {
        nodes[id].children.len() - 1
    } else {
        nodes[id].children.len() as int
    };
    Frame {
        value: nodes[id].value,
        done: Seq::new(count as nat, |k: int| notes.shapes[nodes[id].children[k] as int]),
    }
}

/// The frames that the nodes on the spine stand for.
pub closed spec fn frames(nodes: Seq<NodeView<Term>>, notes: Notes) -> Seq<Frame> {
    Seq::new(notes.spine.len(), |i: int| frame_at(nodes, notes, i))
}

/// The spine and the places agree with each other.
pub open spec fn spine_ok(nodes: Seq<NodeView<Term>>, notes: Notes) -> bool {
    &&& notes.spine.len() >= 1
    &&& notes.pos.len() == nodes.len()
    &&& notes.shapes.len() == nodes.len()
    &&& forall|i: int|
        0 <= i < notes.spine.len() ==> (#[trigger] notes.spine[i]) < nodes.len()
            && notes.pos[notes.spine[i] as int] == i
    &&& forall|id: int|
        0 <= id < nodes.len() ==> (#[trigger] notes.pos[id]) == -1 || (0 <= notes.pos[id]
            < notes.spine.len() && notes.spine[notes.pos[id]] == id)
}

/// Each node on the spine is the last child of the one before it, and
/// says so.
pub open spec fn chain_ok(nodes: Seq<NodeView<Term>>, notes: Notes) -> bool {
    &&& nodes[notes.spine[0] as int].parent is None
    &&& forall|i: int|
        0 <= i < notes.spine.len() - 1 ==> {
            let p = nodes[(#[trigger] notes.spine[i]) as int];
            &&& p.children.len() >= 1
            &&& p.children.last() == notes.spine[i + 1]
            &&& nodes[notes.spine[i + 1] as int].parent == Some(
                (notes.spine[i], (p.children.len() - 1) as usize),
            )
        }
}

/// Every child is a node, and it is finished unless it is the last child
/// of a spine node and next on the spine.
pub open spec fn children_ok(nodes: Seq<NodeView<Term>>, notes: Notes) -> bool {
    forall|id: int, k: int|
        0 <= id < nodes.len() && 0 <= k < nodes[id].children.len() ==> {
            let c = (#[trigger] nodes[id].children[k]) as int;
            &&& c < nodes.len()
            &&& (notes.pos[c] == -1 || (notes.pos[id] >= 0 && notes.pos[c] == notes.pos[id] + 1
                && k == nodes[id].children.len() - 1))
        }
}

/// The tree recorded for each finished node is the tree below it.
pub open spec fn shapes_ok(nodes: Seq<NodeView<Term>>, notes: Notes) -> bool {
    forall|id: int|
        0 <= id < nodes.len() && (#[trigger] notes.pos[id]) == -1 ==> notes.shapes[id]
            == shape_of(nodes, notes.shapes, id)
}

/// Every number in the tree is well-formed.
pub open spec fn terms_ok(nodes: Seq<NodeView<Term>>) -> bool {
    forall|id: int|
        0 <= id < nodes.len() ==> ((#[trigger] nodes[id]).value matches Some(t) ==> t.wf())
}

/// What holds of the nodes and the notes between any two steps of the
/// parser.
pub closed spec fn inv(nodes: Seq<NodeView<Term>>, notes: Notes) -> bool {
    &&& spine_ok(nodes, notes)
    &&& chain_ok(nodes, notes)
    &&& children_ok(nodes, notes)
    &&& shapes_ok(nodes, notes)
    &&& terms_ok(nodes)
    &&& linked(nodes)
    &&& ranked(nodes, notes.rank)
    &&& sized(nodes)
}

/// A node without children and without a parent.
pub open spec fn leaf(value: Option<Term>) -> NodeView<Term> {
    NodeView { value, children: Seq::<usize>::empty(), parent: None }
}

/// The notes of a tree that is one empty node.
pub open spec fn first_notes() -> Notes {
    Notes { spine: seq![0usize], pos: seq![0int], shapes: seq![arbitrary()], rank: seq![0nat] }
}

/// One empty node is a tree in the parser's sense, and stands for the
/// first state.
pub proof fn lemma_first()
    ensures
        inv(seq![leaf(None)], first_notes()),
        frames(seq![leaf(None)], first_notes()) =~~= seq![
            Frame { value: None, done: Seq::<Ast>::empty() },
        ],
{
    let nodes = seq![leaf(None)];
    let f = frame_at(nodes, first_notes(), 0);
    assert(first_notes().spine[0] == 0);
    assert(nodes[0].children.len() == 0);
    assert(f.done =~= Seq::<Ast>::empty());
    assert(f.value == None::<Term>);
    assert(frames(nodes, first_notes())[0] == f);
}

/// Giving the marker a payload changes the last frame only.
pub proof fn lemma_set_value(nodes: Seq<NodeView<Term>>, notes: Notes, value: Term)
    requires
        inv(nodes, notes),
        value.wf(),
    ensures
        ({
            let m = notes.spine.last() as int;
            let after = nodes.update(m, NodeView { value: Some(value), ..nodes[m] });
            &&& inv(after, notes)
            &&& frames(after, notes) == set_top(frames(nodes, notes), value)
        }),
{
    let m = notes.spine.last() as int;
    let after = nodes.update(m, NodeView { value: Some(value), ..nodes[m] });
    assert(spine_ok(after, notes));
    assert(chain_ok(after, notes));
    assert(children_ok(after, notes));
    assert(shapes_ok(after, notes)) by {
        assert forall|id: int| 0 <= id < after.len() && (#[trigger] notes.pos[id]) == -1 implies
            notes.shapes[id] == shape_of(after, notes.shapes, id) by {
            assert(id != m);
            assert(shape_of(after, notes.shapes, id) == shape_of(nodes, notes.shapes, id));
        }
    }
    assert(terms_ok(after));
    assert(linked(after));
    assert(ranked(after, notes.rank));
    assert(sized(after));
    assert(frames(after, notes) =~~= set_top(frames(nodes, notes), value));
}

/// The notes after a new node `n` was put below the marker.
pub open spec fn attached_notes(notes: Notes, n: usize) -> Notes {
    Notes {
        spine: notes.spine.push(n),
        pos: notes.pos.push(notes.spine.len() as int),
        shapes: notes.shapes.push(arbitrary()),
        rank: notes.rank.push(notes.rank[notes.spine.last() as int] + 1),
    }
}

/// The nodes after a new node `n` holding `value` was put below the
/// marker.
pub open spec fn attached(nodes: Seq<NodeView<Term>>, notes: Notes, value: Term, n: usize) -> Seq<
    NodeView<Term>,
> {
    with_child(nodes.push(leaf(Some(value))), notes.spine.last() as int, n as int)
}

/// What the nodes are after a new node was put below the marker.
pub proof fn lemma_attached_nodes(nodes: Seq<NodeView<Term>>, notes: Notes, value: Term, n: usize)
    requires
        spine_ok(nodes, notes),
        n == nodes.len(),
    ensures
        ({
            let m = notes.spine.last() as int;
            let after = attached(nodes, notes, value, n);
            &&& 0 <= m < n
            &&& notes.pos[m] == notes.spine.len() - 1
            &&& after.len() == n + 1
            &&& after[n as int] == (NodeView {
                value: Some(value),
                children: Seq::<usize>::empty(),
                parent: Some((m as usize, nodes[m].children.len() as usize)),
            })
            &&& after[m] == (NodeView { children: nodes[m].children.push(n), ..nodes[m] })
            &&& forall|id: int| 0 <= id < n && id != m ==> #[trigger] after[id] == nodes[id]
        }),
{
    let m = notes.spine.last() as int;
    assert(notes.spine[notes.spine.len() - 1] == m);
}

/// After a node was put below the marker, spine and places agree.
proof fn lemma_attach_spine(nodes: Seq<NodeView<Term>>, notes: Notes, value: Term, n: usize)
    requires
        inv(nodes, notes),
        n == nodes.len(),
    ensures
        spine_ok(attached(nodes, notes, value, n), attached_notes(notes, n)),
{
    lemma_attached_nodes(nodes, notes, value, n);
    let after = attached(nodes, notes, value, n);
    let notes2 = attached_notes(notes, n);
    let top = notes.spine.len() - 1;
    assert forall|i: int| 0 <= i < notes2.spine.len() implies (#[trigger] notes2.spine[i])
        < after.len() && notes2.pos[notes2.spine[i] as int] == i by {
        if i <= top {
            assert(notes2.spine[i] == notes.spine[i]);
        }
    }
    assert forall|id: int| 0 <= id < after.len() implies (#[trigger] notes2.pos[id]) == -1 || (0
        <= notes2.pos[id] < notes2.spine.len() && notes2.spine[notes2.pos[id]] == id) by {
        if id < n {
            assert(notes2.pos[id] == notes.pos[id]);
        }
    }
}

/// After a node was put below the marker, the spine is still a chain.
proof fn lemma_attach_chain(nodes: Seq<NodeView<Term>>, notes: Notes, value: Term, n: usize)
    requires
        inv(nodes, notes),
        n == nodes.len(),
    ensures
        chain_ok(attached(nodes, notes, value, n), attached_notes(notes, n)),
{
    lemma_attached_nodes(nodes, notes, value, n);
    let after = attached(nodes, notes, value, n);
    let notes2 = attached_notes(notes, n);
    let top = notes.spine.len() - 1;
    let m = notes.spine.last() as int;
    assert(notes2.spine[0] == notes.spine[0]);
    assert forall|i: int| 0 <= i < notes2.spine.len() - 1 implies {
        let p = after[(#[trigger] notes2.spine[i]) as int];
        &&& p.children.len() >= 1
        &&& p.children.last() == notes2.spine[i + 1]
        &&& after[notes2.spine[i + 1] as int].parent == Some(
            (notes2.spine[i], (p.children.len() - 1) as usize),
        )
    } by {
        assert(notes2.spine[i] == notes.spine[i]);
        if i < top {
            assert(notes2.spine[i + 1] == notes.spine[i + 1]);
            assert(notes.pos[notes.spine[i] as int] == i);
            assert(notes.pos[notes.spine[i + 1] as int] == i + 1);
            assert(notes.spine[i] != m);
        } else {
            assert(notes2.spine[i + 1] == n);
        }
    }
}

/// After a node was put below the marker, the children are still in order.
proof fn lemma_attach_children(nodes: Seq<NodeView<Term>>, notes: Notes, value: Term, n: usize)
    requires
        inv(nodes, notes),
        n == nodes.len(),
    ensures
        children_ok(attached(nodes, notes, value, n), attached_notes(notes, n)),
{
    lemma_attached_nodes(nodes, notes, value, n);
    let after = attached(nodes, notes, value, n);
    let notes2 = attached_notes(notes, n);
    let m = notes.spine.last() as int;
    assert forall|id: int, k: int|
        0 <= id < after.len() && 0 <= k < after[id].children.len() implies {
        let c = (#[trigger] after[id].children[k]) as int;
        &&& c < after.len()
        &&& (notes2.pos[c] == -1 || (notes2.pos[id] >= 0 && notes2.pos[c] == notes2.pos[id] + 1 && k
            == after[id].children.len() - 1))
    } by {
        if id == m {
            if k < nodes[m].children.len() {
                assert(after[id].children[k] == nodes[id].children[k]);
                let c = nodes[id].children[k] as int;
                assert(notes.pos[c] == -1);
            }
        } else {
            assert(after[id].children[k] == nodes[id].children[k]);
            let c = nodes[id].children[k] as int;
            assert(c < n);
        }
    }
}

/// After a node was put below the marker, the recorded trees still hold.
proof fn lemma_attach_shapes(nodes: Seq<NodeView<Term>>, notes: Notes, value: Term, n: usize)
    requires
        inv(nodes, notes),
        n == nodes.len(),
    ensures
        shapes_ok(attached(nodes, notes, value, n), attached_notes(notes, n)),
{
    lemma_attached_nodes(nodes, notes, value, n);
    let after = attached(nodes, notes, value, n);
    let notes2 = attached_notes(notes, n);
    let m = notes.spine.last() as int;
    assert forall|id: int|
        0 <= id < after.len() && (#[trigger] notes2.pos[id]) == -1 implies notes2.shapes[id]
        == shape_of(after, notes2.shapes, id) by {
        assert(id < n && id != m);
        assert(notes.pos[id] == -1);
        assert(after[id] == nodes[id]);
        assert forall|k: int| 0 <= k < nodes[id].children.len() implies notes2.shapes[nodes[id].children[k] as int]
            == notes.shapes[nodes[id].children[k] as int] by {
            assert(nodes[id].children[k] < n);
        }
        assert(shape_of(after, notes2.shapes, id).children =~= shape_of(
            nodes,
            notes.shapes,
            id,
        ).children);
    }
}

/// After a node was put below the marker, terms, back-references and
/// ranking still hold.
proof fn lemma_attach_links(nodes: Seq<NodeView<Term>>, notes: Notes, value: Term, n: usize)
    requires
        inv(nodes, notes),
        value.wf(),
        n == nodes.len(),
        sized(attached(nodes, notes, value, n)),
    ensures
        terms_ok(attached(nodes, notes, value, n)),
        linked(attached(nodes, notes, value, n)),
        ranked(attached(nodes, notes, value, n), attached_notes(notes, n).rank),
{
    lemma_attached_nodes(nodes, notes, value, n);
    let after = attached(nodes, notes, value, n);
    let notes2 = attached_notes(notes, n);
    let m = notes.spine.last() as int;
    assert forall|id: int| 0 <= id < after.len() implies ((#[trigger] after[id]).value matches Some(
        t,
    ) ==> t.wf()) by {
        if id < n {
            assert(after[id].value == nodes[id].value);
        }
    }
    assert forall|i: int| 0 <= i < after.len() && (#[trigger] after[i]).parent is Some implies {
        let (p, k) = after[i].parent->0;
        &&& p < after.len()
        &&& k < after[p as int].children.len()
        &&& after[p as int].children[k as int] == i
    } by {
        if i < n {
            assert(nodes[i].parent == after[i].parent);
            assert(nodes[i].parent is Some);
            let (p, k) = nodes[i].parent->0;
            assert(p < n && k < nodes[p as int].children.len() && nodes[p as int].children[k as int]
                == i);
            if p == m {
                assert(after[m].children[k as int] == nodes[m].children[k as int]);
            } else {
                assert(after[p as int] == nodes[p as int]);
            }
        } else {
            assert(after[m].children.len() == nodes[m].children.len() + 1);
            assert(after[m].children[nodes[m].children.len() as int] == n);
        }
    }
    assert forall|i: int| 0 <= i < after.len() && (#[trigger] after[i]).parent is Some implies {
        let p = after[i].parent_index();
        p < after.len() && notes2.rank[p] < notes2.rank[i]
    } by {
        if i < n {
            assert(nodes[i].parent == after[i].parent);
        }
    }
}

/// After a node was put below the marker, the frames have one more leaf.
proof fn lemma_attach_frames(nodes: Seq<NodeView<Term>>, notes: Notes, value: Term, n: usize)
    requires
        inv(nodes, notes),
        n == nodes.len(),
    ensures
        frames(attached(nodes, notes, value, n), attached_notes(notes, n)) == push_leaf(
            frames(nodes, notes),
            value,
        ),
{
    lemma_attached_nodes(nodes, notes, value, n);
    let after = attached(nodes, notes, value, n);
    let notes2 = attached_notes(notes, n);
    let m = notes.spine.last() as int;
    let top = notes.spine.len() - 1;
    let f1 = frames(after, notes2);
    let f0 = frames(nodes, notes);
    let f2 = push_leaf(f0, value);
    assert(f1.len() == f2.len());
    assert forall|i: int| 0 <= i < f1.len() implies f1[i] == f2[i] by {
        if i <= top {
            assert(notes2.spine[i] == notes.spine[i]);
            let id = notes.spine[i] as int;
            assert(notes.pos[id] == i);
            assert(f2[i] == frame_at(nodes, notes, i));
            let a = frame_at(after, notes2, i);
            let b = frame_at(nodes, notes, i);
            assert(a.value == b.value);
            assert(a.done.len() == b.done.len());
            assert forall|k: int| 0 <= k < a.done.len() implies a.done[k] == b.done[k] by {
                assert(after[id].children[k] == nodes[id].children[k]);
                assert(nodes[id].children[k] < n);
            }
            assert(a.done =~= b.done);
        } else {
            assert(notes2.spine[i] == n);
            assert(frame_at(after, notes2, i).done =~= Seq::<Ast>::empty());
        }
    }
    assert(f1 =~= f2);
}

/// Putting a new node below the marker adds one frame.
pub proof fn lemma_attach(nodes: Seq<NodeView<Term>>, notes: Notes, value: Term, n: usize)
    requires
        inv(nodes, notes),
        value.wf(),
        n == nodes.len(),
        sized(attached(nodes, notes, value, n)),
    ensures
        inv(attached(nodes, notes, value, n), attached_notes(notes, n)),
        frames(attached(nodes, notes, value, n), attached_notes(notes, n)) == push_leaf(
            frames(nodes, notes),
            value,
        ),
{
    lemma_attach_spine(nodes, notes, value, n);
    lemma_attach_chain(nodes, notes, value, n);
    lemma_attach_children(nodes, notes, value, n);
    lemma_attach_shapes(nodes, notes, value, n);
    lemma_attach_links(nodes, notes, value, n);
    lemma_attach_frames(nodes, notes, value, n);
}

/// The recorded trees after every spine node from place `j` on was
/// finished.
pub open spec fn settled_shapes(nodes: Seq<NodeView<Term>>, notes: Notes, j: int) -> Seq<Ast> {
    Seq::new(
        notes.shapes.len(),
        |id: int|
            if notes.pos[id] >= j {
                collapse(frames(nodes, notes).subrange(notes.pos[id], notes.spine.len() as int))
            } else {
                notes.shapes[id]
            },
    )
}

/// The places after every spine node from place `j` on was finished.
pub open spec fn settled_pos(notes: Notes, j: int) -> Seq<int> {
    Seq::new(
        notes.pos.len(),
        |id: int|
            if notes.pos[id] >= j {
                -1
            } else {
                notes.pos[id]
            },
    )
}

/// After the spine from place `j` on was finished, the tree recorded for
/// each node that is finished is the tree below it.
pub proof fn lemma_settle(nodes: Seq<NodeView<Term>>, notes: Notes, j: int)
    requires
        inv(nodes, notes),
        0 <= j <= notes.spine.len(),
    ensures
        forall|id: int|
            0 <= id < nodes.len() && (notes.pos[id] == -1 || notes.pos[id] >= j) ==> (
            #[trigger] settled_shapes(nodes, notes, j)[id]) == shape_of(
                nodes,
                settled_shapes(nodes, notes, j),
                id,
            ),
{
    let s2 = settled_shapes(nodes, notes, j);
    let f = frames(nodes, notes);
    let len = notes.spine.len() as int;
    assert forall|id: int|
        0 <= id < nodes.len() && (notes.pos[id] == -1 || notes.pos[id] >= j) implies (
        #[trigger] s2[id]) == shape_of(nodes, s2, id) by {
        let target = shape_of(nodes, s2, id);
        if notes.pos[id] == -1 {
            assert(s2[id] == notes.shapes[id]);
            assert forall|k: int| 0 <= k < nodes[id].children.len() implies s2[nodes[id].children[k] as int]
                == notes.shapes[nodes[id].children[k] as int] by {
                let c = nodes[id].children[k] as int;
                assert(notes.pos[c] == -1);
            }
            assert(target.children =~= shape_of(nodes, notes.shapes, id).children);
        } else {
            let i = notes.pos[id];
            assert(notes.spine[i] == id);
            let sub = f.subrange(i, len);
            assert(sub[0] == frame_at(nodes, notes, i));
            if i == len - 1 {
                assert(sub.len() == 1);
                assert(s2[id] == Ast { value: sub[0].value, children: sub[0].done });
                assert forall|k: int| 0 <= k < nodes[id].children.len() implies s2[nodes[id].children[k] as int]
                    == notes.shapes[nodes[id].children[k] as int] by {
                    let c = nodes[id].children[k] as int;
                    assert(notes.pos[c] == -1);
                }
                assert(target.children =~= sub[0].done);
            } else {
                assert(sub.len() > 1);
                assert(sub.subrange(1, sub.len() as int) =~= f.subrange(i + 1, len));
                let below = collapse(f.subrange(i + 1, len));
                assert(s2[id] == Ast { value: sub[0].value, children: sub[0].done.push(below) });
                let next = notes.spine[i + 1] as int;
                assert(notes.pos[next] == i + 1);
                assert(s2[next] == below);
                let last = nodes[id].children.len() - 1;
                assert(nodes[id].children[last] == next);
                assert forall|k: int| 0 <= k < last implies s2[nodes[id].children[k] as int]
                    == notes.shapes[nodes[id].children[k] as int] by {
                    let c = nodes[id].children[k] as int;
                    assert(notes.pos[c] == -1);
                }
                assert(target.children =~= sub[0].done.push(below));
            }
        }
    }
}

/// The nodes after a new node `n` holding `op` took the place of the
/// spine node at place `j`, with that node as its only child.
pub open spec fn spliced(
    nodes: Seq<NodeView<Term>>,
    notes: Notes,
    j: int,
    op: Operator,
    n: usize,
) -> Seq<NodeView<Term>> {
    let m = notes.spine[j] as int;
    let pushed = nodes.push(leaf(Some(Term::Operator(op))));
    let joined = with_child(pushed, n as int, m);
    if j == 0 {
        joined
    } else {
        with_child_at(joined, notes.spine[j - 1] as int, nodes[m].parent_place(), n as int)
    }
}

/// The notes after a new node `n` took the place of the spine node at
/// place `j`.
pub open spec fn spliced_notes(nodes: Seq<NodeView<Term>>, notes: Notes, j: int, n: usize) -> Notes {
    Notes {
        spine: notes.spine.subrange(0, j).push(n),
        pos: settled_pos(notes, j).push(j),
        shapes: settled_shapes(nodes, notes, j).push(arbitrary()),
        rank: Seq::new(nodes.len(), |i: int| (2 * notes.rank[i] + 1) as nat).push(
            2 * notes.rank[notes.spine[j] as int],
        ),
    }
}

/// What the nodes are after a splice.
pub proof fn lemma_spliced_nodes(
    nodes: Seq<NodeView<Term>>,
    notes: Notes,
    j: int,
    op: Operator,
    n: usize,
)
    requires
        spine_ok(nodes, notes),
        chain_ok(nodes, notes),
        sized(nodes),
        0 <= j < notes.spine.len(),
        n == nodes.len(),
    ensures
        ({
            let m = notes.spine[j] as int;
            let after = spliced(nodes, notes, j, op, n);
            &&& 0 <= m < n
            &&& notes.pos[m] == j
            &&& after.len() == n + 1
            &&& after[m] == (NodeView { parent: Some((n, 0usize)), ..nodes[m] })
            &&& after[n as int].value == Some(Term::Operator(op))
            &&& after[n as int].children == seq![m as usize]
            &&& j == 0 ==> after[n as int].parent is None
            &&& j == 0 ==> forall|id: int| 0 <= id < n && id != m ==> #[trigger] after[id] == nodes[id]
            &&& j > 0 ==> {
                let p = notes.spine[j - 1] as int;
                let k = nodes[p].children.len() - 1;
                &&& 0 <= p < n
                &&& p != m
                &&& notes.pos[p] == j - 1
                &&& k >= 0
                &&& nodes[p].children[k] == m
                &&& nodes[m].parent == Some((p as usize, k as usize))
                &&& after[n as int].parent == Some((p as usize, k as usize))
                &&& after[p] == (NodeView { children: nodes[p].children.update(k, n), ..nodes[p] })
                &&& forall|id: int|
                    0 <= id < n && id != m && id != p ==> #[trigger] after[id] == nodes[id]
            }
        }),
{
    let m = notes.spine[j] as int;
    let pushed = nodes.push(leaf(Some(Term::Operator(op))));
    let joined = with_child(pushed, n as int, m);
    assert(joined[n as int].children =~= seq![m as usize]);
    if j > 0 {
        let p = notes.spine[j - 1] as int;
        assert(notes.pos[p] == j - 1);
        assert(notes.spine[j - 1 + 1] == m);
    }
}

/// After a splice, spine and places agree.
proof fn lemma_splice_spine(
    nodes: Seq<NodeView<Term>>,
    notes: Notes,
    j: int,
    op: Operator,
    n: usize,
)
    requires
        inv(nodes, notes),
        0 <= j < notes.spine.len(),
        n == nodes.len(),
    ensures
        spine_ok(spliced(nodes, notes, j, op, n), spliced_notes(nodes, notes, j, n)),
{
    lemma_spliced_nodes(nodes, notes, j, op, n);
    let after = spliced(nodes, notes, j, op, n);
    let notes2 = spliced_notes(nodes, notes, j, n);
    assert forall|i: int| 0 <= i < notes2.spine.len() implies (#[trigger] notes2.spine[i])
        < after.len() && notes2.pos[notes2.spine[i] as int] == i by {
        if i < j {
            assert(notes2.spine[i] == notes.spine[i]);
            assert(notes.pos[notes.spine[i] as int] == i);
        }
    }
    assert forall|id: int| 0 <= id < after.len() implies (#[trigger] notes2.pos[id]) == -1 || (0
        <= notes2.pos[id] < notes2.spine.len() && notes2.spine[notes2.pos[id]] == id) by {
        if id < n {
            assert(notes.pos[id] == -1 || (0 <= notes.pos[id] < notes.spine.len()
                && notes.spine[notes.pos[id]] == id));
            if 0 <= notes.pos[id] < j {
                assert(notes2.spine[notes.pos[id]] == notes.spine[notes.pos[id]]);
            }
        }
    }
}

/// After a splice, the spine is still a chain.
proof fn lemma_splice_chain(
    nodes: Seq<NodeView<Term>>,
    notes: Notes,
    j: int,
    op: Operator,
    n: usize,
)
    requires
        inv(nodes, notes),
        0 <= j < notes.spine.len(),
        n == nodes.len(),
    ensures
        chain_ok(spliced(nodes, notes, j, op, n), spliced_notes(nodes, notes, j, n)),
{
    lemma_spliced_nodes(nodes, notes, j, op, n);
    let after = spliced(nodes, notes, j, op, n);
    let notes2 = spliced_notes(nodes, notes, j, n);
    let m = notes.spine[j] as int;
    if j > 0 {
        assert(notes2.spine[0] == notes.spine[0]);
        assert(notes.pos[notes.spine[0] as int] == 0);
    }
    assert forall|i: int| 0 <= i < notes2.spine.len() - 1 implies {
        let p = after[(#[trigger] notes2.spine[i]) as int];
        &&& p.children.len() >= 1
        &&& p.children.last() == notes2.spine[i + 1]
        &&& after[notes2.spine[i + 1] as int].parent == Some(
            (notes2.spine[i], (p.children.len() - 1) as usize),
        )
    } by {
        assert(i < j);
        assert(notes2.spine[i] == notes.spine[i]);
        assert(notes.pos[notes.spine[i] as int] == i);
        if i < j - 1 {
            assert(notes2.spine[i + 1] == notes.spine[i + 1]);
            assert(notes.pos[notes.spine[i + 1] as int] == i + 1);
        } else {
            assert(notes2.spine[i + 1] == n);
        }
    }
}

/// After a splice, the children are still in order.
proof fn lemma_splice_children(
    nodes: Seq<NodeView<Term>>,
    notes: Notes,
    j: int,
    op: Operator,
    n: usize,
)
    requires
        inv(nodes, notes),
        0 <= j < notes.spine.len(),
        n == nodes.len(),
    ensures
        children_ok(spliced(nodes, notes, j, op, n), spliced_notes(nodes, notes, j, n)),
{
    lemma_spliced_nodes(nodes, notes, j, op, n);
    let after = spliced(nodes, notes, j, op, n);
    let notes2 = spliced_notes(nodes, notes, j, n);
    let m = notes.spine[j] as int;
    assert forall|id: int, k: int|
        0 <= id < after.len() && 0 <= k < after[id].children.len() implies {
        let c = (#[trigger] after[id].children[k]) as int;
        &&& c < after.len()
        &&& (notes2.pos[c] == -1 || (notes2.pos[id] >= 0 && notes2.pos[c] == notes2.pos[id] + 1 && k
            == after[id].children.len() - 1))
    } by {
        if id == n {
            assert(after[id].children[k] == m);
        } else if j > 0 && id == notes.spine[j - 1] {
            if k < nodes[id].children.len() - 1 {
                assert(after[id].children[k] == nodes[id].children[k]);
                let c = nodes[id].children[k] as int;
                assert(c < n);
                assert(notes.pos[c] == -1);
            } else {
                assert(after[id].children[k] == n);
            }
        } else {
            assert(after[id].children == nodes[id].children);
            let c = nodes[id].children[k] as int;
            assert(c < n);
            assert(notes.pos[c] == -1 || (notes.pos[id] >= 0 && notes.pos[c] == notes.pos[id] + 1
                && k == nodes[id].children.len() - 1));
            assert(notes.pos[id] == -1 || (0 <= notes.pos[id] < notes.spine.len()
                && notes.spine[notes.pos[id]] == id));
        }
    }
}

/// After a splice, the recorded trees hold of every finished node.
proof fn lemma_splice_shapes(
    nodes: Seq<NodeView<Term>>,
    notes: Notes,
    j: int,
    op: Operator,
    n: usize,
)
    requires
        inv(nodes, notes),
        0 <= j < notes.spine.len(),
        n == nodes.len(),
    ensures
        shapes_ok(spliced(nodes, notes, j, op, n), spliced_notes(nodes, notes, j, n)),
{
    lemma_spliced_nodes(nodes, notes, j, op, n);
    lemma_settle(nodes, notes, j);
    let after = spliced(nodes, notes, j, op, n);
    let notes2 = spliced_notes(nodes, notes, j, n);
    let s1 = settled_shapes(nodes, notes, j);
    let m = notes.spine[j] as int;
    assert forall|id: int|
        0 <= id < after.len() && (#[trigger] notes2.pos[id]) == -1 implies notes2.shapes[id]
        == shape_of(after, notes2.shapes, id) by {
        assert(id < n);
        assert(notes.pos[id] == -1 || notes.pos[id] >= j);
        assert(s1[id] == shape_of(nodes, s1, id));
        assert(after[id].value == nodes[id].value);
        assert(after[id].children == nodes[id].children);
        assert forall|k: int| 0 <= k < nodes[id].children.len() implies notes2.shapes[nodes[id].children[k] as int]
            == s1[nodes[id].children[k] as int] by {
            assert(nodes[id].children[k] < n);
        }
        assert(shape_of(after, notes2.shapes, id).children =~= shape_of(nodes, s1, id).children);
    }
}

/// After a splice, terms and back-references still hold.
proof fn lemma_splice_links(
    nodes: Seq<NodeView<Term>>,
    notes: Notes,
    j: int,
    op: Operator,
    n: usize,
)
    requires
        inv(nodes, notes),
        0 <= j < notes.spine.len(),
        n == nodes.len(),
    ensures
        terms_ok(spliced(nodes, notes, j, op, n)),
        linked(spliced(nodes, notes, j, op, n)),
{
    lemma_spliced_nodes(nodes, notes, j, op, n);
    let after = spliced(nodes, notes, j, op, n);
    let m = notes.spine[j] as int;
    assert forall|id: int| 0 <= id < after.len() implies ((#[trigger] after[id]).value matches Some(
        t,
    ) ==> t.wf()) by {
        if id < n {
            assert(after[id].value == nodes[id].value);
        }
    }
    assert forall|i: int| 0 <= i < after.len() && (#[trigger] after[i]).parent is Some implies {
        let (p, k) = after[i].parent->0;
        &&& p < after.len()
        &&& k < after[p as int].children.len()
        &&& after[p as int].children[k as int] == i
    } by {
        if i == n {
        } else if i == m {
            assert(after[n as int].children[0] == m);
        } else {
            assert(nodes[i].parent == after[i].parent);
            assert(nodes[i].parent is Some);
            let (p, k) = nodes[i].parent->0;
            assert(p < n && k < nodes[p as int].children.len() && nodes[p as int].children[k as int]
                == i);
            assert(after[p as int].children.len() == nodes[p as int].children.len());
            assert(after[p as int].children[k as int] == nodes[p as int].children[k as int]);
        }
    }
}

/// After a splice, the new ranking shows that parents lead to a root.
proof fn lemma_splice_rank(
    nodes: Seq<NodeView<Term>>,
    notes: Notes,
    j: int,
    op: Operator,
    n: usize,
)
    requires
        inv(nodes, notes),
        0 <= j < notes.spine.len(),
        n == nodes.len(),
    ensures
        ranked(spliced(nodes, notes, j, op, n), spliced_notes(nodes, notes, j, n).rank),
{
    lemma_spliced_nodes(nodes, notes, j, op, n);
    let after = spliced(nodes, notes, j, op, n);
    let notes2 = spliced_notes(nodes, notes, j, n);
    let m = notes.spine[j] as int;
    assert forall|i: int| 0 <= i < after.len() && (#[trigger] after[i]).parent is Some implies {
        let p = after[i].parent_index();
        p < after.len() && notes2.rank[p] < notes2.rank[i]
    } by {
        if i == n {
            assert(nodes[m].parent is Some);
        } else if i == m {
        } else {
            assert(nodes[i].parent == after[i].parent);
            assert(nodes[i].parent is Some);
        }
    }
}

/// After a splice, the frames are those of the splice.
proof fn lemma_splice_frames(
    nodes: Seq<NodeView<Term>>,
    notes: Notes,
    j: int,
    op: Operator,
    n: usize,
)
    requires
        inv(nodes, notes),
        0 <= j < notes.spine.len(),
        n == nodes.len(),
    ensures
        frames(spliced(nodes, notes, j, op, n), spliced_notes(nodes, notes, j, n)) == splice_at(
            frames(nodes, notes),
            j,
            op,
        ),
{
    lemma_spliced_nodes(nodes, notes, j, op, n);
    let after = spliced(nodes, notes, j, op, n);
    let notes2 = spliced_notes(nodes, notes, j, n);
    let s1 = settled_shapes(nodes, notes, j);
    let m = notes.spine[j] as int;
    let f0 = frames(nodes, notes);
    let f1 = frames(after, notes2);
    let f2 = splice_at(f0, j, op);
    assert(f1.len() == f2.len());
    assert forall|i: int| 0 <= i < f1.len() implies f1[i] == f2[i] by {
        if i < j {
            assert(notes2.spine[i] == notes.spine[i]);
            let id = notes.spine[i] as int;
            assert(notes.pos[id] == i);
            assert(f2[i] == frame_at(nodes, notes, i));
            let a = frame_at(after, notes2, i);
            let b = frame_at(nodes, notes, i);
            assert(a.value == b.value);
            assert(after[id].children.len() == nodes[id].children.len());
            assert(a.done.len() == b.done.len());
            assert forall|k: int| 0 <= k < a.done.len() implies a.done[k] == b.done[k] by {
                assert(after[id].children[k] == nodes[id].children[k]);
                let c = nodes[id].children[k] as int;
                assert(c < n);
                assert(notes.pos[c] == -1);
            }
            assert(a.done =~= b.done);
        } else {
            assert(notes2.spine[i] == n);
            let a = frame_at(after, notes2, i);
            assert(a.done.len() == 1);
            assert(after[n as int].children[0] == m);
            assert(a.done[0] == s1[m]);
            assert(a.done =~= seq![collapse(f0.subrange(j, f0.len() as int))]);
        }
    }
    assert(f1 =~= f2);
}

/// Splicing an operator in at place `j` of the spine is the splice of the
/// frames.
pub proof fn lemma_splice(
    nodes: Seq<NodeView<Term>>,
    notes: Notes,
    j: int,
    op: Operator,
    n: usize,
)
    requires
        inv(nodes, notes),
        0 <= j < notes.spine.len(),
        n == nodes.len(),
        sized(spliced(nodes, notes, j, op, n)),
    ensures
        inv(spliced(nodes, notes, j, op, n), spliced_notes(nodes, notes, j, n)),
        frames(spliced(nodes, notes, j, op, n), spliced_notes(nodes, notes, j, n)) == splice_at(
            frames(nodes, notes),
            j,
            op,
        ),
{
    lemma_splice_spine(nodes, notes, j, op, n);
    lemma_splice_chain(nodes, notes, j, op, n);
    lemma_splice_children(nodes, notes, j, op, n);
    lemma_splice_shapes(nodes, notes, j, op, n);
    lemma_splice_links(nodes, notes, j, op, n);
    lemma_splice_rank(nodes, notes, j, op, n);
    lemma_splice_frames(nodes, notes, j, op, n);
}

/// The nodes after the parenthesis at place `j` of the spine was closed.
pub open spec fn closed(nodes: Seq<NodeView<Term>>, notes: Notes, j: int) -> Seq<NodeView<Term>> {
    let q = notes.spine[j] as int;
    nodes.update(q, NodeView { value: Some(Term::Paren(Paren::Right)), ..nodes[q] })
}

/// The notes after the parenthesis at place `j` of the spine was closed.
pub open spec fn closed_notes(nodes: Seq<NodeView<Term>>, notes: Notes, j: int) -> Notes {
    Notes {
        spine: notes.spine.subrange(0, j + 1),
        pos: settled_pos(notes, j + 1),
        shapes: settled_shapes(nodes, notes, j + 1),
        rank: notes.rank,
    }
}

/// After a parenthesis was closed, spine and places agree and the spine is
/// still a chain.
proof fn lemma_close_spine(nodes: Seq<NodeView<Term>>, notes: Notes, j: int)
    requires
        inv(nodes, notes),
        0 <= j < notes.spine.len() - 1,
    ensures
        spine_ok(closed(nodes, notes, j), closed_notes(nodes, notes, j)),
        chain_ok(closed(nodes, notes, j), closed_notes(nodes, notes, j)),
{
    let after = closed(nodes, notes, j);
    let notes2 = closed_notes(nodes, notes, j);
    assert forall|i: int| 0 <= i < notes2.spine.len() implies (#[trigger] notes2.spine[i])
        < after.len() && notes2.pos[notes2.spine[i] as int] == i by {
        assert(notes2.spine[i] == notes.spine[i]);
        assert(notes.pos[notes.spine[i] as int] == i);
    }
    assert forall|id: int| 0 <= id < after.len() implies (#[trigger] notes2.pos[id]) == -1 || (0
        <= notes2.pos[id] < notes2.spine.len() && notes2.spine[notes2.pos[id]] == id) by {
        assert(notes.pos[id] == -1 || (0 <= notes.pos[id] < notes.spine.len()
            && notes.spine[notes.pos[id]] == id));
        if 0 <= notes.pos[id] <= j {
            assert(notes2.spine[notes.pos[id]] == notes.spine[notes.pos[id]]);
        }
    }
    assert(notes2.spine[0] == notes.spine[0]);
    assert forall|i: int| 0 <= i < notes2.spine.len() - 1 implies {
        let p = after[(#[trigger] notes2.spine[i]) as int];
        &&& p.children.len() >= 1
        &&& p.children.last() == notes2.spine[i + 1]
        &&& after[notes2.spine[i + 1] as int].parent == Some(
            (notes2.spine[i], (p.children.len() - 1) as usize),
        )
    } by {
        assert(notes2.spine[i] == notes.spine[i]);
        assert(notes2.spine[i + 1] == notes.spine[i + 1]);
    }
}

/// After a parenthesis was closed, the children are still in order.
proof fn lemma_close_children(nodes: Seq<NodeView<Term>>, notes: Notes, j: int)
    requires
        inv(nodes, notes),
        0 <= j < notes.spine.len() - 1,
    ensures
        children_ok(closed(nodes, notes, j), closed_notes(nodes, notes, j)),
{
    let after = closed(nodes, notes, j);
    let notes2 = closed_notes(nodes, notes, j);
    assert forall|id: int, k: int|
        0 <= id < after.len() && 0 <= k < after[id].children.len() implies {
        let c = (#[trigger] after[id].children[k]) as int;
        &&& c < after.len()
        &&& (notes2.pos[c] == -1 || (notes2.pos[id] >= 0 && notes2.pos[c] == notes2.pos[id] + 1 && k
            == after[id].children.len() - 1))
    } by {
        assert(after[id].children == nodes[id].children);
        let c = nodes[id].children[k] as int;
        assert(c < nodes.len());
        assert(notes.pos[c] == -1 || (notes.pos[id] >= 0 && notes.pos[c] == notes.pos[id] + 1 && k
            == nodes[id].children.len() - 1));
    }
}

/// After a parenthesis was closed, terms and sizes still hold.
proof fn lemma_close_terms(nodes: Seq<NodeView<Term>>, notes: Notes, j: int)
    requires
        inv(nodes, notes),
        0 <= j < notes.spine.len() - 1,
    ensures
        terms_ok(closed(nodes, notes, j)),
        sized(closed(nodes, notes, j)),
{
    let after = closed(nodes, notes, j);
    assert forall|id: int| 0 <= id < after.len() implies ((#[trigger] after[id]).value matches Some(
        t,
    ) ==> t.wf()) by {
        if id != notes.spine[j] {
            assert(after[id].value == nodes[id].value);
        }
    }
    assert forall|i: int| 0 <= i < after.len() implies (#[trigger] after[i]).children.len()
        <= usize::MAX by {
        assert(after[i].children == nodes[i].children);
    }
}

/// After a parenthesis was closed, back-references and ranking still hold.
proof fn lemma_close_links(nodes: Seq<NodeView<Term>>, notes: Notes, j: int)
    requires
        linked(nodes),
        ranked(nodes, notes.rank),
        0 <= j < notes.spine.len() - 1,
        notes.spine[j] < nodes.len(),
    ensures
        linked(closed(nodes, notes, j)),
        ranked(closed(nodes, notes, j), notes.rank),
{
    let after = closed(nodes, notes, j);
    assert forall|i: int| 0 <= i < after.len() && (#[trigger] after[i]).parent is Some implies {
        let (p, k) = after[i].parent->0;
        &&& p < after.len()
        &&& k < after[p as int].children.len()
        &&& after[p as int].children[k as int] == i
    } by {
        assert(nodes[i].parent == after[i].parent);
        let (p, k) = nodes[i].parent->0;
        assert(p < nodes.len());
        assert(after[p as int].children == nodes[p as int].children);
    }
    assert forall|i: int| 0 <= i < after.len() && (#[trigger] after[i]).parent is Some implies {
        let p = after[i].parent_index();
        p < after.len() && notes.rank[p] < notes.rank[i]
    } by {
        assert(nodes[i].parent == after[i].parent);
    }
}

/// After a parenthesis was closed, the recorded trees hold of every
/// finished node.
proof fn lemma_close_shapes(nodes: Seq<NodeView<Term>>, notes: Notes, j: int)
    requires
        inv(nodes, notes),
        0 <= j < notes.spine.len() - 1,
    ensures
        shapes_ok(closed(nodes, notes, j), closed_notes(nodes, notes, j)),
{
    lemma_settle(nodes, notes, j + 1);
    let after = closed(nodes, notes, j);
    let notes2 = closed_notes(nodes, notes, j);
    let s1 = settled_shapes(nodes, notes, j + 1);
    assert(notes.pos[notes.spine[j] as int] == j);
    assert forall|id: int|
        0 <= id < after.len() && (#[trigger] notes2.pos[id]) == -1 implies notes2.shapes[id]
        == shape_of(after, notes2.shapes, id) by {
        assert(notes.pos[id] == -1 || notes.pos[id] >= j + 1);
        assert(id != notes.spine[j]);
        assert(s1[id] == shape_of(nodes, s1, id));
        assert(after[id] == nodes[id]);
        assert(shape_of(after, s1, id).children =~= shape_of(nodes, s1, id).children);
    }
}

/// After a parenthesis was closed, the frames are those of the closing.
proof fn lemma_close_frames(nodes: Seq<NodeView<Term>>, notes: Notes, j: int)
    requires
        inv(nodes, notes),
        0 <= j < notes.spine.len() - 1,
    ensures
        frames(closed(nodes, notes, j), closed_notes(nodes, notes, j)) == close_at(
            frames(nodes, notes),
            j,
        ),
{
    let after = closed(nodes, notes, j);
    let notes2 = closed_notes(nodes, notes, j);
    let s1 = settled_shapes(nodes, notes, j + 1);
    let q = notes.spine[j] as int;
    let f0 = frames(nodes, notes);
    let f1 = frames(after, notes2);
    let f2 = close_at(f0, j);
    assert(notes.pos[q] == j);
    assert(f1.len() == f2.len());
    assert forall|i: int| 0 <= i < f1.len() implies f1[i] == f2[i] by {
        assert(notes2.spine[i] == notes.spine[i]);
        let id = notes.spine[i] as int;
        assert(notes.pos[id] == i);
        let a = frame_at(after, notes2, i);
        let b = frame_at(nodes, notes, i);
        assert(after[id].children == nodes[id].children);
        if i < j {
            assert(f2[i] == b);
            assert(a.value == b.value);
            assert(a.done.len() == b.done.len());
            assert forall|k: int| 0 <= k < a.done.len() implies a.done[k] == b.done[k] by {
                let c = nodes[id].children[k] as int;
                assert(c < nodes.len());
                assert(notes.pos[c] == -1);
            }
            assert(a.done =~= b.done);
        } else {
            let below = collapse(f0.subrange(j + 1, f0.len() as int));
            let last = nodes[id].children.len() - 1;
            assert(f0[j] == b);
            assert(b.done.len() == last);
            assert(a.done.len() == last + 1);
            let next = notes.spine[j + 1] as int;
            assert(nodes[id].children[last] == next);
            assert(notes.pos[next] == j + 1);
            assert(s1[next] == below);
            assert forall|k: int| 0 <= k < last implies a.done[k] == b.done[k] by {
                let c = nodes[id].children[k] as int;
                assert(c < nodes.len());
                assert(notes.pos[c] == -1);
            }
            assert(a.done =~= b.done.push(below));
        }
    }
    assert(f1 =~= f2);
}

/// Closing the parenthesis at place `j` of the spine is closing it in the
/// frames.
pub proof fn lemma_close(nodes: Seq<NodeView<Term>>, notes: Notes, j: int)
    requires
        inv(nodes, notes),
        0 <= j < notes.spine.len() - 1,
    ensures
        inv(closed(nodes, notes, j), closed_notes(nodes, notes, j)),
        frames(closed(nodes, notes, j), closed_notes(nodes, notes, j)) == close_at(
            frames(nodes, notes),
            j,
        ),
{
    lemma_close_spine(nodes, notes, j);
    lemma_close_children(nodes, notes, j);
    lemma_close_terms(nodes, notes, j);
    lemma_close_links(nodes, notes, j);
    lemma_close_shapes(nodes, notes, j);
    lemma_close_frames(nodes, notes, j);
}

/// Whether `shapes` records for every node the tree below it.
pub open spec fn finished(nodes: Seq<NodeView<Term>>, shapes: Seq<Ast>) -> bool {
    &&& shapes.len() == nodes.len()
    &&& forall|id: int, k: int|
        0 <= id < nodes.len() && 0 <= k < nodes[id].children.len() ==> (
        #[trigger] nodes[id].children[k]) < nodes.len()
    &&& forall|id: int|
        0 <= id < nodes.len() ==> (#[trigger] shapes[id]) == shape_of(nodes, shapes, id)
}

/// At the end every node is finished, and the tree below the root is the
/// tree that the frames stand for.
pub proof fn lemma_finish(nodes: Seq<NodeView<Term>>, notes: Notes)
    requires
        inv(nodes, notes),
    ensures
        finished(nodes, settled_shapes(nodes, notes, 0)),
        settled_shapes(nodes, notes, 0)[notes.spine[0] as int] == collapse(frames(nodes, notes)),
{
    lemma_settle(nodes, notes, 0);
    let s1 = settled_shapes(nodes, notes, 0);
    let f = frames(nodes, notes);
    assert(notes.pos[notes.spine[0] as int] == 0);
    assert(f.subrange(0, f.len() as int) =~= f);
    assert forall|id: int| 0 <= id < nodes.len() implies (#[trigger] s1[id]) == shape_of(
        nodes,
        s1,
        id,
    ) by {
        assert(notes.pos[id] == -1 || notes.pos[id] >= 0);
    }
}

/// What the parser may rely on about the node at place `j` of the spine:
/// it is a node, its frame holds what it holds, the first node of the
/// spine has no parent, and every other names the one before it as its
/// parent, with a place that exists.
pub proof fn lemma_spine_node(nodes: Seq<NodeView<Term>>, notes: Notes, j: int)
    requires
        inv(nodes, notes),
        0 <= j < notes.spine.len(),
    ensures
        notes.spine[j] < nodes.len(),
        frames(nodes, notes).len() == notes.spine.len(),
        frames(nodes, notes)[j].value == nodes[notes.spine[j] as int].value,
        j == 0 ==> nodes[notes.spine[j] as int].parent is None,
        j > 0 ==> nodes[notes.spine[j] as int].parent is Some
            && nodes[notes.spine[j] as int].parent_index() == notes.spine[j - 1]
            && 0 <= nodes[notes.spine[j] as int].parent_place()
            < nodes[notes.spine[j - 1] as int].children.len(),
        linked(nodes),
        acyclic(nodes),
        terms_ok(nodes),
{
    assert(ranked(nodes, notes.rank));
    if j > 0 {
        assert(notes.spine[j - 1 + 1] == notes.spine[j]);
        let p = nodes[notes.spine[j - 1] as int];
        assert(nodes[notes.spine[j] as int].parent == Some(
            (notes.spine[j - 1], (p.children.len() - 1) as usize),
        ));
    }
}

/// The root above every node of the spine is the first node of the spine.
pub proof fn lemma_root_of_spine(nodes: Seq<NodeView<Term>>, notes: Notes, i: int)
    requires
        inv(nodes, notes),
        0 <= i < notes.spine.len(),
    ensures
        acyclic(nodes),
        spec_root(nodes, notes.spine[i] as int) == notes.spine[0],
    decreases i,
{
    assert(ranked(nodes, notes.rank));
    if i > 0 {
        lemma_root_of_spine(nodes, notes, i - 1);
        assert(nodes[notes.spine[i - 1 + 1] as int].parent is Some);
    }
}

/// The nodes fix the tree below each of them: two records of finished
/// trees agree.
pub proof fn lemma_finished_unique(
    nodes: Seq<NodeView<Term>>,
    first: Seq<Ast>,
    second: Seq<Ast>,
    id: int,
)
    requires
        finished(nodes, first),
        finished(nodes, second),
        0 <= id < nodes.len(),
    ensures
        first[id] == second[id],
    decreases first[id],
{
    let a = shape_of(nodes, first, id);
    let b = shape_of(nodes, second, id);
    assert(first[id] == a);
    assert(second[id] == b);
    assert forall|k: int| 0 <= k < nodes[id].children.len() implies a.children[k]
        == b.children[k] by {
        let c = nodes[id].children[k] as int;
        assert(first[id].children[k] == first[c]);
        lemma_finished_unique(nodes, first, second, c);
    }
    assert(a.children =~= b.children);
}

} // verus!
