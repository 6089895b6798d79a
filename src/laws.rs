use vstd::multiset::Multiset;
use vstd::prelude::*;

use crate::atom::{infer_view, AtomView};
use crate::evaluator::lemma_child_ref;
use crate::node::NodeView;
use crate::reader::{
    add_child, is_closer, is_opener, is_quote_mark, read_prefix, read_result, read_step, Arena,
    ReadState,
};

verus! {

/// The number of opening container delimiters among `toks`.
pub open spec fn count_openers(toks: Seq<Seq<char>>) -> int
    decreases toks.len(),
{
    if toks.len() == 0 {
        0
    } else {
        count_openers(toks.drop_last()) + if is_opener(toks.last()) {
            1int
        } else {
            0int
        }
    }
}

/// The number of closing container delimiters among `toks`.
pub open spec fn count_closers(toks: Seq<Seq<char>>) -> int
    decreases toks.len(),
{
    if toks.len() == 0 {
        0
    } else {
        count_closers(toks.drop_last()) + if is_closer(toks.last()) {
            1int
        } else {
            0int
        }
    }
}

/// How many containers are open after `toks`.
pub open spec fn depth(toks: Seq<Seq<char>>) -> int {
    count_openers(toks) - count_closers(toks)
}

/// No prefix closes more containers than it opens, and the whole closes all it
/// opens.
pub open spec fn well_nested(toks: Seq<Seq<char>>) -> bool {
    &&& forall|k: int| 0 <= k <= toks.len() ==> depth(#[trigger] toks.take(k)) >= 0
    &&& depth(toks) == 0
}

/// A token that becomes an atom: neither a container delimiter nor a quote mark.
pub open spec fn is_literal(t: Seq<char>) -> bool {
    !is_opener(t) && !is_closer(t) && !is_quote_mark(t)
}

/// The atoms that the literal tokens of `toks` stand for.
pub open spec fn token_literals(toks: Seq<Seq<char>>) -> Multiset<AtomView>
    decreases toks.len(),
{
    if toks.len() == 0 {
        Multiset::empty()
    } else {
        let m = token_literals(toks.drop_last());
        if is_literal(toks.last()) {
            m.insert(infer_view(toks.last()))
        } else {
            m
        }
    }
}

/// The children of a node that are not references.
pub open spec fn node_literals(cs: Seq<AtomView>) -> Multiset<AtomView>
    decreases cs.len(),
{
    if cs.len() == 0 {
        Multiset::empty()
    } else {
        let m = node_literals(cs.drop_last());
        if cs.last() is Reference {
            m
        } else {
            m.insert(cs.last())
        }
    }
}

/// The children of all nodes that are not references.
pub open spec fn arena_literals(nodes: Seq<NodeView>) -> Multiset<AtomView>
    decreases nodes.len(),
{
    if nodes.len() == 0 {
        Multiset::empty()
    } else {
        arena_literals(nodes.drop_last()).add(node_literals(nodes.last().children))
    }
}

proof fn lemma_arena_literals_update(nodes: Seq<NodeView>, i: int, n: NodeView, extra: Multiset<AtomView>)
    requires
        0 <= i < nodes.len(),
        node_literals(n.children) == node_literals(nodes[i].children).add(extra),
    ensures
        arena_literals(nodes.update(i, n)) == arena_literals(nodes).add(extra),
    decreases nodes.len(),
{
    let u = nodes.update(i, n);
    if i == nodes.len() - 1 {
        assert(u.drop_last() =~= nodes.drop_last());
    } else {
        lemma_arena_literals_update(nodes.drop_last(), i, n, extra);
        assert(u.drop_last() =~= nodes.drop_last().update(i, n));
    }
    assert(arena_literals(u) =~= arena_literals(nodes).add(extra));
}

proof fn lemma_add_child_literals(st: ReadState, a: AtomView)
    requires
        st.open.len() > 0,
        forall|i: int| 0 <= i < st.open.len() ==> #[trigger] st.open[i] < st.nodes.len(),
    ensures
        arena_literals(add_child(st, a).nodes) == if a is Reference {
            arena_literals(st.nodes)
        } else {
            arena_literals(st.nodes).insert(a)
        },
{
    let top = st.open.last() as int;
    assert(st.open[st.open.len() - 1] < st.nodes.len());
    let cs = st.nodes[top].children;
    assert(cs.push(a).drop_last() =~= cs);
    if a is Reference {
        assert(node_literals(cs.push(a)) =~= node_literals(cs).add(Multiset::empty()));
        lemma_arena_literals_update(st.nodes, top, add_child(st, a).nodes[top], Multiset::empty());
        assert(arena_literals(st.nodes).add(Multiset::empty()) =~= arena_literals(st.nodes));
    } else {
        assert(node_literals(cs.push(a)) =~= node_literals(cs).add(Multiset::singleton(a)));
        lemma_arena_literals_update(
            st.nodes,
            top,
            add_child(st, a).nodes[top],
            Multiset::singleton(a),
        );
        assert(arena_literals(st.nodes).add(Multiset::singleton(a)) =~= arena_literals(
            st.nodes,
        ).insert(a));
    }
}

/// Reading a prefix that never closes more than it opened succeeds, with one
/// node per opener and one open container per unclosed opener; where every
/// literal of the prefix stands inside a container, the nodes hold exactly
/// the prefix's literals.
proof fn lemma_prefix(toks: Seq<Seq<char>>, k: int)
    requires
        0 <= k <= toks.len(),
        forall|j: int| 0 <= j <= k ==> depth(#[trigger] toks.take(j)) >= 0,
    ensures
        read_prefix(toks.take(k)) is Ok,
        read_prefix(toks.take(k))->Ok_0.nodes.len() == count_openers(toks.take(k)),
        read_prefix(toks.take(k))->Ok_0.open.len() == depth(toks.take(k)),
        forall|i: int|
            0 <= i < read_prefix(toks.take(k))->Ok_0.open.len() ==> #[trigger] read_prefix(
                toks.take(k),
            )->Ok_0.open[i] < read_prefix(toks.take(k))->Ok_0.nodes.len(),
        (forall|j: int| 0 <= j < k && is_literal(toks[j]) ==> depth(#[trigger] toks.take(j)) > 0)
            ==> arena_literals(read_prefix(toks.take(k))->Ok_0.nodes) == token_literals(
            toks.take(k),
        ),
    decreases k,
{
    let p = toks.take(k);
    if k == 0 {
        assert(p =~= Seq::<Seq<char>>::empty());
    } else {
        lemma_prefix(toks, k - 1);
        assert(p.drop_last() =~= toks.take(k - 1));
        assert(p.last() == toks[k - 1]);
        let st = read_prefix(toks.take(k - 1))->Ok_0;
        let t = toks[k - 1];
        assert(depth(toks.take(k)) >= 0);
        if (forall|j: int| 0 <= j < k && is_literal(toks[j]) ==> depth(#[trigger] toks.take(j)) > 0) {
            assert(forall|j: int|
                0 <= j < k - 1 && is_literal(toks[j]) ==> depth(#[trigger] toks.take(j)) > 0);
            if is_literal(t) {
                assert(depth(toks.take(k - 1)) > 0);
                lemma_add_child_literals(st, infer_view(t));
            } else if is_opener(t) {
                if st.open.len() > 0 {
                    lemma_add_child_literals(st, AtomView::Reference(st.nodes.len()));
                }
                let st2 = add_child(st, AtomView::Reference(st.nodes.len()));
                let nn = NodeView { kind: crate::node::kind_of(t)->0, children: seq![] };
                assert(st2.nodes.push(nn).drop_last() =~= st2.nodes);
                assert(node_literals(nn.children) =~= Multiset::empty());
                assert(arena_literals(st2.nodes.push(nn)) =~= arena_literals(st2.nodes));
            }
        }
        if is_opener(t) && st.open.len() > 0 {
            let st2 = add_child(st, AtomView::Reference(st.nodes.len()));
            let nst = read_step(st, t, (k - 1) as nat)->Ok_0;
            assert forall|i: int| 0 <= i < nst.open.len() implies #[trigger] nst.open[i]
                < nst.nodes.len() by {
                if i < st.open.len() {
                    assert(nst.open[i] == st.open[i]);
                }
            }
        } else if is_opener(t) {
            let nst = read_step(st, t, (k - 1) as nat)->Ok_0;
            assert forall|i: int| 0 <= i < nst.open.len() implies #[trigger] nst.open[i]
                < nst.nodes.len() by {
                if i < st.open.len() {
                    assert(nst.open[i] == st.open[i]);
                }
            }
        } else if is_closer(t) {
            let nst = read_step(st, t, (k - 1) as nat)->Ok_0;
            assert forall|i: int| 0 <= i < nst.open.len() implies #[trigger] nst.open[i]
                < nst.nodes.len() by {
                assert(nst.open[i] == st.open[i]);
            }
        }
    }
}

/// Well-nested tokens read into an arena with exactly one entry per opening
/// container delimiter.
pub proof fn lemma_one_entry_per_opener(toks: Seq<Seq<char>>)
    requires
        well_nested(toks),
    ensures
        read_result(toks) is Ok,
        read_result(toks)->Ok_0.len() == count_openers(toks),
{
    lemma_prefix(toks, toks.len() as int);
    assert(toks.take(toks.len() as int) =~= toks);
}

/// Where well-nested tokens place every literal inside some container, the
/// arena holds exactly their atoms: each literal once, none added, none lost.
pub proof fn lemma_literals_kept(toks: Seq<Seq<char>>)
    requires
        well_nested(toks),
        forall|j: int| 0 <= j < toks.len() && is_literal(toks[j]) ==> depth(#[trigger] toks.take(j)) > 0,
    ensures
        read_result(toks) is Ok,
        arena_literals(read_result(toks)->Ok_0) == token_literals(toks),
{
    lemma_prefix(toks, toks.len() as int);
    assert(toks.take(toks.len() as int) =~= toks);
}

/// Every reference in an arena points forward: to a container with a larger id
/// than the one holding it, and inside the arena.
pub proof fn lemma_references_point_forward(arena: &Arena, id: int, k: int)
    requires
        arena.wf(),
        0 <= id < arena@.len(),
        0 <= k < arena@[id].children.len(),
        arena@[id].children[k] is Reference,
    ensures
        id < arena@[id].children[k]->Reference_0 < arena@.len(),
{
    lemma_child_ref(arena@, arena.ends(), id, k);
}

} // verus!
