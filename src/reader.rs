use vstd::prelude::*;

use crate::atom::{infer_view, Atom, AtomView};
use crate::node::{exec_kind_of, kind_of, single_char, Node, NodeView, ReadError};
use crate::tokenizer::{texts, Token};

verus! {

/// `(`, `[` or `{`.
pub open spec fn is_opener(t: Seq<char>) -> bool {
    t.len() == 1 && (t[0] == '(' || t[0] == '[' || t[0] == '{')
}

/// `)`, `]` or `}`.
pub open spec fn is_closer(t: Seq<char>) -> bool {
    t.len() == 1 && (t[0] == ')' || t[0] == ']' || t[0] == '}')
}

/// `"` or `'`, which the reader passes over.
pub open spec fn is_quote_mark(t: Seq<char>) -> bool {
    t.len() == 1 && (t[0] == '"' || t[0] == '\'')
}

/// The reader's state: every container opened so far, indexed by id, and the
/// ids of those still open, innermost last.
pub struct ReadState {
    pub nodes: Seq<NodeView>,
    pub open: Seq<nat>,
}

/// Appends `a` to the innermost open container, if there is one.
pub open spec fn add_child(st: ReadState, a: AtomView) -> ReadState {
    if st.open.len() == 0 {
        st
    } else {
        let top = st.open.last() as int;
        ReadState {
            nodes: st.nodes.update(
                top,
                NodeView { kind: st.nodes[top].kind, children: st.nodes[top].children.push(a) },
            ),
            open: st.open,
        }
    }
}

/// What one token, at index `pos`, does to the state.
pub open spec fn read_step(st: ReadState, t: Seq<char>, pos: nat) -> Result<ReadState, ReadError> {
    if is_quote_mark(t) {
        Ok(st)
    } else if is_opener(t) {
        let id = st.nodes.len();
        let st2 = add_child(st, AtomView::Reference(id));
        Ok(
            ReadState {
                nodes: st2.nodes.push(NodeView { kind: kind_of(t)->0, children: seq![] }),
                open: st2.open.push(id),
            },
        )
    } else if is_closer(t) {
        if st.open.len() == 0 {
            Err(ReadError::StackUnderflow(pos as usize))
        } else {
            Ok(ReadState { nodes: st.nodes, open: st.open.drop_last() })
        }
    } else {
        Ok(add_child(st, infer_view(t)))
    }
}

/// The state after reading `toks` from the start, or the first error.
pub open spec fn read_prefix(toks: Seq<Seq<char>>) -> Result<ReadState, ReadError>
    decreases toks.len(),
{
    if toks.len() == 0 {
        Ok(ReadState { nodes: seq![], open: seq![] })
    } else {
        match read_prefix(toks.drop_last()) {
            Ok(st) => read_step(st, toks.last(), (toks.len() - 1) as nat),
            Err(e) => Err(e),
        }
    }
}

/// The arena that `toks` read into, or why they do not read into one.
pub open spec fn read_result(toks: Seq<Seq<char>>) -> Result<Seq<NodeView>, ReadError> {
    match read_prefix(toks) {
        Ok(st) => if st.open.len() == 0 {
            Ok(st.nodes)
        } else {
            Err(ReadError::UnterminatedContainer(st.open.len() as usize))
        },
        Err(e) => Err(e),
    }
}

/// The ids that `cs` refers to, in order.
pub open spec fn refs(cs: Seq<AtomView>) -> Seq<nat>
    decreases cs.len(),
{
    if cs.len() == 0 {
        seq![]
    } else {
        let r = refs(cs.drop_last());
        match cs.last() {
            AtomView::Reference(n) => r.push(n),
            _ => r,
        }
    }
}

/// The `j`-th reference of a node starts right after what came before it: the
/// first one right after the node itself, each other one right after the last
/// id of the subtree of the one before.
pub open spec fn follows(rs: Seq<nat>, id: int, ends: Seq<int>, j: int) -> bool {
    rs[j] == (if j == 0 {
        id + 1
    } else {
        ends[rs[j - 1] as int] + 1
    })
}

/// Every reference of a node follows the one before it.
pub open spec fn chain_ok(rs: Seq<nat>, id: int, ends: Seq<int>) -> bool {
    forall|j: int| 0 <= j < rs.len() ==> #[trigger] follows(rs, id, ends, j)
}

/// The id right after the subtrees of `rs`.
pub open spec fn chain_next(rs: Seq<nat>, id: int, ends: Seq<int>) -> int {
    if rs.len() == 0 {
        id + 1
    } else {
        ends[rs.last() as int] + 1
    }
}

pub open spec fn increasing(rs: Seq<nat>) -> bool {
    forall|i: int, j: int| 0 <= i < j < rs.len() ==> rs[i] < rs[j]
}

/// Node `c` is complete: its subtree is exactly the ids `c..=ends[c]`, laid out
/// in pre-order.
pub open spec fn closed_ok(nodes: Seq<NodeView>, ends: Seq<int>, c: int) -> bool {
    let rs = refs(nodes[c].children);
    &&& c <= ends[c] < nodes.len()
    &&& chain_ok(rs, c, ends)
    &&& ends[c] + 1 == chain_next(rs, c, ends)
    &&& increasing(rs)
    &&& forall|j: int| 0 <= j < rs.len() ==> c < #[trigger] rs[j] <= ends[c]
}

/// Every node of the arena is complete, `ends[c]` being the last id of the
/// subtree of `c`.
pub open spec fn arena_wf(nodes: Seq<NodeView>, ends: Seq<int>) -> bool {
    &&& ends.len() == nodes.len()
    &&& forall|c: int| 0 <= c < nodes.len() ==> #[trigger] closed_ok(nodes, ends, c)
}

/// What holds of the reader's state between tokens.
pub open spec fn building(st: ReadState, ends: Seq<int>) -> bool {
    let nodes = st.nodes;
    let open = st.open;
    &&& ends.len() == nodes.len()
    &&& forall|i: int, j: int| 0 <= i < j < open.len() ==> open[i] < open[j]
    &&& forall|i: int| 0 <= i < open.len() ==> #[trigger] open[i] < nodes.len()
    &&& forall|c: int|
        0 <= c < nodes.len() && !open.contains(c as nat) ==> #[trigger] closed_ok(nodes, ends, c)
    &&& forall|c: int, i: int|
        0 <= c < nodes.len() && !open.contains(c as nat) && 0 <= i < open.len() && c < open[i]
            ==> #[trigger] ends[c] < #[trigger] open[i]
    &&& forall|i: int| 0 <= i < open.len() ==> #[trigger] open_ok(st, ends, i)
}

/// The `i`-th open container: its references are in order and chained, the
/// last one is the container open inside it, and if it is the innermost one
/// the next id continues its chain.
pub open spec fn open_ok(st: ReadState, ends: Seq<int>, i: int) -> bool {
    let o = st.open[i] as int;
    let rs = refs(st.nodes[o].children);
    &&& chain_ok(rs, o, ends)
    &&& increasing(rs)
    &&& forall|j: int| 0 <= j < rs.len() ==> o < #[trigger] rs[j] < st.nodes.len()
    &&& i + 1 < st.open.len() ==> rs.len() > 0 && rs.last() == st.open[i + 1]
    &&& i + 1 == st.open.len() ==> st.nodes.len() == chain_next(rs, o, ends)
}

proof fn lemma_refs_push(cs: Seq<AtomView>, a: AtomView)
    ensures
        refs(cs.push(a)) == (match a {
            AtomView::Reference(n) => refs(cs).push(n),
            _ => refs(cs),
        }),
{
    assert(cs.push(a).drop_last() =~= cs);
}

/// The subtree ends after one token.
pub open spec fn step_ends(st: ReadState, ends: Seq<int>, t: Seq<char>) -> Seq<int> {
    if is_quote_mark(t) {
        ends
    } else if is_opener(t) {
        ends.push(0)
    } else if is_closer(t) && st.open.len() > 0 {
        ends.update(st.open.last() as int, st.nodes.len() - 1)
    } else {
        ends
    }
}

proof fn lemma_chain_stable(rs: Seq<nat>, id: int, e1: Seq<int>, e2: Seq<int>, upto: int)
    requires
        chain_ok(rs, id, e1),
        0 <= upto <= rs.len(),
        forall|j: int| 0 <= j < upto ==> e1[#[trigger] rs[j] as int] == e2[rs[j] as int],
        upto >= rs.len() - 1,
    ensures
        chain_ok(rs, id, e2),
{
    assert forall|j: int| 0 <= j < rs.len() implies #[trigger] follows(rs, id, e2, j) by {
        assert(follows(rs, id, e1, j));
        if j > 0 {
            assert(e1[rs[j - 1] as int] == e2[rs[j - 1] as int]);
        }
    }
}

proof fn lemma_closed_stable(n1: Seq<NodeView>, e1: Seq<int>, n2: Seq<NodeView>, e2: Seq<int>, c: int)
    requires
        closed_ok(n1, e1, c),
        0 <= c < n1.len() <= n2.len(),
        n2[c] == n1[c],
        e2[c] == e1[c],
        forall|x: int| c < x <= e1[c] ==> e1[x] == e2[x],
    ensures
        closed_ok(n2, e2, c),
{
    let rs = refs(n1[c].children);
    assert forall|j: int| 0 <= j < rs.len() implies e1[#[trigger] rs[j] as int] == e2[rs[j] as int] by {
        assert(c < rs[j] <= e1[c]);
    }
    lemma_chain_stable(rs, c, e1, e2, rs.len() as int);
    if rs.len() > 0 {
        assert(c < rs[rs.len() - 1] <= e1[c]);
    }
}

proof fn lemma_add_scalar(st: ReadState, ends: Seq<int>, a: AtomView)
    requires
        building(st, ends),
        !(a is Reference),
    ensures
        building(add_child(st, a), ends),
{
    if st.open.len() > 0 {
        let st2 = add_child(st, a);
        let top = st.open.last() as int;
        lemma_refs_push(st.nodes[top].children, a);
        assert forall|c: int| 0 <= c < st.nodes.len() implies refs(#[trigger] st2.nodes[c].children)
            == refs(st.nodes[c].children) by {}
        assert forall|c: int|
            0 <= c < st2.nodes.len() && !st2.open.contains(c as nat) implies #[trigger] closed_ok(
            st2.nodes,
            ends,
            c,
        ) by {
            assert(closed_ok(st.nodes, ends, c));
            if c == top {
                assert(st.open.contains(c as nat));
            }
        }
        assert forall|i: int| 0 <= i < st2.open.len() implies #[trigger] open_ok(st2, ends, i) by {
            assert(open_ok(st, ends, i));
        }
    }
}

proof fn lemma_open(st: ReadState, ends: Seq<int>, t: Seq<char>)
    requires
        building(st, ends),
        is_opener(t),
    ensures
        building(read_step(st, t, 0)->Ok_0, ends.push(0)),
{
    let id = st.nodes.len();
    let st2 = add_child(st, AtomView::Reference(id));
    let nst = read_step(st, t, 0)->Ok_0;
    let e2 = ends.push(0);
    let len = st.nodes.len() as int;
    let top = if st.open.len() > 0 {
        st.open.last() as int
    } else {
        -1
    };
    if st.open.len() > 0 {
        lemma_refs_push(st.nodes[top].children, AtomView::Reference(id));
    }
    assert forall|c: int| 0 <= c < len && c != top implies refs(#[trigger] nst.nodes[c].children)
        == refs(st.nodes[c].children) by {}
    assert(nst.nodes[len].children =~= Seq::<AtomView>::empty());
    assert(refs(nst.nodes[len].children) =~= Seq::<nat>::empty());
    assert forall|c: int|
        0 <= c < nst.nodes.len() && !nst.open.contains(c as nat) implies #[trigger] closed_ok(
        nst.nodes,
        e2,
        c,
    ) by {
        if c == len {
            assert(nst.open[nst.open.len() - 1] == c);
        }
        if st.open.contains(c as nat) {
            let i = choose|i: int| 0 <= i < st.open.len() && st.open[i] == c as nat;
            assert(nst.open[i] == c as nat);
        }
        assert(closed_ok(st.nodes, ends, c));
        if c == top {
            assert(st.open[st.open.len() - 1] == c);
        }
        lemma_closed_stable(st.nodes, ends, nst.nodes, e2, c);
    }
    assert forall|c: int, i: int|
        0 <= c < nst.nodes.len() && !nst.open.contains(c as nat) && 0 <= i < nst.open.len() && c
            < nst.open[i] implies #[trigger] e2[c] < #[trigger] nst.open[i] by {
        if c == len {
            assert(nst.open[nst.open.len() - 1] == c);
        }
        if st.open.contains(c as nat) {
            let k = choose|k: int| 0 <= k < st.open.len() && st.open[k] == c as nat;
            assert(nst.open[k] == c as nat);
        }
        assert(closed_ok(st.nodes, ends, c));
    }
    assert forall|i: int| 0 <= i < nst.open.len() implies #[trigger] open_ok(nst, e2, i) by {
        if i < st.open.len() {
            assert(open_ok(st, ends, i));
            let o = st.open[i] as int;
            let rs = refs(st.nodes[o].children);
            assert forall|j: int| 0 <= j < rs.len() implies e2[#[trigger] rs[j] as int]
                == ends[rs[j] as int] by {}
            if i + 1 < st.open.len() {
                lemma_chain_stable(rs, o, ends, e2, rs.len() as int);
            } else {
                let rs2 = refs(nst.nodes[o].children);
                assert(rs2 == rs.push(id));
                assert forall|j: int| 0 <= j < rs.len() implies e2[#[trigger] rs2[j] as int]
                    == ends[rs2[j] as int] by {
                    assert(rs2[j] == rs[j]);
                }
                assert(chain_ok(rs2, o, ends)) by {
                    assert forall|j: int| 0 <= j < rs2.len() implies #[trigger] follows(
                        rs2,
                        o,
                        ends,
                        j,
                    ) by {
                        if j < rs.len() {
                            assert(follows(rs, o, ends, j));
                            assert(rs2[j] == rs[j]);
                            if j > 0 {
                                assert(rs2[j - 1] == rs[j - 1]);
                            }
                        } else if j > 0 {
                            assert(rs2[j - 1] == rs[j - 1]);
                        }
                    }
                }
                lemma_chain_stable(rs2, o, ends, e2, rs.len() as int);
            }
        } else {
            assert(nst.open[i] == id);
        }
    }
}

proof fn lemma_close(st: ReadState, ends: Seq<int>)
    requires
        building(st, ends),
        st.open.len() > 0,
    ensures
        building(
            ReadState { nodes: st.nodes, open: st.open.drop_last() },
            ends.update(st.open.last() as int, st.nodes.len() - 1),
        ),
{
    let t = st.open.last() as int;
    let len = st.nodes.len() as int;
    let nst = ReadState { nodes: st.nodes, open: st.open.drop_last() };
    let e2 = ends.update(t, len - 1);
    let last = st.open.len() - 1;
    assert(open_ok(st, ends, last));
    assert forall|c: int|
        0 <= c < len && !nst.open.contains(c as nat) implies #[trigger] closed_ok(
        nst.nodes,
        e2,
        c,
    ) by {
        if c == t {
            let rs = refs(st.nodes[t].children);
            assert forall|j: int| 0 <= j < rs.len() implies e2[#[trigger] rs[j] as int]
                == ends[rs[j] as int] by {}
            lemma_chain_stable(rs, t, ends, e2, rs.len() as int);
            if rs.len() > 0 {
                assert(t < rs[rs.len() - 1]);
            }
        } else {
            if st.open.contains(c as nat) {
                let k = choose|k: int| 0 <= k < st.open.len() && st.open[k] == c as nat;
                if k < last {
                    assert(nst.open[k] == c as nat);
                }
            }
            assert(closed_ok(st.nodes, ends, c));
            if c < t {
                assert(ends[c] < st.open[last]);
            }
            lemma_closed_stable(st.nodes, ends, nst.nodes, e2, c);
        }
    }
    assert forall|c: int, i: int|
        0 <= c < len && !nst.open.contains(c as nat) && 0 <= i < nst.open.len() && c
            < nst.open[i] implies #[trigger] e2[c] < #[trigger] nst.open[i] by {
        assert(st.open[i] < st.open[last]);
        if c != t && st.open.contains(c as nat) {
            let k = choose|k: int| 0 <= k < st.open.len() && st.open[k] == c as nat;
            if k < last {
                assert(nst.open[k] == c as nat);
            }
        }
    }
    assert forall|i: int| 0 <= i < nst.open.len() implies #[trigger] open_ok(nst, e2, i) by {
        assert(open_ok(st, ends, i));
        let o = st.open[i] as int;
        let rs = refs(st.nodes[o].children);
        assert(st.open[i] < st.open[last]);
        assert(rs.len() > 0 && rs.last() == st.open[i + 1]);
        assert forall|j: int| 0 <= j < rs.len() - 1 implies e2[#[trigger] rs[j] as int]
            == ends[rs[j] as int] by {
            assert(rs[j] < rs[rs.len() - 1]);
            if i + 1 < last {
                assert(st.open[i + 1] < st.open[last]);
            }
        }
        lemma_chain_stable(rs, o, ends, e2, rs.len() - 1);
    }
}

proof fn lemma_step(st: ReadState, ends: Seq<int>, t: Seq<char>, pos: nat)
    requires
        building(st, ends),
        read_step(st, t, pos) is Ok,
    ensures
        building(read_step(st, t, pos)->Ok_0, step_ends(st, ends, t)),
{
    if is_quote_mark(t) {
    } else if is_opener(t) {
        lemma_open(st, ends, t);
    } else if is_closer(t) {
        lemma_close(st, ends);
    } else {
        lemma_add_scalar(st, ends, infer_view(t));
    }
}

/// Once reading has failed, it stays failed with the same error.
proof fn lemma_error_sticks(toks: Seq<Seq<char>>, k: int)
    requires
        0 <= k <= toks.len(),
        read_prefix(toks.take(k)) is Err,
    ensures
        read_prefix(toks) == read_prefix(toks.take(k)),
    decreases toks.len() - k,
{
    if k < toks.len() {
        assert(toks.take(k + 1).drop_last() =~= toks.take(k));
        lemma_error_sticks(toks, k + 1);
    } else {
        assert(toks.take(k) =~= toks);
    }
}

/// The reader's state as held by the executable reader.
pub open spec fn state_of(nodes: Seq<Node>, open: Seq<usize>) -> ReadState {
    ReadState { nodes: nodes.map_values(|n: Node| n@), open: open.map_values(|x: usize| x as nat) }
}

/// The containers read from a token sequence, indexed by id in the order they
/// were opened. Ids are dense from 0, a container's id is smaller than that of
/// any container inside it, and the subtree of each container takes a
/// contiguous range of ids.
pub struct Arena {
    nodes: Vec<Node>,
    ends: Ghost<Seq<int>>,
}

impl View for Arena {
    type V = Seq<NodeView>;

    closed spec fn view(&self) -> Seq<NodeView> {
        self.nodes@.map_values(|n: Node| n@)
    }
}

impl Arena {
    /// For each id, the last id of its subtree.
    pub closed spec fn ends(&self) -> Seq<int> {
        self.ends@
    }

    pub open spec fn wf(&self) -> bool {
        arena_wf(self@, self.ends())
    }

    /// The number of containers.
    pub fn len(&self) -> (r: usize)
        ensures
            r == self@.len(),
    {
        self.nodes.len()
    }

    /// The container with id `id`, if there is one.
    pub fn get(&self, id: usize) -> (r: Option<&Node>)
        ensures
            match r {
                Some(n) => id < self@.len() && n@ == self@[id as int],
                None => id >= self@.len(),
            },
    {
        if id < self.nodes.len() {
            Some(&self.nodes[id])
        } else {
            None
        }
    }

    /// Reads tokens into an arena. Quote and string marks are passed over,
    /// `(`, `[` and `{` open a container (and add a reference to it to the
    /// enclosing one), `)`, `]` and `}` close the innermost open one, and any
    /// other token becomes an atom of the innermost open container, or is
    /// dropped where none is open.
    pub fn read(tokens: &Vec<Token>) -> (r: Result<Arena, ReadError>)
        ensures
            match r {
                Ok(a) => read_result(texts(tokens@)) == Ok::<Seq<NodeView>, ReadError>(a@) && a.wf(),
                Err(e) => read_result(texts(tokens@)) == Err::<Seq<NodeView>, ReadError>(e),
            },
    {
        let ghost toks = texts(tokens@);
        let mut nodes: Vec<Node> = Vec::new();
        let mut open: Vec<usize> = Vec::new();
        let ghost mut ends: Seq<int> = seq![];
        let mut i: usize = 0;
        proof {
            assert(toks.take(0) =~= Seq::<Seq<char>>::empty());
            assert(state_of(nodes@, open@).nodes =~= Seq::<NodeView>::empty());
            assert(state_of(nodes@, open@).open =~= Seq::<nat>::empty());
        }
        while i < tokens.len()
            invariant
                i <= tokens.len(),
                toks == texts(tokens@),
                toks.len() == tokens@.len(),
                read_prefix(toks.take(i as int)) == Ok::<ReadState, ReadError>(
                    state_of(nodes@, open@),
                ),
                building(state_of(nodes@, open@), ends),
            decreases tokens.len() - i,
        {
            let tok = &tokens[i];
            let ghost st = state_of(nodes@, open@);
            let ghost old_nodes = nodes@;
            let ghost old_open = open@;
            proof {
                assert(toks.take(i + 1).drop_last() =~= toks.take(i as int));
                assert(toks.take(i + 1).last() == tok@);
            }
            let c = single_char(tok);
            let quote = match c {
                Some(ch) => ch == '"' || ch == '\'',
                None => false,
            };
            let opener = match c {
                Some(ch) => ch == '(' || ch == '[' || ch == '{',
                None => false,
            };
            let closer = match c {
                Some(ch) => ch == ')' || ch == ']' || ch == '}',
                None => false,
            };
            assert(quote == is_quote_mark(tok@));
            assert(opener == is_opener(tok@));
            assert(closer == is_closer(tok@));
            if !closer || open.len() > 0 {
                proof {
                    lemma_step(st, ends, tok@, i as nat);
                }
            }
            if quote {
            } else if opener {
                let kind = exec_kind_of(tok).unwrap();
                let id = nodes.len();
                if open.len() > 0 {
                    let top = open[open.len() - 1];
                    nodes[top].push(Atom::Reference(id));
                    assert(state_of(nodes@, open@).nodes =~= add_child(
                        st,
                        AtomView::Reference(id as nat),
                    ).nodes);
                }
                open.push(id);
                nodes.push(Node { kind, children: Vec::new() });
                proof {
                    ends = ends.push(0);
                }
                assert(nodes@.last()@.children =~= Seq::<AtomView>::empty());
                assert(state_of(nodes@, open@).nodes =~= read_step(st, tok@, i as nat)->Ok_0.nodes);
                assert(state_of(nodes@, open@).open =~= read_step(st, tok@, i as nat)->Ok_0.open);
            } else if closer {
                if open.len() == 0 {
                    proof {
                        lemma_error_sticks(toks, i + 1);
                    }
                    return Err(ReadError::StackUnderflow(i));
                }
                let top = open.pop().unwrap();
                proof {
                    ends = ends.update(top as int, nodes@.len() - 1);
                }
                assert(state_of(nodes@, open@).open =~= st.open.drop_last());
            } else {
                let atom = Atom::infer(tok);
                if open.len() > 0 {
                    let top = open[open.len() - 1];
                    nodes[top].push(atom);
                    assert(state_of(nodes@, open@).nodes =~= add_child(st, infer_view(tok@)).nodes);
                }
            }
            assert(state_of(nodes@, open@) == read_step(st, tok@, i as nat)->Ok_0);
            i += 1;
        }
        assert(toks.take(toks.len() as int) =~= toks);
        if open.len() > 0 {
            return Err(ReadError::UnterminatedContainer(open.len()));
        }
        let ghost st = state_of(nodes@, open@);
        assert forall|c: int| 0 <= c < st.nodes.len() implies #[trigger] closed_ok(
            st.nodes,
            ends,
            c,
        ) by {
            assert(!st.open.contains(c as nat));
        }
        Ok(Arena { nodes, ends: Ghost(ends) })
    }
}

} // verus!
