use vstd::prelude::*;

use crate::atom::{Atom, AtomView};
use crate::node::{node_text, NodeView};
use crate::reader::{arena_wf, chain_next, closed_ok, follows, refs, Arena};

verus! {

/// Bindings from atoms to atoms, threaded through evaluation. Nothing binds or
/// looks up a name yet.
pub struct Env {
    vars: Vec<(Atom, Atom)>,
}

impl View for Env {
    type V = Seq<(AtomView, AtomView)>;

    closed spec fn view(&self) -> Seq<(AtomView, AtomView)> {
        self.vars@.map_values(|p: (Atom, Atom)| (p.0@, p.1@))
    }
}

impl Env {
    /// An environment with no bindings.
    pub fn new() -> (r: Env)
        ensures
            r@.len() == 0,
    {
        Env { vars: Vec::new() }
    }
}

pub open spec fn maxi(x: int, y: int) -> int {
    if x >= y {
        x
    } else {
        y
    }
}

/// The ids that evaluation at `id` renders, in order: `id` itself, then for
/// each reference among its children, in order, the ids rendered there.
pub open spec fn visit(a: Seq<NodeView>, id: int) -> Seq<int>
    decreases a.len() - id, 1nat, 0nat,
{
    if 0 <= id < a.len() {
        seq![id] + visit_upto(a, id, a[id].children.len() as int)
    } else {
        seq![]
    }
}

/// The ids rendered for the first `k` children of `id`.
pub open spec fn visit_upto(a: Seq<NodeView>, id: int, k: int) -> Seq<int>
    decreases a.len() - id, 0nat, k,
{
    if 0 <= id < a.len() && 0 < k <= a[id].children.len() {
        let prev = visit_upto(a, id, k - 1);
        match a[id].children[k - 1] {
            AtomView::Reference(n) => if id < n < a.len() {
                prev + visit(a, n as int)
            } else {
                prev
            },
            _ => prev,
        }
    } else {
        seq![]
    }
}

/// The largest id that evaluation at `id` reaches: `id` itself, each
/// reference among its children, and what evaluation reaches from those.
pub open spec fn eval_max(a: Seq<NodeView>, id: int) -> int
    decreases a.len() - id, 1nat, 0nat,
{
    if 0 <= id < a.len() {
        max_upto(a, id, a[id].children.len() as int)
    } else {
        id
    }
}

/// What evaluation at `id` reaches over its first `k` children.
pub open spec fn max_upto(a: Seq<NodeView>, id: int, k: int) -> int
    decreases a.len() - id, 0nat, k,
{
    if 0 <= id < a.len() && 0 < k <= a[id].children.len() {
        let prev = max_upto(a, id, k - 1);
        match a[id].children[k - 1] {
            AtomView::Reference(n) => if id < n < a.len() {
                maxi(prev, maxi(n as int, eval_max(a, n as int)))
            } else {
                maxi(prev, n as int)
            },
            _ => prev,
        }
    } else {
        id
    }
}

/// The rendered lines of the nodes `ids`.
pub open spec fn lines_of(a: Seq<NodeView>, ids: Seq<int>) -> Seq<Seq<char>> {
    ids.map_values(|k: int| node_text(a[k]))
}

pub open spec fn strings(v: Seq<String>) -> Seq<Seq<char>> {
    v.map_values(|s: String| s@)
}

/// The ids `lo`, `lo + 1`, ..., `hi - 1`.
pub open spec fn id_range(lo: int, hi: int) -> Seq<int> {
    Seq::new((hi - lo) as nat, |i: int| lo + i)
}

proof fn lemma_refs_prefix(cs: Seq<AtomView>, k: int)
    requires
        0 <= k <= cs.len(),
    ensures
        refs(cs.take(k)).len() <= refs(cs).len(),
        forall|j: int|
            0 <= j < refs(cs.take(k)).len() ==> #[trigger] refs(cs.take(k))[j] == refs(cs)[j],
    decreases cs.len() - k,
{
    if k == cs.len() {
        assert(cs.take(k) =~= cs);
    } else {
        lemma_refs_prefix(cs, k + 1);
        assert(cs.take(k + 1).drop_last() =~= cs.take(k));
        let r = refs(cs.take(k));
        let r1 = refs(cs.take(k + 1));
        assert forall|j: int| 0 <= j < r.len() implies #[trigger] r[j] == refs(cs)[j] by {
            assert(r1[j] == r[j]);
        }
    }
}

/// A reference child of `id` lies inside the subtree of `id`.
pub(crate) proof fn lemma_child_ref(a: Seq<NodeView>, ends: Seq<int>, id: int, k: int)
    requires
        arena_wf(a, ends),
        0 <= id < a.len(),
        0 <= k < a[id].children.len(),
        a[id].children[k] is Reference,
    ensures
        id < a[id].children[k]->Reference_0 <= ends[id] < a.len(),
        refs(a[id].children.take(k + 1)) == refs(a[id].children.take(k)).push(
            a[id].children[k]->Reference_0,
        ),
{
    let cs = a[id].children;
    assert(cs.take(k + 1).drop_last() =~= cs.take(k));
    lemma_refs_prefix(cs, k + 1);
    let j = refs(cs.take(k)).len() as int;
    assert(refs(cs.take(k + 1))[j] == refs(cs)[j]);
    assert(closed_ok(a, ends, id));
}

/// Over its first `k` children, evaluation at `id` renders the ids from
/// `id + 1` up to the end of the last subtree among them.
proof fn lemma_visit_upto(a: Seq<NodeView>, ends: Seq<int>, id: int, k: int)
    requires
        arena_wf(a, ends),
        0 <= id < a.len(),
        0 <= k <= a[id].children.len(),
    ensures
        visit_upto(a, id, k) == id_range(
            id + 1,
            chain_next(refs(a[id].children.take(k)), id, ends),
        ),
        max_upto(a, id, k) == chain_next(refs(a[id].children.take(k)), id, ends) - 1,
        refs(a[id].children.take(k)).len() <= refs(a[id].children).len(),
    decreases a.len() - id, 0nat, k,
{
    let cs = a[id].children;
    lemma_refs_prefix(cs, k);
    assert(closed_ok(a, ends, id));
    if k == 0 {
        assert(cs.take(0) =~= Seq::<AtomView>::empty());
        assert(id_range(id + 1, id + 1) =~= Seq::<int>::empty());
    } else {
        lemma_visit_upto(a, ends, id, k - 1);
        assert(cs.take(k).drop_last() =~= cs.take(k - 1));
        let before = refs(cs.take(k - 1));
        let lo = chain_next(before, id, ends);
        match cs[k - 1] {
            AtomView::Reference(n) => {
                lemma_child_ref(a, ends, id, k - 1);
                lemma_refs_prefix(cs, k);
                let j = before.len() as int;
                assert(refs(cs.take(k))[j] == refs(cs)[j]);
                assert(refs(cs)[j] == n);
                if j > 0 {
                    assert(refs(cs.take(k))[j - 1] == refs(cs)[j - 1]);
                    assert(before[j - 1] == refs(cs.take(k))[j - 1]);
                }
                assert(follows(refs(cs), id, ends, j));
                assert(n == lo);
                lemma_visit(a, ends, n as int);
                assert(closed_ok(a, ends, n as int));
                assert(id_range(id + 1, lo) + id_range(lo, ends[n as int] + 1) =~= id_range(
                    id + 1,
                    ends[n as int] + 1,
                ));
            },
            _ => {
                assert(refs(cs.take(k)) == before);
            },
        }
    }
}

/// Evaluation at an id of the arena renders exactly the ids of its subtree,
/// in increasing order, and reaches the last of them.
proof fn lemma_visit(a: Seq<NodeView>, ends: Seq<int>, id: int)
    requires
        arena_wf(a, ends),
        0 <= id < a.len(),
    ensures
        visit(a, id) == id_range(id, ends[id] + 1),
        eval_max(a, id) == ends[id],
    decreases a.len() - id, 1nat, 0nat,
{
    let cs = a[id].children;
    lemma_visit_upto(a, ends, id, cs.len() as int);
    assert(cs.take(cs.len() as int) =~= cs);
    assert(closed_ok(a, ends, id));
    assert(seq![id] + id_range(id + 1, ends[id] + 1) =~= id_range(id, ends[id] + 1));
}

/// Renders the node `id` and then, in pre-order, every node its references
/// lead to, appending one line per node to `out`; returns the largest id
/// reached. An id outside the arena renders nothing and is returned as is.
pub fn eval(arena: &Arena, env: &mut Env, id: usize, out: &mut Vec<String>) -> (r: usize)
    requires
        arena.wf(),
    ensures
        r == eval_max(arena@, id as int),
        strings(final(out)@) == strings(old(out)@) + lines_of(arena@, visit(arena@, id as int)),
        final(env)@ == old(env)@,
    decreases arena@.len() - id,
{
    let ghost a = arena@;
    match arena.get(id) {
        None => {
            assert(strings(out@) =~= strings(out@) + lines_of(a, visit(a, id as int)));
            id
        },
        Some(node) => {
            let ghost cs = a[id as int].children;
            let ghost start = strings(out@);
            out.push(node.render());
            let mut m: usize = id;
            let mut k: usize = 0;
            assert(strings(out@) =~= start + lines_of(a, seq![id as int] + visit_upto(a, id as int, 0)));
            while k < node.children.len()
                invariant
                    arena.wf(),
                    a == arena@,
                    0 <= id < a.len(),
                    node@ == a[id as int],
                    cs == a[id as int].children,
                    cs.len() == node.children.len(),
                    k <= cs.len(),
                    m == max_upto(a, id as int, k as int),
                    strings(out@) == start + lines_of(a, seq![id as int] + visit_upto(a, id as int, k as int)),
                    env@ == old(env)@,
                decreases node.children.len() - k,
            {
                assert(node.children@[k as int]@ == cs[k as int]);
                match &node.children[k] {
                    Atom::Reference(n) => {
                        let n = *n;
                        proof {
                            lemma_child_ref(a, arena.ends(), id as int, k as int);
                        }
                        let ghost before = strings(out@);
                        if n > m {
                            m = n;
                        }
                        let sub = eval(arena, env, n, out);
                        if sub > m {
                            m = sub;
                        }
                        assert(lines_of(a, seq![id as int] + visit_upto(a, id as int, k + 1))
                            =~= lines_of(a, seq![id as int] + visit_upto(a, id as int, k as int))
                            + lines_of(a, visit(a, n as int)));
                    },
                    _ => {},
                }
                k += 1;
            }
            m
        },
    }
}

/// The lines that the driver renders from cursor `pc` on: the lines of the
/// evaluation at `pc` and a blank line, then the same from just past the
/// largest id that evaluation reached.
pub open spec fn driver_lines(a: Seq<NodeView>, pc: int) -> Seq<Seq<char>>
    decreases a.len() - pc,
{
    if 0 <= pc <= eval_max(a, pc) < a.len() {
        lines_of(a, visit(a, pc)) + seq![Seq::<char>::empty()] + driver_lines(
            a,
            eval_max(a, pc) + 1,
        )
    } else {
        seq![]
    }
}

/// The ids that the driver visits from cursor `pc` on, in order.
pub open spec fn driver_visits(a: Seq<NodeView>, pc: int) -> Seq<int>
    decreases a.len() - pc,
{
    if 0 <= pc <= eval_max(a, pc) < a.len() {
        visit(a, pc) + driver_visits(a, eval_max(a, pc) + 1)
    } else {
        seq![]
    }
}

/// The cursors at which the driver evaluates, from `pc` on.
pub open spec fn driver_cursors(a: Seq<NodeView>, pc: int) -> Seq<int>
    decreases a.len() - pc,
{
    if 0 <= pc <= eval_max(a, pc) < a.len() {
        seq![pc] + driver_cursors(a, eval_max(a, pc) + 1)
    } else {
        seq![]
    }
}

/// Evaluates every top-level container: from cursor 0, evaluates at the
/// cursor, ends its lines with a blank line, and moves the cursor just past the
/// largest id reached, until it leaves the arena.
pub fn run(arena: &Arena) -> (r: Vec<String>)
    requires
        arena.wf(),
    ensures
        strings(r@) == driver_lines(arena@, 0),
{
    let ghost a = arena@;
    let mut out: Vec<String> = Vec::new();
    let mut env = Env::new();
    let mut pc: usize = 0;
    assert(strings(out@) =~= Seq::<Seq<char>>::empty());
    while pc < arena.len()
        invariant
            arena.wf(),
            a == arena@,
            pc <= a.len(),
            strings(out@) + driver_lines(a, pc as int) == driver_lines(a, 0),
        decreases a.len() - pc,
    {
        let ghost before = strings(out@);
        proof {
            lemma_visit(a, arena.ends(), pc as int);
            assert(closed_ok(a, arena.ends(), pc as int));
        }
        let m = eval(arena, &mut env, pc, &mut out);
        out.push(String::new());
        assert(strings(out@) =~= before + lines_of(a, visit(a, pc as int)) + seq![
            Seq::<char>::empty(),
        ]);
        pc = m + 1;
        assert(strings(out@) + driver_lines(a, pc as int) =~= driver_lines(a, 0));
    }
    assert(strings(out@) =~= strings(out@) + driver_lines(a, pc as int));
    out
}

/// `ls` without its empty lines, order kept.
pub open spec fn non_blank(ls: Seq<Seq<char>>) -> Seq<Seq<char>>
    decreases ls.len(),
{
    if ls.len() == 0 {
        ls
    } else {
        let rest = non_blank(ls.drop_last());
        if ls.last().len() == 0 {
            rest
        } else {
            rest.push(ls.last())
        }
    }
}

proof fn lemma_non_blank_add(x: Seq<Seq<char>>, y: Seq<Seq<char>>)
    ensures
        non_blank(x + y) == non_blank(x) + non_blank(y),
    decreases y.len(),
{
    if y.len() == 0 {
        assert(x + y =~= x);
        assert(non_blank(x) + non_blank(y) =~= non_blank(x));
    } else {
        lemma_non_blank_add(x, y.drop_last());
        assert((x + y).drop_last() =~= x + y.drop_last());
        assert(non_blank(x + y) =~= non_blank(x) + non_blank(y));
    }
}

proof fn lemma_non_blank_lines(a: Seq<NodeView>, ids: Seq<int>)
    ensures
        non_blank(lines_of(a, ids)) == lines_of(a, ids),
    decreases ids.len(),
{
    if ids.len() > 0 {
        lemma_non_blank_lines(a, ids.drop_last());
        assert(lines_of(a, ids).drop_last() =~= lines_of(a, ids.drop_last()));
        assert(lines_of(a, ids).last() == node_text(a[ids.last()]));
        assert(node_text(a[ids.last()])[0] == '(');
    } else {
        assert(lines_of(a, ids) =~= Seq::<Seq<char>>::empty());
    }
}

/// From any cursor inside a well-formed arena, the driver visits every id from
/// the cursor to the end of the arena exactly once, in increasing order, and
/// its cursors increase strictly; leaving out the blank lines between top-level
/// forms, the lines it renders are those nodes, in that order.
pub proof fn lemma_driver_visits_all(arena: &Arena, pc: int)
    requires
        arena.wf(),
        0 <= pc <= arena@.len(),
    ensures
        driver_visits(arena@, pc) == id_range(pc, arena@.len() as int),
        non_blank(driver_lines(arena@, pc)) == lines_of(arena@, id_range(pc, arena@.len() as int)),
        forall|i: int, j: int|
            0 <= i < j < driver_cursors(arena@, pc).len() ==> driver_cursors(arena@, pc)[i]
                < driver_cursors(arena@, pc)[j],
        forall|i: int|
            0 <= i < driver_cursors(arena@, pc).len() ==> pc <= #[trigger] driver_cursors(
                arena@,
                pc,
            )[i] < arena@.len(),
    decreases arena@.len() - pc,
{
    let a = arena@;
    if pc < a.len() {
        lemma_visit(a, arena.ends(), pc);
        assert(closed_ok(a, arena.ends(), pc));
        let next = eval_max(a, pc) + 1;
        lemma_driver_visits_all(arena, next);
        assert(id_range(pc, next) + id_range(next, a.len() as int) =~= id_range(
            pc,
            a.len() as int,
        ));
        let l = lines_of(a, visit(a, pc));
        let blank = seq![Seq::<char>::empty()];
        let tail = driver_lines(a, next);
        lemma_non_blank_add(l + blank, tail);
        lemma_non_blank_add(l, blank);
        lemma_non_blank_lines(a, visit(a, pc));
        assert(blank.drop_last() =~= Seq::<Seq<char>>::empty());
        assert(non_blank(Seq::<Seq<char>>::empty()) == Seq::<Seq<char>>::empty());
        assert(blank.last().len() == 0);
        assert(non_blank(blank) =~= Seq::<Seq<char>>::empty());
        assert(lines_of(a, id_range(pc, next)) + lines_of(a, id_range(next, a.len() as int))
            =~= lines_of(a, id_range(pc, a.len() as int)));
        let cs = driver_cursors(a, pc);
        let rest = driver_cursors(a, next);
        assert(cs == seq![pc] + rest);
        assert forall|i: int| 0 <= i < cs.len() implies pc <= #[trigger] cs[i] < a.len() by {
            if i > 0 {
                assert(cs[i] == rest[i - 1]);
            }
        }
        assert forall|i: int, j: int| 0 <= i < j < cs.len() implies cs[i] < cs[j] by {
            assert(cs[j] == rest[j - 1]);
            if i > 0 {
                assert(cs[i] == rest[i - 1]);
            }
        }
    } else {
        assert(id_range(pc, a.len() as int) =~= Seq::<int>::empty());
        assert(lines_of(a, id_range(pc, a.len() as int)) =~= Seq::<Seq<char>>::empty());
    }
}

} // verus!
