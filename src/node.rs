use vstd::prelude::*;

use crate::atom::{atom_text, Atom, AtomView};
use crate::text::{chars_of, push_char, push_seq};
use crate::tokenizer::Token;

verus! {

/// The kind of a container, given by the delimiter that opened it.
#[derive(Debug, Clone, Copy, PartialEq, Eq, Structural)]
pub enum Kind {
    /// `(`
    Exec,
    /// `[`
    Vector,
    /// `{`
    Mapping,
    /// `"`
    Text,
    /// `'`
    List,
}

/// Why reading failed.
#[derive(Debug, Clone, Copy, PartialEq, Eq, Structural)]
pub enum ReadError {
    /// A closing delimiter, at this token index, with no container open.
    StackUnderflow(usize),
    /// The input ended with this many containers still open.
    UnterminatedContainer(usize),
    /// A container was asked for with a token that opens none.
    UnsupportedDelimiter,
}

/// The kind that a one-character token opens, if any.
pub open spec fn kind_of(t: Seq<char>) -> Option<Kind> {
    if t.len() != 1 {
        None
    } else if t[0] == '(' {
        Some(Kind::Exec)
    } else if t[0] == '[' {
        Some(Kind::Vector)
    } else if t[0] == '{' {
        Some(Kind::Mapping)
    } else if t[0] == '"' {
        Some(Kind::Text)
    } else if t[0] == '\'' {
        Some(Kind::List)
    } else {
        None
    }
}

/// The name of a kind in rendered output.
pub open spec fn kind_name(k: Kind) -> Seq<char> {
    match k {
        Kind::Exec => seq!['e', 'x', 'e', 'c'],
        Kind::Vector => seq!['v', 'e', 'c', 't', 'o', 'r'],
        Kind::Mapping => seq!['m', 'a', 'p'],
        Kind::Text => seq!['s', 't', 'r', 'i', 'n', 'g'],
        Kind::List => seq!['l', 'i', 's', 't'],
    }
}

/// A container: its kind and its children in source order.
pub struct Node {
    pub kind: Kind,
    pub children: Vec<Atom>,
}

pub struct NodeView {
    pub kind: Kind,
    pub children: Seq<AtomView>,
}

impl View for Node {
    type V = NodeView;

    open spec fn view(&self) -> NodeView {
        NodeView { kind: self.kind, children: self.children@.map_values(|a: Atom| a@) }
    }
}

/// The rendered children, separated by single spaces.
pub open spec fn children_text(cs: Seq<AtomView>) -> Seq<char>
    decreases cs.len(),
{
    if cs.len() == 0 {
        seq![]
    } else if cs.len() == 1 {
        atom_text(cs[0])
    } else {
        children_text(cs.drop_last()) + seq![' '] + atom_text(cs.last())
    }
}

/// A node rendered as `(<kind> <child> ... <child>)`.
pub open spec fn node_text(n: NodeView) -> Seq<char> {
    seq!['('] + kind_name(n.kind) + seq![' '] + children_text(n.children) + seq![')']
}

/// The character of a one-character token.
pub(crate) fn single_char(t: &Token) -> (r: Option<char>)
    ensures
        r == (if t@.len() == 1 {
            Some(t@[0])
        } else {
            None
        }),
{
    let cs = chars_of(t.value.as_str());
    if cs.len() == 1 {
        Some(cs[0])
    } else {
        None
    }
}

pub(crate) fn exec_kind_of(t: &Token) -> (r: Option<Kind>)
    ensures
        r == kind_of(t@),
{
    match single_char(t) {
        Some(c) => {
            if c == '(' {
                Some(Kind::Exec)
            } else if c == '[' {
                Some(Kind::Vector)
            } else if c == '{' {
                Some(Kind::Mapping)
            } else if c == '"' {
                Some(Kind::Text)
            } else if c == '\'' {
                Some(Kind::List)
            } else {
                None
            }
        },
        None => None,
    }
}

fn push_kind_name(s: &mut String, k: Kind)
    ensures
        final(s)@ == old(s)@ + kind_name(k),
{
    let name = match k {
        Kind::Exec => vec!['e', 'x', 'e', 'c'],
        Kind::Vector => vec!['v', 'e', 'c', 't', 'o', 'r'],
        Kind::Mapping => vec!['m', 'a', 'p'],
        Kind::Text => vec!['s', 't', 'r', 'i', 'n', 'g'],
        Kind::List => vec!['l', 'i', 's', 't'],
    };
    push_seq(s, &name);
    assert(name@ =~= kind_name(k));
}

impl Node {
    /// An empty container of the kind that `t` opens.
    pub fn new(t: &Token) -> (r: Result<Node, ReadError>)
        ensures
            match r {
                Ok(n) => kind_of(t@) == Some(n.kind) && n.children@.len() == 0,
                Err(e) => kind_of(t@) is None && e == ReadError::UnsupportedDelimiter,
            },
    {
        match exec_kind_of(t) {
            Some(kind) => Ok(Node { kind, children: Vec::new() }),
            None => Err(ReadError::UnsupportedDelimiter),
        }
    }

    /// Appends a child.
    pub fn push(&mut self, atom: Atom)
        ensures
            final(self)@.kind == old(self)@.kind,
            final(self)@.children == old(self)@.children.push(atom@),
    {
        let ghost before = self.children@;
        self.children.push(atom);
        assert(self.children@.map_values(|a: Atom| a@) =~= before.map_values(|a: Atom| a@).push(
            atom@,
        ));
    }

    /// The node as one line of text.
    pub fn render(&self) -> (r: String)
        ensures
            r@ == node_text(self@),
    {
        let mut s = String::new();
        push_char(&mut s, '(');
        push_kind_name(&mut s, self.kind);
        push_char(&mut s, ' ');
        let ghost head = s@;
        let ghost cs = self@.children;
        let mut i: usize = 0;
        while i < self.children.len()
            invariant
                i <= self.children.len(),
                cs == self@.children,
                cs.len() == self.children.len(),
                s@ == head + children_text(cs.take(i as int)),
            decreases self.children.len() - i,
        {
            if i > 0 {
                push_char(&mut s, ' ');
            }
            self.children[i].push_text(&mut s);
            i += 1;
            assert(cs.take(i as int).drop_last() =~= cs.take(i - 1));
            if i == 1 {
                assert(s@ =~= head + children_text(cs.take(i as int)));
            } else {
                assert(s@ =~= head + children_text(cs.take(i as int)));
            }
        }
        assert(cs.take(cs.len() as int) =~= cs);
        push_char(&mut s, ')');
        assert(s@ =~= node_text(self@));
        s
    }
}

} // verus!
