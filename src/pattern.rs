use vstd::prelude::*;

verus! {

/// How often a quantified item may repeat.
#[derive(Debug, Clone, Copy, PartialEq, Eq, Structural)]
pub enum QuantKind {
    ZeroOrOne,
    ZeroOrMore,
    OneOrMore,
}

/// A node of a parsed pattern.
#[derive(Debug, PartialEq)]
pub enum Pattern {
    /// Exactly this character.
    Literal(char),
    /// Any single character.
    AnyChar,
    /// An ASCII digit.
    DigitClass,
    /// An ASCII letter or digit, or `_`.
    WordClass,
    /// One character whose membership in `members` differs from `negated`.
    CharSet { members: Vec<char>, negated: bool },
    /// The children, one after another.
    Sequence(Vec<Pattern>),
    /// The left branch, or else the right one.
    Alternation(Vec<Pattern>, Vec<Pattern>),
    /// A capturing group; `number` counts opening parentheses from 1.
    Group { number: usize, children: Vec<Pattern> },
    /// The inner item, repeated as the kind allows.
    Quantified(Box<Pattern>, QuantKind),
    /// The text last captured by the group of this number.
    Backreference(usize),
}

/// The mathematical model of a `Pattern`.
pub enum Node {
    Literal(char),
    AnyChar,
    DigitClass,
    WordClass,
    CharSet { members: Seq<char>, negated: bool },
    Sequence(Seq<Node>),
    Alternation(Seq<Node>, Seq<Node>),
    Group { number: nat, children: Seq<Node> },
    Quantified(Box<Node>, QuantKind),
    Backreference(nat),
}

pub open spec fn node_of(p: Pattern) -> Node
    decreases p, 0nat,
{
    match p {
        Pattern::Literal(c) => Node::Literal(c),
        Pattern::AnyChar => Node::AnyChar,
        Pattern::DigitClass => Node::DigitClass,
        Pattern::WordClass => Node::WordClass,
        Pattern::CharSet { members, negated } => Node::CharSet { members: members@, negated },
        Pattern::Sequence(v) => Node::Sequence(nodes_of(v@)),
        Pattern::Alternation(l, r) => Node::Alternation(nodes_of(l@), nodes_of(r@)),
        Pattern::Group { number, children } => Node::Group {
            number: number as nat,
            children: nodes_of(children@),
        },
        Pattern::Quantified(inner, k) => Node::Quantified(Box::new(node_of(*inner)), k),
        Pattern::Backreference(n) => Node::Backreference(n as nat),
    }
}

pub open spec fn nodes_of(v: Seq<Pattern>) -> Seq<Node>
    decreases v, 1nat,
{
    if v.len() == 0 {
        Seq::empty()
    } else {
        seq![node_of(v[0])] + nodes_of(v.drop_first())
    }
}

/// A well-formed node for a tree with `groups` groups: every class has a
/// member, and every group's number is one of `1..=groups`.
pub open spec fn node_wf(n: Node, groups: nat) -> bool
    decreases n,
{
    match n {
        Node::CharSet { members, .. } => members.len() > 0,
        Node::Sequence(v) => forall|i: int| 0 <= i < v.len() ==> node_wf(#[trigger] v[i], groups),
        Node::Alternation(l, r) => {
            &&& forall|i: int| 0 <= i < l.len() ==> node_wf(#[trigger] l[i], groups)
            &&& forall|i: int| 0 <= i < r.len() ==> node_wf(#[trigger] r[i], groups)
        },
        Node::Group { number, children } => {
            &&& 1 <= number <= groups
            &&& forall|i: int| 0 <= i < children.len() ==> node_wf(#[trigger] children[i], groups)
        },
        Node::Quantified(inner, _) => node_wf(*inner, groups),
        _ => true,
    }
}

/// A well-formed tree for `groups` groups.
pub open spec fn tree_wf(v: Seq<Node>, groups: nat) -> bool {
    forall|i: int| 0 <= i < v.len() ==> node_wf(#[trigger] v[i], groups)
}

/// A node stays well formed when more groups are counted.
pub proof fn lemma_node_wf_grows(n: Node, a: nat, b: nat)
    requires
        node_wf(n, a),
        a <= b,
    ensures
        node_wf(n, b),
    decreases n,
{
    match n {
        Node::Sequence(v) => {
            assert forall|i: int| 0 <= i < v.len() implies node_wf(#[trigger] v[i], b) by {
                lemma_node_wf_grows(v[i], a, b);
            }
        },
        Node::Alternation(l, r) => {
            assert forall|i: int| 0 <= i < l.len() implies node_wf(#[trigger] l[i], b) by {
                lemma_node_wf_grows(l[i], a, b);
            }
            assert forall|i: int| 0 <= i < r.len() implies node_wf(#[trigger] r[i], b) by {
                lemma_node_wf_grows(r[i], a, b);
            }
        },
        Node::Group { number, children } => {
            assert forall|i: int| 0 <= i < children.len() implies node_wf(#[trigger] children[i], b) by {
                lemma_node_wf_grows(children[i], a, b);
            }
        },
        Node::Quantified(inner, _) => {
            lemma_node_wf_grows(*inner, a, b);
        },
        _ => {},
    }
}

impl View for Pattern {
    type V = Node;

    open spec fn view(&self) -> Node {
        node_of(*self)
    }
}

/// The model of a list of patterns has one node for each of them.
pub proof fn lemma_nodes_of(v: Seq<Pattern>)
    ensures
        nodes_of(v).len() == v.len(),
        forall|i: int| 0 <= i < v.len() ==> #[trigger] nodes_of(v)[i] == node_of(v[i]),
    decreases v.len(),
{
    if v.len() > 0 {
        lemma_nodes_of(v.drop_first());
    }
}

/// A copy of `p` with the same model.
fn copy_pattern(p: &Pattern) -> (r: Pattern)
    ensures
        r@ == p@,
    decreases p, 1nat,
{
    match p {
        Pattern::Literal(c) => Pattern::Literal(*c),
        Pattern::AnyChar => Pattern::AnyChar,
        Pattern::DigitClass => Pattern::DigitClass,
        Pattern::WordClass => Pattern::WordClass,
        Pattern::CharSet { members, negated } => {
            let mut m: Vec<char> = Vec::new();
            for i in 0..members.len()
                invariant
                    m@ == members@.take(i as int),
            {
                m.push(members[i]);
            }
            assert(m@ =~= members@);
            Pattern::CharSet { members: m, negated: *negated }
        },
        Pattern::Sequence(v) => Pattern::Sequence(copy_patterns(v)),
        Pattern::Alternation(l, r) => Pattern::Alternation(copy_patterns(l), copy_patterns(r)),
        Pattern::Group { number, children } => Pattern::Group {
            number: *number,
            children: copy_patterns(children),
        },
        Pattern::Quantified(inner, k) => {
            let c = copy_pattern(inner);
            Pattern::Quantified(Box::new(c), *k)
        },
        Pattern::Backreference(n) => Pattern::Backreference(*n),
    }
}

/// A copy of `v` with the same model.
fn copy_patterns(v: &Vec<Pattern>) -> (r: Vec<Pattern>)
    ensures
        nodes_of(r@) == nodes_of(v@),
    decreases v, 0nat,
{
    let mut r: Vec<Pattern> = Vec::new();
    for i in 0..v.len()
        invariant
            r.len() == i,
            forall|j: int| 0 <= j < i ==> #[trigger] node_of(r@[j]) == node_of(v@[j]),
    {
        let c = copy_pattern(&v[i]);
        r.push(c);
    }
    proof {
        lemma_nodes_of(r@);
        lemma_nodes_of(v@);
        assert(nodes_of(r@) =~= nodes_of(v@));
    }
    r
}

impl Clone for Pattern {
    fn clone(&self) -> (r: Pattern)
        ensures
            r@ == self@,
    {
        copy_pattern(self)
    }
}

} // verus!
