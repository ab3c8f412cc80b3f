use vstd::prelude::*;

use crate::pattern::{
    lemma_node_wf_grows, lemma_nodes_of, node_of, node_wf, nodes_of, tree_wf, Node, Pattern, QuantKind,
};
use crate::text::chars_of;

verus! {

/// Why a pattern could not be parsed.
#[derive(Debug, Clone, Copy, PartialEq, Eq, Structural)]
pub enum ParseError {
    /// A `\` with nothing after it.
    DanglingEscape,
    /// A `[` with no `]` after it.
    UnterminatedClass,
    /// A class with no member, as in `[]` or `[^]`.
    EmptyClass,
    /// A `(` with no matching `)`.
    UnterminatedGroup,
    /// A `+`, `?` or `*` with no item before it.
    DanglingQuantifier,
}

pub open spec fn is_quantifier(c: char) -> bool {
    c == '+' || c == '?' || c == '*'
}

/// The first position in `i..hi` that holds `c`.
pub open spec fn find_char(p: Seq<char>, i: int, hi: int, c: char) -> Option<int>
    decreases hi - i,
{
    if i >= hi {
        None
    } else if p[i] == c {
        Some(i)
    } else {
        find_char(p, i + 1, hi, c)
    }
}

pub proof fn lemma_find_char(p: Seq<char>, i: int, hi: int, c: char)
    ensures
        find_char(p, i, hi, c) matches Some(j) ==> i <= j < hi,
    decreases hi - i,
{
    if i < hi && p[i] != c {
        lemma_find_char(p, i + 1, hi, c);
    }
}

/// Where the members of the class opened by the `[` at `i` begin: after a leading `^`, if any.
pub open spec fn class_start(p: Seq<char>, i: int, hi: int) -> int {
    if i + 1 < hi && p[i + 1] == '^' {
        i + 2
    } else {
        i + 1
    }
}

/// The first position in `i..hi` that holds `target` outside any escape, class
/// or nested group, given that `depth` groups are open at `i`.
pub open spec fn scan_to(p: Seq<char>, i: int, hi: int, depth: nat, target: char) -> Option<int>
    decreases hi - i,
{
    if i >= hi {
        None
    } else if p[i] == '\\' {
        if i + 1 < hi {
            scan_to(p, i + 2, hi, depth, target)
        } else {
            None
        }
    } else if p[i] == '[' {
        match find_char(p, class_start(p, i, hi), hi, ']') {
            Some(j) => {
                proof {
                    lemma_find_char(p, class_start(p, i, hi), hi, ']');
                }
                scan_to(p, j + 1, hi, depth, target)
            },
            None => None,
        }
    } else if p[i] == '(' {
        scan_to(p, i + 1, hi, depth + 1, target)
    } else if p[i] == ')' && depth > 0 {
        scan_to(p, i + 1, hi, (depth - 1) as nat, target)
    } else if p[i] == target && depth == 0 {
        Some(i)
    } else {
        scan_to(p, i + 1, hi, depth, target)
    }
}

pub proof fn lemma_scan_to(p: Seq<char>, i: int, hi: int, depth: nat, target: char)
    ensures
        scan_to(p, i, hi, depth, target) matches Some(j) ==> i <= j < hi,
    decreases hi - i,
{
    if i < hi {
        if p[i] == '\\' {
            if i + 1 < hi {
                lemma_scan_to(p, i + 2, hi, depth, target);
            }
        } else if p[i] == '[' {
            lemma_find_char(p, class_start(p, i, hi), hi, ']');
            if let Some(j) = find_char(p, class_start(p, i, hi), hi, ']') {
                lemma_scan_to(p, j + 1, hi, depth, target);
            }
        } else if p[i] == '(' {
            lemma_scan_to(p, i + 1, hi, depth + 1, target);
        } else if p[i] == ')' && depth > 0 {
            lemma_scan_to(p, i + 1, hi, (depth - 1) as nat, target);
        } else if !(p[i] == target && depth == 0) {
            lemma_scan_to(p, i + 1, hi, depth, target);
        }
    }
}

/// Where the atom or group that starts at `i` ends.
pub open spec fn atom_end(p: Seq<char>, i: int, hi: int) -> Result<int, ParseError> {
    if p[i] == '\\' {
        if i + 1 < hi {
            Ok(i + 2)
        } else {
            Err(ParseError::DanglingEscape)
        }
    } else if p[i] == '[' {
        match find_char(p, class_start(p, i, hi), hi, ']') {
            Some(j) => {
                if j == class_start(p, i, hi) {
                    Err(ParseError::EmptyClass)
                } else {
                    Ok(j + 1)
                }
            },
            None => Err(ParseError::UnterminatedClass),
        }
    } else if p[i] == '(' {
        match scan_to(p, i + 1, hi, 0, ')') {
            Some(j) => Ok(j + 1),
            None => Err(ParseError::UnterminatedGroup),
        }
    } else if is_quantifier(p[i]) {
        Err(ParseError::DanglingQuantifier)
    } else {
        Ok(i + 1)
    }
}

pub proof fn lemma_atom_end(p: Seq<char>, i: int, hi: int)
    requires
        i < hi,
    ensures
        atom_end(p, i, hi) matches Ok(e) ==> {
            &&& i < e <= hi
            &&& p[i] == '\\' ==> e == i + 2
            &&& p[i] == '[' ==> class_start(p, i, hi) < e - 1 && class_start(p, i, e) == class_start(p, i, hi)
            &&& p[i] == '(' ==> i + 1 < e
        },
{
    lemma_find_char(p, class_start(p, i, hi), hi, ']');
    lemma_scan_to(p, i + 1, hi, 0, ')');
}

/// The node that an escape `\c` stands for.
pub open spec fn escape_node(c: char) -> Node {
    if c == 'd' {
        Node::DigitClass
    } else if c == 'w' {
        Node::WordClass
    } else if '1' <= c <= '9' {
        Node::Backreference((c as int - '0' as int) as nat)
    } else {
        Node::Literal(c)
    }
}

/// The items that an item `a` followed by the quantifier `q` becomes.
pub open spec fn quantified(a: Node, q: char) -> Seq<Node> {
    if q == '?' {
        seq![Node::Quantified(Box::new(a), QuantKind::ZeroOrOne)]
    } else if q == '*' {
        seq![Node::Quantified(Box::new(a), QuantKind::ZeroOrMore)]
    } else {
        seq![a, Node::Quantified(Box::new(a), QuantKind::ZeroOrMore)]
    }
}

/// The atom or group that occupies `i..e`, with the count of groups numbered
/// so far, `g` of them before it.
pub open spec fn parse_atom(p: Seq<char>, i: int, e: int, g: nat) -> Result<(Node, nat), ParseError>
    decreases e - i when i < e
{
    if p[i] == '\\' {
        Ok((escape_node(p[i + 1]), g))
    } else if p[i] == '[' {
        let st = class_start(p, i, e);
        Ok((Node::CharSet { members: p.subrange(st, e - 1), negated: st == i + 2 }, g))
    } else if p[i] == '(' {
        let n = g + 1;
        match scan_to(p, i + 1, e - 1, 0, '|') {
            Some(b) => {
                proof {
                    lemma_scan_to(p, i + 1, e - 1, 0, '|');
                }
                match parse_items(p, i + 1, b, n) {
                    Ok((l, g1)) => match parse_items(p, b + 1, e - 1, g1) {
                        Ok((r, g2)) => Ok(
                            (Node::Group { number: n, children: seq![Node::Alternation(l, r)] }, g2),
                        ),
                        Err(x) => Err(x),
                    },
                    Err(x) => Err(x),
                }
            },
            None => match parse_items(p, i + 1, e - 1, n) {
                Ok((v, g1)) => Ok((Node::Group { number: n, children: v }, g1)),
                Err(x) => Err(x),
            },
        }
    } else if p[i] == '.' {
        Ok((Node::AnyChar, g))
    } else {
        Ok((Node::Literal(p[i]), g))
    }
}

/// The items of `p[i..hi]`, each an atom or group with an optional quantifier,
/// and the count of groups numbered after them, `g` of them before.
pub open spec fn parse_items(p: Seq<char>, i: int, hi: int, g: nat) -> Result<(Seq<Node>, nat), ParseError>
    decreases hi - i + 1,
{
    if i >= hi {
        Ok((Seq::empty(), g))
    } else {
        match atom_end(p, i, hi) {
            Ok(e) => {
                proof {
                    lemma_atom_end(p, i, hi);
                }
                match parse_atom(p, i, e, g) {
                    Ok((a, g1)) => {
                        let (unit, next) = if e < hi && is_quantifier(p[e]) {
                            (quantified(a, p[e]), e + 1)
                        } else {
                            (seq![a], e)
                        };
                        match parse_items(p, next, hi, g1) {
                            Ok((rest, g2)) => Ok((unit + rest, g2)),
                            Err(x) => Err(x),
                        }
                    },
                    Err(x) => Err(x),
                }
            },
            Err(x) => Err(x),
        }
    }
}

/// The tree of a whole pattern, with the number of its groups.
pub open spec fn parse_tree(p: Seq<char>) -> Result<(Seq<Node>, nat), ParseError> {
    parse_items(p, 0, p.len() as int, 0)
}

proof fn lemma_atom_wf(p: Seq<char>, i: int, e: int, hi: int, g: nat)
    requires
        0 <= i < e <= hi <= p.len(),
        atom_end(p, i, hi) == Ok::<int, ParseError>(e),
    ensures
        parse_atom(p, i, e, g) matches Ok((a, g2)) ==> g <= g2 && node_wf(a, g2),
    decreases e - i,
{
    lemma_atom_end(p, i, hi);
    if p[i] == '(' {
        let n = g + 1;
        match scan_to(p, i + 1, e - 1, 0, '|') {
            Some(b) => {
                lemma_scan_to(p, i + 1, e - 1, 0, '|');
                lemma_items_wf(p, i + 1, b, n);
                if let Ok((l, g1)) = parse_items(p, i + 1, b, n) {
                    lemma_items_wf(p, b + 1, e - 1, g1);
                    if let Ok((r, g2)) = parse_items(p, b + 1, e - 1, g1) {
                        assert forall|k: int| 0 <= k < l.len() implies node_wf(#[trigger] l[k], g2) by {
                            lemma_node_wf_grows(l[k], g1, g2);
                        }
                        let alt = Node::Alternation(l, r);
                        assert(node_wf(alt, g2));
                        assert(seq![alt][0] == alt);
                    }
                }
            },
            None => {
                lemma_items_wf(p, i + 1, e - 1, n);
            },
        }
    }
}

proof fn lemma_items_wf(p: Seq<char>, i: int, hi: int, g: nat)
    requires
        0 <= i,
        hi <= p.len(),
    ensures
        parse_items(p, i, hi, g) matches Ok((v, g2)) ==> g <= g2 && tree_wf(v, g2),
    decreases hi - i + 1,
{
    if i < hi {
        lemma_atom_end(p, i, hi);
        if let Ok(e) = atom_end(p, i, hi) {
            lemma_atom_wf(p, i, e, hi, g);
            if let Ok((a, g1)) = parse_atom(p, i, e, g) {
                let next = if e < hi && is_quantifier(p[e]) {
                    e + 1
                } else {
                    e
                };
                lemma_items_wf(p, next, hi, g1);
                if let Ok((rest, g2)) = parse_items(p, next, hi, g1) {
                    lemma_node_wf_grows(a, g1, g2);
                    let unit = if e < hi && is_quantifier(p[e]) {
                        quantified(a, p[e])
                    } else {
                        seq![a]
                    };
                    assert(node_wf(Node::Quantified(Box::new(a), QuantKind::ZeroOrOne), g2));
                    assert(node_wf(Node::Quantified(Box::new(a), QuantKind::ZeroOrMore), g2));
                    assert(tree_wf(unit, g2));
                    assert forall|k: int| 0 <= k < (unit + rest).len() implies node_wf(
                        #[trigger] (unit + rest)[k],
                        g2,
                    ) by {
                        if k >= unit.len() {
                            assert((unit + rest)[k] == rest[k - unit.len()]);
                        }
                    }
                }
            }
        }
    }
}

/// Every tree that parsing yields is well formed for the number of groups it counts.
pub proof fn lemma_parse_tree_wf(p: Seq<char>)
    ensures
        parse_tree(p) matches Ok((v, groups)) ==> tree_wf(v, groups),
{
    lemma_items_wf(p, 0, p.len() as int, 0);
}

/// Parsing is a function of the pattern alone: equal patterns give
/// structurally equal trees, or the same error.
pub proof fn lemma_parse_deterministic(p1: Seq<char>, p2: Seq<char>)
    requires
        p1 == p2,
    ensures
        parse_tree(p1) == parse_tree(p2),
{
}

/// The items of `pre` followed by those of a successful parse `r`.
pub open spec fn prefix_with(pre: Seq<Node>, r: Result<(Seq<Node>, nat), ParseError>) -> Result<
    (Seq<Node>, nat),
    ParseError,
> {
    match r {
        Ok((v, h)) => Ok((pre + v, h)),
        Err(x) => Err(x),
    }
}

/// Whether the outcome `r` of a parse run has the model `s`.
pub open spec fn parsed_as(
    r: Result<(Vec<Pattern>, usize), ParseError>,
    s: Result<(Seq<Node>, nat), ParseError>,
) -> bool {
    match r {
        Ok((v, g)) => s matches Ok((nodes, h)) && nodes_of(v@) == nodes && g == h,
        Err(x) => s == Err::<(Seq<Node>, nat), ParseError>(x),
    }
}

/// Whether the outcome `r` of parsing one atom or group has the model `s`.
pub open spec fn atom_parsed_as(r: Result<(Pattern, usize), ParseError>, s: Result<(Node, nat), ParseError>) -> bool {
    match r {
        Ok((a, g)) => s == Ok::<(Node, nat), ParseError>((a@, g as nat)),
        Err(x) => s == Err::<(Node, nat), ParseError>(x),
    }
}

proof fn lemma_nodes_of_push(v: Seq<Pattern>, x: Pattern)
    ensures
        nodes_of(v.push(x)) == nodes_of(v).push(node_of(x)),
{
    lemma_nodes_of(v);
    lemma_nodes_of(v.push(x));
    assert(nodes_of(v.push(x)) =~= nodes_of(v).push(node_of(x)));
}

/// The first position in `from..hi` that holds `c`.
fn locate(p: &Vec<char>, from: usize, hi: usize, c: char) -> (r: Option<usize>)
    requires
        from <= hi <= p.len(),
    ensures
        r matches Some(j) ==> find_char(p@, from as int, hi as int, c) == Some(j as int) && from
            <= j < hi,
        r is None ==> find_char(p@, from as int, hi as int, c) is None,
{
    let mut k = from;
    while k < hi
        invariant
            from <= k <= hi <= p.len(),
            find_char(p@, from as int, hi as int, c) == find_char(p@, k as int, hi as int, c),
        decreases hi - k,
    {
        if p[k] == c {
            return Some(k);
        }
        k = k + 1;
    }
    None
}

/// The first position in `from..hi` that holds `target` outside any escape,
/// class or nested group.
fn scan(p: &Vec<char>, from: usize, hi: usize, target: char) -> (r: Option<usize>)
    requires
        from <= hi <= p.len(),
    ensures
        r matches Some(j) ==> scan_to(p@, from as int, hi as int, 0, target) == Some(j as int) && from
            <= j < hi,
        r is None ==> scan_to(p@, from as int, hi as int, 0, target) is None,
{
    let mut i = from;
    let mut depth: usize = 0;
    while i < hi
        invariant
            from <= i <= hi <= p.len(),
            depth <= i,
            scan_to(p@, from as int, hi as int, 0, target) == scan_to(
                p@,
                i as int,
                hi as int,
                depth as nat,
                target,
            ),
        decreases hi - i,
    {
        let c = p[i];
        if c == '\\' {
            if i + 1 < hi {
                i = i + 2;
            } else {
                return None;
            }
        } else if c == '[' {
            let st = if i + 1 < hi && p[i + 1] == '^' {
                i + 2
            } else {
                i + 1
            };
            match locate(p, st, hi, ']') {
                Some(j) => {
                    i = j + 1;
                },
                None => {
                    return None;
                },
            }
        } else if c == '(' {
            depth = depth + 1;
            i = i + 1;
        } else if c == ')' && depth > 0 {
            depth = depth - 1;
            i = i + 1;
        } else if c == target && depth == 0 {
            return Some(i);
        } else {
            i = i + 1;
        }
    }
    None
}

/// Where the atom or group that starts at `i` ends, or why it is malformed.
fn atom_bounds(p: &Vec<char>, i: usize, hi: usize) -> (r: Result<usize, ParseError>)
    requires
        i < hi <= p.len(),
    ensures
        r matches Ok(e) ==> atom_end(p@, i as int, hi as int) == Ok::<int, ParseError>(e as int),
        r matches Err(x) ==> atom_end(p@, i as int, hi as int) == Err::<int, ParseError>(x),
{
    let c = p[i];
    if c == '\\' {
        if i + 1 < hi {
            Ok(i + 2)
        } else {
            Err(ParseError::DanglingEscape)
        }
    } else if c == '[' {
        let st = if i + 1 < hi && p[i + 1] == '^' {
            i + 2
        } else {
            i + 1
        };
        match locate(p, st, hi, ']') {
            Some(j) => {
                if j == st {
                    Err(ParseError::EmptyClass)
                } else {
                    Ok(j + 1)
                }
            },
            None => Err(ParseError::UnterminatedClass),
        }
    } else if c == '(' {
        match scan(p, i + 1, hi, ')') {
            Some(j) => Ok(j + 1),
            None => Err(ParseError::UnterminatedGroup),
        }
    } else if c == '+' || c == '?' || c == '*' {
        Err(ParseError::DanglingQuantifier)
    } else {
        Ok(i + 1)
    }
}

/// The node that matches exactly `c`.
fn literal(c: char) -> (r: Pattern)
    ensures
        r@ == Node::Literal(c),
{
    Pattern::Literal(c)
}

/// The node that the escape `\c` stands for.
fn special_char(c: char) -> (r: Pattern)
    ensures
        r@ == escape_node(c),
{
    if c == 'd' {
        Pattern::DigitClass
    } else if c == 'w' {
        Pattern::WordClass
    } else if '1' <= c && c <= '9' {
        Pattern::Backreference((c as u32 - '0' as u32) as usize)
    } else {
        Pattern::Literal(c)
    }
}

/// Parses the group that occupies `i..e`; `g` groups are numbered before it.
fn parse_group(p: &Vec<char>, i: usize, e: usize, hi: usize, g: usize) -> (r: Result<
    (Pattern, usize),
    ParseError,
>)
    requires
        i < e <= hi <= p.len(),
        p[i as int] == '(',
        atom_end(p@, i as int, hi as int) == Ok::<int, ParseError>(e as int),
        g <= i,
    ensures
        atom_parsed_as(r, parse_atom(p@, i as int, e as int, g as nat)),
        r matches Ok((_, g2)) ==> g2 <= e,
    decreases e - i, 1int,
{
    proof {
        lemma_atom_end(p@, i as int, hi as int);
    }
    let n = g + 1;
    match scan(p, i + 1, e - 1, '|') {
        Some(b) => {
            proof {
                lemma_scan_to(p@, i + 1, e - 1, 0, '|');
            }
            match parse_sequence(p, i + 1, b, n) {
                Ok((l, g1)) => match parse_sequence(p, b + 1, e - 1, g1) {
                    Ok((rt, g2)) => {
                        let alt = Pattern::Alternation(l, rt);
                        let ghost alt_node = alt@;
                        let mut children: Vec<Pattern> = Vec::new();
                        children.push(alt);
                        proof {
                            lemma_nodes_of(children@);
                            assert(nodes_of(children@) =~= seq![alt_node]);
                        }
                        Ok((Pattern::Group { number: n, children }, g2))
                    },
                    Err(x) => Err(x),
                },
                Err(x) => Err(x),
            }
        },
        None => match parse_sequence(p, i + 1, e - 1, n) {
            Ok((v, g1)) => Ok((Pattern::Group { number: n, children: v }, g1)),
            Err(x) => Err(x),
        },
    }
}

/// Parses the atom or group that occupies `i..e`; `g` groups are numbered before it.
fn parse_char_by_char(p: &Vec<char>, i: usize, e: usize, hi: usize, g: usize) -> (r: Result<
    (Pattern, usize),
    ParseError,
>)
    requires
        i < e <= hi <= p.len(),
        atom_end(p@, i as int, hi as int) == Ok::<int, ParseError>(e as int),
        g <= i,
    ensures
        atom_parsed_as(r, parse_atom(p@, i as int, e as int, g as nat)),
        r matches Ok((_, g2)) ==> g2 <= e,
        r matches Err(x) ==> parse_atom(p@, i as int, e as int, g as nat) == Err::<
            (Node, nat),
            ParseError,
        >(x),
    decreases e - i, 2int,
{
    proof {
        lemma_atom_end(p@, i as int, hi as int);
    }
    let c = p[i];
    if c == '\\' {
        Ok((special_char(p[i + 1]), g))
    } else if c == '[' {
        let st = if i + 1 < e && p[i + 1] == '^' {
            i + 2
        } else {
            i + 1
        };
        let mut members: Vec<char> = Vec::new();
        let mut k = st;
        while k < e - 1
            invariant
                st <= k <= e - 1,
                e <= p.len(),
                members@ == p@.subrange(st as int, k as int),
            decreases e - 1 - k,
        {
            members.push(p[k]);
            assert(members@ =~= p@.subrange(st as int, k + 1));
            k = k + 1;
        }
        Ok((Pattern::CharSet { members, negated: st == i + 2 }, g))
    } else if c == '(' {
        parse_group(p, i, e, hi, g)
    } else if c == '.' {
        Ok((Pattern::AnyChar, g))
    } else {
        Ok((literal(c), g))
    }
}

/// Parses the items of `p[lo..hi]`; `g` groups are numbered before them.
pub(crate) fn parse_sequence(p: &Vec<char>, lo: usize, hi: usize, g: usize) -> (r: Result<
    (Vec<Pattern>, usize),
    ParseError,
>)
    requires
        lo <= hi <= p.len(),
        g <= lo,
    ensures
        parsed_as(r, parse_items(p@, lo as int, hi as int, g as nat)),
        r matches Ok((_, g2)) ==> g2 <= hi,
    decreases hi - lo + 1, 0int,
{
    let mut items: Vec<Pattern> = Vec::new();
    let mut i = lo;
    let mut count = g;
    proof {
        lemma_nodes_of(items@);
        assert(nodes_of(items@) =~= Seq::<Node>::empty());
        match parse_items(p@, lo as int, hi as int, g as nat) {
            Ok((v, h)) => {
                assert(Seq::<Node>::empty() + v =~= v);
            },
            Err(_) => {},
        }
    }
    while i < hi
        invariant
            lo <= i <= hi <= p.len(),
            count <= i,
            parse_items(p@, lo as int, hi as int, g as nat) == prefix_with(
                nodes_of(items@),
                parse_items(p@, i as int, hi as int, count as nat),
            ),
        decreases hi - i,
    {
        let e = match atom_bounds(p, i, hi) {
            Ok(e) => e,
            Err(x) => {
                return Err(x);
            },
        };
        proof {
            lemma_atom_end(p@, i as int, hi as int);
        }
        let (a, g1) = match parse_char_by_char(p, i, e, hi, count) {
            Ok(x) => x,
            Err(x) => {
                return Err(x);
            },
        };
        let ghost before = nodes_of(items@);
        let ghost an = a@;
        let ghost unit: Seq<Node>;
        if e < hi && (p[e] == '+' || p[e] == '?' || p[e] == '*') {
            let q = p[e];
            proof {
                unit = quantified(an, q);
            }
            if q == '?' {
                let qa = Pattern::Quantified(Box::new(a), QuantKind::ZeroOrOne);
                proof { lemma_nodes_of_push(items@, qa); }
                items.push(qa);
            } else if q == '*' {
                let qa = Pattern::Quantified(Box::new(a), QuantKind::ZeroOrMore);
                proof { lemma_nodes_of_push(items@, qa); }
                items.push(qa);
            } else {
                let again = a.clone();
                proof { lemma_nodes_of_push(items@, a); }
                items.push(a);
                let qa = Pattern::Quantified(Box::new(again), QuantKind::ZeroOrMore);
                proof { lemma_nodes_of_push(items@, qa); }
                items.push(qa);
            }
            i = e + 1;
        } else {
            proof {
                unit = seq![an];
                lemma_nodes_of_push(items@, a);
            }
            items.push(a);
            i = e;
        }
        proof {
            assert(nodes_of(items@) =~= before + unit);
            match parse_items(p@, i as int, hi as int, g1 as nat) {
                Ok((rest, h)) => {
                    assert(before + (unit + rest) =~= (before + unit) + rest);
                },
                Err(_) => {},
            }
        }
        count = g1;
    }
    proof {
        assert(nodes_of(items@) + Seq::<Node>::empty() =~= nodes_of(items@));
    }
    Ok((items, count))
}

/// Parses a whole pattern, given as characters, and counts its groups.
pub fn parse_chars(p: &Vec<char>) -> (r: Result<(Vec<Pattern>, usize), ParseError>)
    ensures
        parsed_as(r, parse_tree(p@)),
        r matches Ok((v, groups)) ==> tree_wf(nodes_of(v@), groups as nat),
{
    proof {
        lemma_parse_tree_wf(p@);
    }
    parse_sequence(p, 0, p.len(), 0)
}

impl Pattern {
    /// Parses `input` into the sequence of items it denotes.
    pub fn parse_pattern(input: &str) -> (r: Result<Vec<Pattern>, ParseError>)
        ensures
            r matches Ok(v) ==> parse_tree(input@) matches Ok((nodes, _)) && nodes_of(v@) == nodes,
            r matches Err(x) ==> parse_tree(input@) == Err::<(Seq<Node>, nat), ParseError>(x),
    {
        let p = chars_of(input);
        match parse_chars(&p) {
            Ok((v, _)) => Ok(v),
            Err(x) => Err(x),
        }
    }
}

} // verus!
