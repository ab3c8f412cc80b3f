use vstd::prelude::*;

use crate::pattern::{lemma_nodes_of, node_of, nodes_of, Node, Pattern, QuantKind};

verus! {

/// One slot per capturing group: the span of text it last captured, if any.
pub type Captures = Seq<Option<(usize, usize)>>;

pub open spec fn is_digit(c: char) -> bool {
    '0' <= c && c <= '9'
}

pub open spec fn is_word(c: char) -> bool {
    ||| is_digit(c)
    ||| 'a' <= c && c <= 'z'
    ||| 'A' <= c && c <= 'Z'
    ||| c == '_'
}

/// Whether a node that matches a single character accepts `c`.
pub open spec fn accepts_char(n: Node, c: char) -> bool {
    match n {
        Node::Literal(l) => c == l,
        Node::AnyChar => true,
        Node::DigitClass => is_digit(c),
        Node::WordClass => is_word(c),
        Node::CharSet { members, negated } => members.contains(c) != negated,
        _ => false,
    }
}

pub open spec fn is_single_char(n: Node) -> bool {
    ||| n is Literal
    ||| n is AnyChar
    ||| n is DigitClass
    ||| n is WordClass
    ||| n is CharSet
}

/// Whether the text at `pos` repeats the captured span `start..end`.
pub open spec fn repeats_at(t: Seq<char>, pos: int, start: int, end: int) -> bool {
    &&& 0 <= start <= end <= t.len()
    &&& 0 <= pos
    &&& pos + (end - start) <= t.len()
    &&& t.subrange(pos, pos + (end - start)) == t.subrange(start, end)
}

/// The slots after group `number` captured `start..end`.
pub open spec fn record(caps: Captures, number: nat, start: int, end: int) -> Captures {
    if 1 <= number <= caps.len() {
        caps.update(number - 1, Some((start as usize, end as usize)))
    } else {
        caps
    }
}

/// Matching node `n` against text `t` from `pos`: where it stops, and the slots after it.
pub open spec fn match_one(n: Node, t: Seq<char>, pos: int, caps: Captures) -> Option<(int, Captures)>
    decreases n, 0int, 0int,
{
    match n {
        Node::Sequence(v) => match_seq(v, t, pos, caps),
        Node::Alternation(l, r) => match match_seq(l, t, pos, caps) {
            Some(x) => Some(x),
            None => match_seq(r, t, pos, caps),
        },
        Node::Group { number, children } => match match_seq(children, t, pos, caps) {
            Some((e, c)) => Some((e, record(c, number, pos, e))),
            None => None,
        },
        Node::Quantified(inner, kind) => match kind {
            QuantKind::ZeroOrOne => match match_one(*inner, t, pos, caps) {
                Some(x) => Some(x),
                None => Some((pos, caps)),
            },
            QuantKind::ZeroOrMore => Some(match_star(*inner, t, pos, caps)),
            QuantKind::OneOrMore => match match_one(*inner, t, pos, caps) {
                Some((e, c)) => Some(match_star(*inner, t, e, c)),
                None => None,
            },
        },
        Node::Backreference(k) => {
            if 1 <= k <= caps.len() && caps[k - 1] is Some {
                let (s, e) = caps[k - 1]->0;
                if repeats_at(t, pos, s as int, e as int) {
                    Some((pos + (e - s), caps))
                } else {
                    None
                }
            } else {
                None
            }
        },
        _ => {
            if 0 <= pos < t.len() && accepts_char(n, t[pos]) {
                Some((pos + 1, caps))
            } else {
                None
            }
        },
    }
}

/// Matching the nodes of `v` one after another.
pub open spec fn match_seq(v: Seq<Node>, t: Seq<char>, pos: int, caps: Captures) -> Option<(int, Captures)>
    decreases v, 0int, 0int,
{
    if v.len() == 0 {
        Some((pos, caps))
    } else {
        match match_one(v[0], t, pos, caps) {
            Some((e, c)) => match_seq(v.drop_first(), t, e, c),
            None => None,
        }
    }
}

/// Repeating `n` greedily from `pos` while each repetition moves forward.
pub open spec fn match_star(n: Node, t: Seq<char>, pos: int, caps: Captures) -> (int, Captures)
    decreases n, 1int, t.len() - pos,
{
    if pos >= t.len() {
        (pos, caps)
    } else {
        match match_one(n, t, pos, caps) {
            Some((e, c)) => {
                if pos < e <= t.len() {
                    match_star(n, t, e, c)
                } else {
                    (pos, caps)
                }
            },
            None => (pos, caps),
        }
    }
}

/// A failed left branch of an alternation leaves nothing behind: the right
/// branch runs on the slots as they stood before the alternation, so a later
/// backreference cannot see what the failed branch captured.
pub proof fn lemma_failed_branch_leaves_no_captures(
    left: Seq<Node>,
    right: Seq<Node>,
    t: Seq<char>,
    pos: int,
    caps: Captures,
)
    requires
        match_seq(left, t, pos, caps) is None,
    ensures
        match_one(Node::Alternation(left, right), t, pos, caps) == match_seq(right, t, pos, caps),
{
}

/// How a run of the matcher reports the outcome `res` of the model: the end
/// position on success with the slots it left, and untouched slots on failure.
pub open spec fn reports(
    res: Option<(int, Captures)>,
    r: Option<usize>,
    before: Captures,
    after: Captures,
) -> bool {
    match res {
        Some((e, c)) => r matches Some(x) && x == e && after == c,
        None => r is None && after == before,
    }
}

fn copy_slots(v: &Vec<Option<(usize, usize)>>) -> (r: Vec<Option<(usize, usize)>>)
    ensures
        r@ == v@,
{
    let mut r: Vec<Option<(usize, usize)>> = Vec::new();
    for i in 0..v.len()
        invariant
            r@ == v@.take(i as int),
    {
        r.push(v[i]);
    }
    assert(r@ =~= v@);
    r
}

fn accepts(p: &Pattern, c: char) -> (r: bool)
    requires
        is_single_char(p@),
    ensures
        r == accepts_char(p@, c),
{
    match p {
        Pattern::Literal(l) => c == *l,
        Pattern::AnyChar => true,
        Pattern::DigitClass => '0' <= c && c <= '9',
        Pattern::WordClass => ('0' <= c && c <= '9') || ('a' <= c && c <= 'z') || ('A' <= c
            && c <= 'Z') || c == '_',
        Pattern::CharSet { members, negated } => {
            let mut found = false;
            for i in 0..members.len()
                invariant
                    found == members@.take(i as int).contains(c),
            {
                let ghost before = members@.take(i as int);
                let ghost after = members@.take(i + 1);
                proof {
                    assert(after =~= before.push(members@[i as int]));
                    if before.contains(c) {
                        let j = choose|j: int| 0 <= j < before.len() && before[j] == c;
                        assert(after[j] == c);
                    }
                    if after.contains(c) && members@[i as int] != c {
                        let j = choose|j: int| 0 <= j < after.len() && after[j] == c;
                        assert(before[j] == c);
                    }
                }
                if members[i] == c {
                    assert(after[i as int] == c);
                    found = true;
                }
            }
            assert(members@.take(members.len() as int) =~= members@);
            found != *negated
        },
        _ => false,
    }
}

/// Whether `text[a..a + len]` and `text[b..b + len]` hold the same characters.
fn same_text(text: &Vec<char>, a: usize, b: usize, len: usize) -> (r: bool)
    requires
        a + len <= text.len(),
        b + len <= text.len(),
    ensures
        r == (text@.subrange(a as int, a + len) == text@.subrange(b as int, b + len)),
{
    let mut i: usize = 0;
    while i < len
        invariant
            i <= len,
            a + len <= text.len(),
            b + len <= text.len(),
            text@.subrange(a as int, a + i) == text@.subrange(b as int, b + i),
        decreases len - i,
    {
        if text[a + i] != text[b + i] {
            assert(text@.subrange(a as int, a + len)[i as int] != text@.subrange(b as int, b + len)[i as int]);
            return false;
        }
        assert(text@.subrange(a as int, a + i + 1) =~= text@.subrange(b as int, b + i + 1));
        i = i + 1;
    }
    true
}

/// Matches one node at `pos`. On success the slots of the groups it completed
/// hold their new spans; on failure `captured` is left as it was.
pub fn match_character(
    text: &Vec<char>,
    pos: usize,
    subpattern: &Pattern,
    captured: &mut Vec<Option<(usize, usize)>>,
) -> (r: Option<usize>)
    requires
        pos <= text.len(),
    ensures
        reports(match_one(subpattern@, text@, pos as int, old(captured)@), r, old(captured)@, final(captured)@),
        r matches Some(e) ==> pos <= e <= text.len(),
    decreases subpattern, 0int, 0int,
{
    match subpattern {
        Pattern::Sequence(v) => check_branch(text, pos, v, captured),
        Pattern::Alternation(l, rt) => {
            match check_branch(text, pos, l, captured) {
                Some(e) => Some(e),
                None => check_branch(text, pos, rt, captured),
            }
        },
        Pattern::Group { number, children } => {
            match check_branch(text, pos, children, captured) {
                Some(e) => {
                    if 1 <= *number && *number <= captured.len() {
                        captured.set(*number - 1, Some((pos, e)));
                    }
                    Some(e)
                },
                None => None,
            }
        },
        Pattern::Quantified(inner, kind) => {
            match kind {
                QuantKind::ZeroOrOne => {
                    match match_character(text, pos, inner, captured) {
                        Some(e) => Some(e),
                        None => Some(pos),
                    }
                },
                QuantKind::ZeroOrMore => Some(match_repeat(text, pos, inner, captured)),
                QuantKind::OneOrMore => {
                    match match_character(text, pos, inner, captured) {
                        Some(e) => Some(match_repeat(text, e, inner, captured)),
                        None => None,
                    }
                },
            }
        },
        Pattern::Backreference(k) => {
            let k = *k;
            if 1 <= k && k <= captured.len() {
                match captured[k - 1] {
                    Some((s, e)) => {
                        if s <= e && e <= text.len() && pos <= text.len() - (e - s) && same_text(
                            text,
                            pos,
                            s,
                            e - s,
                        ) {
                            Some(pos + (e - s))
                        } else {
                            None
                        }
                    },
                    None => None,
                }
            } else {
                None
            }
        },
        _ => {
            if pos < text.len() && accepts(subpattern, text[pos]) {
                Some(pos + 1)
            } else {
                None
            }
        },
    }
}

/// Repeats `inner` greedily from `pos` for as long as each repetition matches
/// and moves forward; never fails.
fn match_repeat(
    text: &Vec<char>,
    pos: usize,
    inner: &Pattern,
    captured: &mut Vec<Option<(usize, usize)>>,
) -> (r: usize)
    requires
        pos <= text.len(),
    ensures
        match_star(inner@, text@, pos as int, old(captured)@) == (r as int, final(captured)@),
        pos <= r <= text.len(),
    decreases inner, 1int, 0int,
{
    let mut cur = pos;
    while cur < text.len()
        invariant
            pos <= cur <= text.len(),
            match_star(inner@, text@, cur as int, captured@) == match_star(
                inner@,
                text@,
                pos as int,
                old(captured)@,
            ),
        decreases text.len() - cur,
    {
        let saved = copy_slots(captured);
        match match_character(text, cur, inner, captured) {
            Some(e) => {
                if e > cur {
                    cur = e;
                } else {
                    *captured = saved;
                    return cur;
                }
            },
            None => {
                return cur;
            },
        }
    }
    cur
}

/// Matches the nodes of `items` one after another from `pos`. On failure
/// `captured` is restored to what it held before the first of them.
pub fn check_branch(
    text: &Vec<char>,
    pos: usize,
    items: &Vec<Pattern>,
    captured: &mut Vec<Option<(usize, usize)>>,
) -> (r: Option<usize>)
    requires
        pos <= text.len(),
    ensures
        reports(match_seq(nodes_of(items@), text@, pos as int, old(captured)@), r, old(captured)@, final(captured)@),
        r matches Some(e) ==> pos <= e <= text.len(),
    decreases items, 0int, 0int,
{
    let saved = copy_slots(captured);
    let mut cur = pos;
    let ghost all = nodes_of(items@);
    proof {
        lemma_nodes_of(items@);
        assert(all.subrange(0, all.len() as int) =~= all);
    }
    for i in 0..items.len()
        invariant
            pos <= cur <= text.len(),
            all == nodes_of(items@),
            all.len() == items.len(),
            forall|j: int| 0 <= j < items.len() ==> #[trigger] all[j] == node_of(items@[j]),
            saved@ == old(captured)@,
            match_seq(all, text@, pos as int, old(captured)@) == match_seq(
                all.subrange(i as int, all.len() as int),
                text@,
                cur as int,
                captured@,
            ),
    {
        let ghost rest = all.subrange(i as int, all.len() as int);
        proof {
            assert(rest[0] == node_of(items@[i as int]));
            assert(rest.drop_first() =~= all.subrange(i + 1, all.len() as int));
        }
        match match_character(text, cur, &items[i], captured) {
            Some(e) => {
                cur = e;
            },
            None => {
                *captured = saved;
                return None;
            },
        }
    }
    Some(cur)
}

} // verus!
