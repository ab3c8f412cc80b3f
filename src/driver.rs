use vstd::prelude::*;

use crate::matcher::{check_branch, match_seq, Captures};
use crate::parser::{parse_items, parse_sequence, parsed_as, ParseError};
use crate::pattern::{nodes_of, Node, Pattern};
use crate::text::chars_of;

verus! {

/// A slot for each of `n` groups, none of them filled.
pub open spec fn no_captures(n: nat) -> Captures {
    Seq::new(n, |i: int| None)
}

/// Whether the tree matches `t` from `start` with fresh slots for `groups`
/// groups, reaching the end of `t` if `end_anchored`.
pub open spec fn attempt(tree: Seq<Node>, t: Seq<char>, start: int, groups: nat, end_anchored: bool) -> bool {
    match match_seq(tree, t, start, no_captures(groups)) {
        Some((e, _)) => !end_anchored || e == t.len(),
        None => false,
    }
}

/// The first offset in `k..=t.len()` at which an attempt succeeds.
pub open spec fn first_match_from(
    tree: Seq<Node>,
    t: Seq<char>,
    k: int,
    groups: nat,
    end_anchored: bool,
) -> Option<int>
    decreases t.len() + 1 - k,
{
    if k < 0 || k > t.len() {
        None
    } else if attempt(tree, t, k, groups, end_anchored) {
        Some(k)
    } else {
        first_match_from(tree, t, k + 1, groups, end_anchored)
    }
}

/// The offset at which the tree first matches: only offset 0 is a candidate
/// when the start is anchored, else every offset from 0 to the end of `t`.
pub open spec fn first_match(
    tree: Seq<Node>,
    t: Seq<char>,
    groups: nat,
    start_anchored: bool,
    end_anchored: bool,
) -> Option<int> {
    if start_anchored {
        if attempt(tree, t, 0, groups, end_anchored) {
            Some(0)
        } else {
            None
        }
    } else {
        first_match_from(tree, t, 0, groups, end_anchored)
    }
}

pub open spec fn starts_anchored(p: Seq<char>) -> bool {
    p.len() > 0 && p[0] == '^'
}

/// Where the pattern proper begins: after a leading `^`.
pub open spec fn body_start(p: Seq<char>) -> int {
    if starts_anchored(p) {
        1
    } else {
        0
    }
}

pub open spec fn ends_anchored(p: Seq<char>) -> bool {
    p.len() > body_start(p) && p[p.len() - 1] == '$'
}

/// Where the pattern proper ends: before a trailing `$`.
pub open spec fn body_end(p: Seq<char>) -> int {
    if ends_anchored(p) {
        p.len() - 1
    } else {
        p.len() as int
    }
}

/// Whether `pattern` matches somewhere in the line `input`, or why it cannot be parsed.
pub open spec fn line_matches(input: Seq<char>, pattern: Seq<char>) -> Result<bool, ParseError> {
    match parse_items(pattern, body_start(pattern), body_end(pattern), 0) {
        Ok((tree, groups)) => Ok(
            first_match(tree, input, groups, starts_anchored(pattern), ends_anchored(pattern)) is Some,
        ),
        Err(x) => Err(x),
    }
}

/// With a leading `^`, only start offset 0 is attempted: whether the line
/// matches is decided by the attempt at offset 0 alone.
pub proof fn lemma_start_anchor_tries_only_offset_zero(input: Seq<char>, pattern: Seq<char>)
    requires
        starts_anchored(pattern),
    ensures
        line_matches(input, pattern) == match parse_items(pattern, 1, body_end(pattern), 0) {
            Ok((tree, groups)) => Ok(attempt(tree, input, 0, groups, ends_anchored(pattern))),
            Err(x) => Err::<bool, ParseError>(x),
        },
{
}

/// Matching keeps no state from one run to the next: equal lines and patterns
/// give equal results.
pub proof fn lemma_match_depends_only_on_arguments(
    input1: Seq<char>,
    pattern1: Seq<char>,
    input2: Seq<char>,
    pattern2: Seq<char>,
)
    requires
        input1 == input2,
        pattern1 == pattern2,
    ensures
        line_matches(input1, pattern1) == line_matches(input2, pattern2),
{
}

/// Runs one attempt at `start` with a fresh capture buffer.
fn try_at(tree: &Vec<Pattern>, groups: usize, text: &Vec<char>, start: usize, end_anchored: bool) -> (r: bool)
    requires
        start <= text.len(),
    ensures
        r == attempt(nodes_of(tree@), text@, start as int, groups as nat, end_anchored),
{
    let mut captured: Vec<Option<(usize, usize)>> = Vec::new();
    for i in 0..groups
        invariant
            captured@ == no_captures(i as nat),
    {
        captured.push(None);
        assert(captured@ =~= no_captures((i + 1) as nat));
    }
    match check_branch(text, start, tree, &mut captured) {
        Some(e) => !end_anchored || e == text.len(),
        None => false,
    }
}

/// The first start offset at which `tree` matches `text`. With
/// `start_anchored` only offset 0 is tried.
pub fn find_match_start(
    tree: &Vec<Pattern>,
    groups: usize,
    text: &Vec<char>,
    start_anchored: bool,
    end_anchored: bool,
) -> (r: Option<usize>)
    ensures
        r matches Some(k) ==> first_match(nodes_of(tree@), text@, groups as nat, start_anchored, end_anchored)
            == Some(k as int),
        r is None ==> first_match(nodes_of(tree@), text@, groups as nat, start_anchored, end_anchored) is None,
        start_anchored ==> r is None || r == Some(0usize),
{
    if start_anchored {
        if try_at(tree, groups, text, 0, end_anchored) {
            Some(0)
        } else {
            None
        }
    } else {
        let mut k: usize = 0;
        loop
            invariant
                k <= text.len(),
                !start_anchored,
                first_match_from(nodes_of(tree@), text@, 0, groups as nat, end_anchored)
                    == first_match_from(nodes_of(tree@), text@, k as int, groups as nat, end_anchored),
            decreases text.len() - k,
        {
            if try_at(tree, groups, text, k, end_anchored) {
                assert(first_match_from(nodes_of(tree@), text@, k as int, groups as nat, end_anchored)
                    == Some(k as int));
                return Some(k);
            }
            if k == text.len() {
                assert(first_match_from(nodes_of(tree@), text@, k + 1, groups as nat, end_anchored) is None);
                return None;
            }
            k = k + 1;
        }
    }
}

/// Whether `pattern` matches somewhere in the line `input_line`. A leading `^`
/// anchors the match at the start of the line, a trailing `$` at its end.
pub fn match_pattern(input_line: &str, pattern: &str) -> (r: Result<bool, ParseError>)
    ensures
        r == line_matches(input_line@, pattern@),
{
    let text = chars_of(input_line);
    let p = chars_of(pattern);
    let start_anchored = p.len() > 0 && p[0] == '^';
    let lo: usize = if start_anchored {
        1
    } else {
        0
    };
    let end_anchored = p.len() > lo && p[p.len() - 1] == '$';
    let hi: usize = if end_anchored {
        p.len() - 1
    } else {
        p.len()
    };
    match parse_sequence(&p, lo, hi, 0) {
        Ok((tree, groups)) => Ok(find_match_start(&tree, groups, &text, start_anchored, end_anchored).is_some()),
        Err(x) => Err(x),
    }
}

} // verus!
