//! The stub refinement model.
use vstd::prelude::*;

use crate::text::{
    chars_of, concat_str, decimal, push_decimal, string_from_range, trim, trim_end_len,
    trim_start_len, views,
};

verus! {

/// The model that produced a set of refined suggestions.
#[derive(Clone, Debug)]
pub struct ModelInfo {
    pub name: String,
    pub latency_ms: u64,
}

/// The text between a refined suggestion's prefix and its number.
pub open spec fn refined_label() -> Seq<char> {
    seq![
        ' ', '\u{b7}', ' ', 'r', 'e', 'f', 'i', 'n', 'e', 'd', ' ', 'o', 'p', 't', 'i', 'o', 'n', ' ',
    ]
}

/// The stub model's suggestions: none when the prefix is blank, else
/// `max_candidates` of them, the trimmed prefix followed by
/// " · refined option " and the numbers 1, 2, ... in turn.
pub open spec fn refined_suggestions(prefix: Seq<char>, max_candidates: nat) -> Seq<Seq<char>> {
    let t = trim(prefix);
    if t.len() == 0 {
        seq![]
    } else {
        Seq::new(max_candidates, |i: int| t + refined_label() + decimal((i + 1) as nat))
    }
}

/// A stand-in for the refinement model: it numbers variations of the prefix.
#[derive(Clone, Copy, Debug)]
pub struct StubLlm;

impl StubLlm {
    /// The stub model.
    pub fn new() -> (r: Self) {
        StubLlm
    }

    /// The refined suggestions for `prefix`, at most `max_candidates` of them.
    pub fn refine(&self, prefix: &str, max_candidates: usize) -> (r: Vec<String>)
        ensures
            views(r@) == refined_suggestions(prefix@, max_candidates as nat),
    {
        refine_candidates(prefix, max_candidates)
    }
}

/// The refined suggestions that the stub model gives for `prefix`.
fn refine_candidates(prefix: &str, max_candidates: usize) -> (r: Vec<String>)
    ensures
        views(r@) == refined_suggestions(prefix@, max_candidates as nat),
{
    let chars = chars_of(prefix);
    let k = trim_end_len(&chars);
    let j = trim_start_len(&chars, k);
    let trimmed = string_from_range(&chars, j, k);
    let mut r: Vec<String> = Vec::new();
    if j == k {
        assert(views(r@) =~= refined_suggestions(prefix@, max_candidates as nat));
        return r;
    }
    let label = " \u{b7} refined option ";
    proof {
        reveal_strlit(" \u{b7} refined option ");
        assert(label@ =~= refined_label());
    }
    let ghost t = trim(prefix@);
    let mut i: usize = 0;
    while i < max_candidates
        invariant
            i <= max_candidates,
            trimmed@ == t,
            t.len() > 0,
            label@ == refined_label(),
            views(r@) == Seq::new(i as nat, |n: int| t + refined_label() + decimal((n + 1) as nat)),
        decreases max_candidates - i,
    {
        let mut s = concat_str(trimmed.as_str(), label);
        push_decimal(&mut s, (i + 1) as u64);
        let ghost before = r@;
        assert(s@ == t + refined_label() + decimal((i + 1) as nat));
        r.push(s);
        assert(views(r@) =~= views(before).push(s@));
        assert(views(r@) =~= Seq::new(
            (i + 1) as nat,
            |n: int| t + refined_label() + decimal((n + 1) as nat),
        ));
        i += 1;
    }
    r
}

} // verus!
