//! Ranking and merging of instant and refined suggestions.
use vstd::prelude::*;

use crate::text::{byte_len, char_views, chars_equal, chars_of, split_words, views, words};

verus! {

broadcast use vstd::seq_lib::group_filter_ensures;

/// The lowercase form of a text, as `str::to_lowercase` gives it.
pub uninterp spec fn lowercase(s: Seq<char>) -> Seq<char>;

/// `str::to_lowercase`: the Unicode lowercase mapping of every character.
#[verifier::external_body]
fn to_lowercase(s: &str) -> (r: String)
    ensures
        r@ == lowercase(s@),
{
    s.to_lowercase()
}

/// `p` is a prefix of `s`.
pub open spec fn is_prefix(p: Seq<char>, s: Seq<char>) -> bool {
    p.len() <= s.len() && s.take(p.len() as int) == p
}

/// A refined suggestion is kept when it starts with the prefix, ignoring case.
pub open spec fn matches_prefix(c: Seq<char>, prefix: Seq<char>) -> bool {
    is_prefix(lowercase(prefix), lowercase(c))
}

/// Some element before position `n` of `s` has the lowercase form `key`.
pub open spec fn key_before(s: Seq<Seq<char>>, n: int, key: Seq<char>) -> bool {
    exists|i: int| 0 <= i < n && lowercase(#[trigger] s[i]) == key
}

/// The elements of `s` whose lowercase form no earlier element has, in order.
pub open spec fn first_by_lowercase(s: Seq<Seq<char>>) -> Seq<Seq<char>>
    decreases s.len(),
{
    if s.len() == 0 {
        seq![]
    } else {
        let d = first_by_lowercase(s.drop_last());
        if key_before(s, s.len() - 1, lowercase(s.last())) {
            d
        } else {
            d.push(s.last())
        }
    }
}

/// The refined suggestions that match the prefix, then the instant ones,
/// without case-insensitive repeats: the merge before ranking.
pub open spec fn merged(
    instant: Seq<Seq<char>>,
    refined: Seq<Seq<char>>,
    prefix: Seq<char>,
) -> Seq<Seq<char>> {
    first_by_lowercase(refined.filter(|c: Seq<char>| matches_prefix(c, prefix)) + instant)
}

/// Shorter texts (in bytes) come first.
pub open spec fn sorted_by_len(s: Seq<Seq<char>>) -> bool {
    forall|i: int, j: int| 0 <= i < j < s.len() ==> byte_len(s[i]) <= byte_len(s[j])
}

/// The texts of `s` that are `n` bytes long, in order.
pub open spec fn len_class(s: Seq<Seq<char>>, n: nat) -> Seq<Seq<char>> {
    s.filter(|c: Seq<char>| byte_len(c) == n)
}

/// `out` is `inp` sorted by byte length, texts of equal length keeping their order.
pub open spec fn stable_sort_by_len(out: Seq<Seq<char>>, inp: Seq<Seq<char>>) -> bool {
    &&& sorted_by_len(out)
    &&& forall|n: nat| #[trigger] len_class(out, n) == len_class(inp, n)
}

/// What `merge_and_rank` gives: the merge, stably sorted by byte length.
pub open spec fn ranked(
    out: Seq<Seq<char>>,
    instant: Seq<Seq<char>>,
    refined: Seq<Seq<char>>,
    prefix: Seq<char>,
) -> bool {
    stable_sort_by_len(out, merged(instant, refined, prefix))
}

/// The lowercase forms present in `first_by_lowercase(s)` are those present in `s`.
pub proof fn lemma_first_keys(s: Seq<Seq<char>>, key: Seq<char>)
    ensures
        key_before(s, s.len() as int, key) == key_before(
            first_by_lowercase(s),
            first_by_lowercase(s).len() as int,
            key,
        ),
    decreases s.len(),
{
    if s.len() > 0 {
        let p = s.drop_last();
        let d = first_by_lowercase(p);
        lemma_first_keys(p, key);
        lemma_first_keys(p, lowercase(s.last()));
        let ds = first_by_lowercase(s);
        if key_before(s, s.len() as int, key) {
            let i = choose|i: int| 0 <= i < s.len() && lowercase(#[trigger] s[i]) == key;
            if i < s.len() - 1 {
                assert(p[i] == s[i]);
                assert(key_before(p, p.len() as int, key));
                let j = choose|j: int| 0 <= j < d.len() && lowercase(#[trigger] d[j]) == key;
                assert(ds[j] == d[j]);
            } else if key_before(s, s.len() - 1, lowercase(s.last())) {
                let i2 = choose|i2: int|
                    0 <= i2 < s.len() - 1 && lowercase(#[trigger] s[i2]) == lowercase(s.last());
                assert(p[i2] == s[i2]);
                assert(key_before(p, p.len() as int, key));
                let j = choose|j: int| 0 <= j < d.len() && lowercase(#[trigger] d[j]) == key;
                assert(ds[j] == d[j]);
            } else {
                assert(ds[d.len() as int] == s.last());
            }
        }
        if key_before(ds, ds.len() as int, key) {
            let j = choose|j: int| 0 <= j < ds.len() && lowercase(#[trigger] ds[j]) == key;
            if j < d.len() {
                assert(ds[j] == d[j]);
                assert(key_before(d, d.len() as int, key));
                let i = choose|i: int| 0 <= i < p.len() && lowercase(#[trigger] p[i]) == key;
                assert(s[i] == p[i]);
            } else {
                assert(s[s.len() - 1] == s.last());
            }
        }
    }
}

/// No two elements share a lowercase form.
pub open spec fn keys_distinct(s: Seq<Seq<char>>) -> bool {
    forall|i: int, j: int| 0 <= i < j < s.len() ==> lowercase(s[i]) != lowercase(s[j])
}

/// `first_by_lowercase` keeps elements of its input, with distinct lowercase forms.
pub proof fn lemma_first_distinct(s: Seq<Seq<char>>)
    ensures
        keys_distinct(first_by_lowercase(s)),
        forall|i: int|
            0 <= i < first_by_lowercase(s).len() ==> s.contains(
                #[trigger] first_by_lowercase(s)[i],
            ),
    decreases s.len(),
{
    if s.len() > 0 {
        let p = s.drop_last();
        let d = first_by_lowercase(p);
        lemma_first_distinct(p);
        assert forall|i: int| 0 <= i < d.len() implies s.contains(#[trigger] d[i]) by {
            let m = choose|m: int| 0 <= m < p.len() && p[m] == d[i];
            assert(s[m] == p[m]);
        }
        if !key_before(s, s.len() - 1, lowercase(s.last())) {
            let ds = first_by_lowercase(s);
            lemma_first_keys(p, lowercase(s.last()));
            assert(!key_before(p, p.len() as int, lowercase(s.last()))) by {
                if key_before(p, p.len() as int, lowercase(s.last())) {
                    let m = choose|m: int| 0 <= m < p.len() && lowercase(#[trigger] p[m]) == lowercase(s.last());
                    assert(s[m] == p[m]);
                }
            }
            assert forall|i: int, j: int| 0 <= i < j < ds.len() implies lowercase(ds[i])
                != lowercase(ds[j]) by {
                assert(ds[i] == d[i]);
                if j < d.len() {
                    assert(ds[j] == d[j]);
                } else {
                    assert(ds[j] == s.last());
                }
            }
            assert forall|i: int| 0 <= i < ds.len() implies s.contains(#[trigger] ds[i]) by {
                if i < d.len() {
                    assert(ds[i] == d[i]);
                } else {
                    assert(s[s.len() - 1] == ds[i]);
                }
            }
        }
    }
}

/// Filtering keeps lowercase forms distinct.
pub proof fn lemma_filter_keys_distinct(s: Seq<Seq<char>>, pred: spec_fn(Seq<char>) -> bool)
    requires
        keys_distinct(s),
    ensures
        keys_distinct(s.filter(pred)),
    decreases s.len(),
{
    if s.len() > 0 {
        let p = s.drop_last();
        assert(s == p.push(s.last()));
        p.lemma_filter_push(s.last(), pred);
        lemma_filter_keys_distinct(p, pred);
        let f = p.filter(pred);
        if pred(s.last()) {
            let g = f.push(s.last());
            assert forall|i: int, j: int| 0 <= i < j < g.len() implies lowercase(g[i]) != lowercase(
                g[j],
            ) by {
                assert(g[i] == f[i]);
                if j < f.len() {
                    assert(g[j] == f[j]);
                } else {
                    assert(f.contains(f[i]));
                    p.lemma_filter_contains_rev(pred, f[i]);
                    let m = choose|m: int| 0 <= m < p.len() && p[m] == f[i];
                    assert(s[m] == p[m]);
                }
            }
        }
    }
}

/// Two elements of `s` at different positions that both pass the filter
/// have different lowercase forms when the filtered sequence's are distinct.
pub proof fn lemma_filter_pair(s: Seq<Seq<char>>, pred: spec_fn(Seq<char>) -> bool, i: int, j: int)
    requires
        keys_distinct(s.filter(pred)),
        0 <= i < j < s.len(),
        pred(s[i]),
        pred(s[j]),
    ensures
        lowercase(s[i]) != lowercase(s[j]),
    decreases s.len(),
{
    let p = s.drop_last();
    assert(s == p.push(s.last()));
    p.lemma_filter_push(s.last(), pred);
    let f = p.filter(pred);
    if j < s.len() - 1 {
        assert(p[i] == s[i] && p[j] == s[j]);
        if pred(s.last()) {
            assert forall|a: int, b: int| 0 <= a < b < f.len() implies lowercase(f[a]) != lowercase(
                f[b],
            ) by {
                assert(s.filter(pred)[a] == f[a]);
                assert(s.filter(pred)[b] == f[b]);
            }
        }
        lemma_filter_pair(p, pred, i, j);
    } else {
        assert(p[i] == s[i]);
        p.lemma_filter_contains(pred, i);
        let m = choose|m: int| 0 <= m < f.len() && f[m] == s[i];
        let g = s.filter(pred);
        assert(g[m] == f[m]);
        assert(g[f.len() as int] == s[j]);
    }
}

/// Law: the ranked suggestions have pairwise different lowercase forms, and
/// each is a refined suggestion that starts with the prefix (ignoring case)
/// or an instant suggestion.
pub proof fn lemma_ranked_distinct(
    out: Seq<Seq<char>>,
    instant: Seq<Seq<char>>,
    refined: Seq<Seq<char>>,
    prefix: Seq<char>,
)
    requires
        ranked(out, instant, refined, prefix),
    ensures
        keys_distinct(out),
        forall|i: int|
            0 <= i < out.len() ==> (refined.contains(#[trigger] out[i]) && matches_prefix(
                out[i],
                prefix,
            )) || instant.contains(out[i]),
{
    let pm = |c: Seq<char>| matches_prefix(c, prefix);
    let front = refined.filter(pm);
    let m = merged(instant, refined, prefix);
    lemma_first_distinct(front + instant);
    assert forall|i: int| 0 <= i < out.len() implies m.contains(#[trigger] out[i]) by {
        let n = byte_len(out[i]);
        let lp = |c: Seq<char>| byte_len(c) == n;
        out.lemma_filter_contains(lp, i);
        assert(len_class(out, n) == len_class(m, n));
        m.lemma_filter_contains_rev(lp, out[i]);
    }
    assert forall|i: int|
        0 <= i < out.len() implies (refined.contains(#[trigger] out[i]) && matches_prefix(
        out[i],
        prefix,
    )) || instant.contains(out[i]) by {
        let a = choose|a: int| 0 <= a < m.len() && m[a] == out[i];
        let c = front + instant;
        let b = choose|b: int| 0 <= b < c.len() && c[b] == m[a];
        if b < front.len() {
            assert(front.contains(front[b]));
            refined.lemma_filter_contains_rev(pm, front[b]);
            assert(pm(front[b]));
        } else {
            assert(instant[b - front.len()] == c[b]);
        }
    }
    assert forall|i: int, j: int| 0 <= i < j < out.len() implies lowercase(out[i]) != lowercase(
        out[j],
    ) by {
        let ni = byte_len(out[i]);
        let nj = byte_len(out[j]);
        if ni == nj {
            let lp = |c: Seq<char>| byte_len(c) == ni;
            lemma_filter_keys_distinct(m, lp);
            assert(len_class(out, ni) == len_class(m, ni));
            lemma_filter_pair(out, lp, i, j);
        } else {
            let a = choose|a: int| 0 <= a < m.len() && m[a] == out[i];
            let b = choose|b: int| 0 <= b < m.len() && m[b] == out[j];
            assert(a != b);
            if a < b {
                assert(lowercase(m[a]) != lowercase(m[b]));
            } else {
                assert(lowercase(m[b]) != lowercase(m[a]));
            }
        }
    }
}

/// Whether `p` is a prefix of `s`.
fn starts_with(s: &Vec<char>, p: &Vec<char>) -> (r: bool)
    ensures
        r == is_prefix(p@, s@),
{
    if p.len() > s.len() {
        return false;
    }
    let mut i: usize = 0;
    while i < p.len()
        invariant
            i <= p.len() <= s.len(),
            forall|j: int| 0 <= j < i ==> s@[j] == p@[j],
        decreases p.len() - i,
    {
        if s[i] != p[i] {
            assert(s@.take(p.len() as int)[i as int] != p@[i as int]);
            return false;
        }
        i += 1;
    }
    assert(s@.take(p.len() as int) =~= p@);
    true
}

/// Whether one of `seen` holds the text `key`.
fn contains_text(seen: &Vec<String>, key: &String) -> (r: bool)
    ensures
        r == views(seen@).contains(key@),
{
    let mut i: usize = 0;
    while i < seen.len()
        invariant
            i <= seen.len(),
            forall|j: int| 0 <= j < i ==> views(seen@)[j] != key@,
        decreases seen.len() - i,
    {
        if seen[i] == *key {
            assert(views(seen@)[i as int] == key@);
            return true;
        }
        i += 1;
    }
    false
}

/// The elements of `s` that no earlier element equals, in order.
pub open spec fn distinct_in_order(s: Seq<Seq<char>>) -> Seq<Seq<char>>
    decreases s.len(),
{
    if s.len() == 0 {
        seq![]
    } else {
        let d = distinct_in_order(s.drop_last());
        if s.drop_last().contains(s.last()) {
            d
        } else {
            d.push(s.last())
        }
    }
}

/// The number of distinct words of `candidate` that are also words of `context`.
pub open spec fn shared_words(candidate: Seq<char>, context: Seq<char>) -> nat {
    distinct_in_order(words(candidate)).filter(|w: Seq<char>| words(context).contains(w)).len()
}

/// `distinct_in_order` keeps each element once: no repeats, the same elements.
pub proof fn lemma_distinct_in_order(s: Seq<Seq<char>>)
    ensures
        distinct_in_order(s).no_duplicates(),
        distinct_in_order(s).to_set() == s.to_set(),
    decreases s.len(),
{
    if s.len() > 0 {
        let p = s.drop_last();
        let x = s.last();
        let d = distinct_in_order(p);
        lemma_distinct_in_order(p);
        assert(s == p.push(x));
        p.lemma_push_to_set_commute(x);
        if p.contains(x) {
            assert(p.to_set().contains(x));
            assert(p.to_set().insert(x) =~= p.to_set());
        } else {
            d.lemma_push_to_set_commute(x);
            assert(!d.to_set().contains(x));
            let n = d.push(x);
            assert forall|i: int, j: int| 0 <= i < n.len() && 0 <= j < n.len() && i != j implies n[i]
                != n[j] by {
                if i < d.len() && j < d.len() {
                    assert(n[i] == d[i] && n[j] == d[j]);
                } else if i < d.len() {
                    assert(n[i] == d[i]);
                    assert(d.to_set().contains(d[i]));
                } else {
                    assert(n[j] == d[j]);
                    assert(d.to_set().contains(d[j]));
                }
            }
        }
    }
}

/// Filtering keeps a sequence free of repeats, and filters its set.
pub proof fn lemma_filter_distinct(s: Seq<Seq<char>>, pred: spec_fn(Seq<char>) -> bool)
    requires
        s.no_duplicates(),
    ensures
        s.filter(pred).no_duplicates(),
        s.filter(pred).to_set() == s.to_set().filter(pred),
    decreases s.len(),
{
    if s.len() > 0 {
        let p = s.drop_last();
        let x = s.last();
        assert(s == p.push(x));
        assert forall|i: int, j: int| 0 <= i < p.len() && 0 <= j < p.len() && i != j implies p[i]
            != p[j] by {
            assert(p[i] == s[i] && p[j] == s[j]);
        }
        lemma_filter_distinct(p, pred);
        p.lemma_filter_push(x, pred);
        p.lemma_push_to_set_commute(x);
        let f = p.filter(pred);
        if pred(x) {
            f.lemma_push_to_set_commute(x);
            assert(!p.contains(x)) by {
                if p.contains(x) {
                    let k = choose|k: int| 0 <= k < p.len() && p[k] == x;
                    assert(s[k] == s[s.len() - 1]);
                }
            }
            assert(!f.contains(x)) by {
                if f.contains(x) {
                    p.lemma_filter_contains_rev(pred, x);
                }
            }
            let n = f.push(x);
            assert forall|i: int, j: int| 0 <= i < n.len() && 0 <= j < n.len() && i != j implies n[i]
                != n[j] by {
                if i < f.len() && j < f.len() {
                    assert(n[i] == f[i] && n[j] == f[j]);
                } else if i < f.len() {
                    assert(n[i] == f[i]);
                    assert(f.contains(f[i]));
                } else {
                    assert(n[j] == f[j]);
                    assert(f.contains(f[j]));
                }
            }
            assert(n.to_set() =~= s.to_set().filter(pred));
        } else {
            assert(f.to_set() =~= s.to_set().filter(pred));
        }
    }
}

/// Law: the shared-word count is the number of distinct words that the
/// candidate and the context have in common: the size of the set of words of
/// the candidate that are words of the context. So it is at most the number
/// of distinct words of the candidate, and repeating a word changes nothing.
pub proof fn lemma_shared_words_set(candidate: Seq<char>, context: Seq<char>)
    ensures
        shared_words(candidate, context) == words(candidate).to_set().filter(
            |w: Seq<char>| words(context).contains(w),
        ).len(),
        shared_words(candidate, context) <= words(candidate).to_set().len(),
{
    let pred = |w: Seq<char>| words(context).contains(w);
    let d = distinct_in_order(words(candidate));
    lemma_distinct_in_order(words(candidate));
    lemma_filter_distinct(d, pred);
    d.filter(pred).unique_seq_to_set();
    d.unique_seq_to_set();
    d.lemma_filter_len(pred);
}

/// The integer measurements that a candidate's score combines: whether it
/// starts with the prefix (ignoring case), its length in bytes, and how many
/// distinct words it shares with the context.
#[derive(Debug, Clone, Copy, PartialEq, Eq)]
pub struct ScoreFactors {
    pub prefix_match: bool,
    pub byte_len: usize,
    pub shared_words: usize,
}

/// Whether `w` is among the first `hi` words of `ws`.
fn contains_word(ws: &Vec<Vec<char>>, hi: usize, w: &Vec<char>) -> (r: bool)
    requires
        hi <= ws@.len(),
    ensures
        r == char_views(ws@).take(hi as int).contains(w@),
{
    let ghost s = char_views(ws@).take(hi as int);
    let mut j: usize = 0;
    while j < hi
        invariant
            j <= hi <= ws@.len(),
            s == char_views(ws@).take(hi as int),
            forall|a: int| 0 <= a < j ==> s[a] != w@,
        decreases hi - j,
    {
        if chars_equal(&ws[j], w) {
            assert(s[j as int] == w@);
            return true;
        }
        j += 1;
    }
    false
}

/// The measurements that a candidate's score is made of.
pub fn score_factors(candidate: &str, prefix: &str, context: &str) -> (r: ScoreFactors)
    requires
        byte_len(candidate@) <= usize::MAX,
    ensures
        r.prefix_match == matches_prefix(candidate@, prefix@),
        r.byte_len == byte_len(candidate@),
        r.shared_words == shared_words(candidate@, context@),
{
    let lower_candidate = chars_of(to_lowercase(candidate).as_str());
    let lower_prefix = chars_of(to_lowercase(prefix).as_str());
    let prefix_match = starts_with(&lower_candidate, &lower_prefix);
    let cw = split_words(&chars_of(candidate));
    let xw = split_words(&chars_of(context));
    let ghost cs = char_views(cw@);
    let ghost pred = |w: Seq<char>| words(context@).contains(w);
    let mut count: usize = 0;
    let mut i: usize = 0;
    while i < cw.len()
        invariant
            i <= cw@.len(),
            cs == char_views(cw@),
            cs == words(candidate@),
            char_views(xw@) == words(context@),
            pred == (|w: Seq<char>| words(context@).contains(w)),
            count == distinct_in_order(cs.take(i as int)).filter(pred).len(),
            count <= i,
        decreases cw.len() - i,
    {
        let earlier = contains_word(&cw, i, &cw[i]);
        let in_context = contains_word(&xw, xw.len(), &cw[i]);
        proof {
            let pre = cs.take(i as int);
            let post = cs.take(i + 1);
            assert(post.drop_last() == pre);
            assert(post.last() == cw@[i as int]@);
            assert(char_views(xw@).take(xw@.len() as int) == char_views(xw@));
            distinct_in_order(pre).lemma_filter_push(cw@[i as int]@, pred);
            distinct_in_order(pre).lemma_filter_len(pred);
        }
        if !earlier && in_context {
            count += 1;
        }
        i += 1;
    }
    assert(cs.take(cw@.len() as int) == cs);
    ScoreFactors { prefix_match, byte_len: candidate.len(), shared_words: count }
}

/// Ranking and merging of instant and refined suggestions.
pub struct Ranker;

impl Ranker {
    /// Merge instant and refined suggestions: the refined ones that start
    /// with the prefix (ignoring case) first, then the instant ones; drop
    /// every suggestion whose lowercase form an earlier one has; then sort by
    /// length in bytes, shorter first, keeping the order of equal lengths.
    pub fn merge_and_rank(instant: Vec<String>, refined: Vec<String>, prefix: &str) -> (r: Vec<
        String,
    >)
        requires
            forall|i: int| 0 <= i < instant@.len() ==> byte_len(#[trigger] instant@[i]@) <= usize::MAX,
            forall|i: int| 0 <= i < refined@.len() ==> byte_len(#[trigger] refined@[i]@) <= usize::MAX,
        ensures
            ranked(views(r@), views(instant@), views(refined@), prefix@),
    {
        let ghost ins = views(instant@);
        let ghost refs = views(refined@);
        let ghost pred = |c: Seq<char>| matches_prefix(c, prefix@);
        let lower_prefix = chars_of(to_lowercase(prefix).as_str());
        let mut candidates: Vec<String> = Vec::new();
        let mut seen: Vec<String> = Vec::new();
        let mut j: usize = 0;
        while j < refined.len()
            invariant
                j <= refined.len(),
                refs == views(refined@),
                pred == (|c: Seq<char>| matches_prefix(c, prefix@)),
                lower_prefix@ == lowercase(prefix@),
                views(candidates@) == first_by_lowercase(refs.take(j as int).filter(pred)),
                lowercase_keys(views(seen@), views(candidates@)),
                forall|i: int|
                    0 <= i < candidates@.len() ==> byte_len(#[trigger] candidates@[i]@)
                        <= usize::MAX,
                forall|i: int| 0 <= i < refined@.len() ==> byte_len(#[trigger] refined@[i]@) <= usize::MAX,
            decreases refined.len() - j,
        {
            let candidate = refined[j].clone();
            let lower = to_lowercase(candidate.as_str());
            let ghost f = refs.take(j as int).filter(pred);
            proof {
                assert(refs.take(j + 1) == refs.take(j as int).push(candidate@));
                refs.take(j as int).lemma_filter_push(candidate@, pred);
            }
            if starts_with(&chars_of(lower.as_str()), &lower_prefix) {
                proof {
                    lemma_first_push(f, candidate@, views(seen@));
                }
                admit_candidate(&mut candidates, &mut seen, candidate, lower);
            }
            j += 1;
        }
        assert(refs.take(refined.len() as int) == refs);
        let ghost front = refs.filter(pred);
        let mut k: usize = 0;
        assert(front + ins.take(0) == front);
        while k < instant.len()
            invariant
                k <= instant.len(),
                ins == views(instant@),
                views(candidates@) == first_by_lowercase(front + ins.take(k as int)),
                lowercase_keys(views(seen@), views(candidates@)),
                forall|i: int|
                    0 <= i < candidates@.len() ==> byte_len(#[trigger] candidates@[i]@)
                        <= usize::MAX,
                forall|i: int| 0 <= i < instant@.len() ==> byte_len(#[trigger] instant@[i]@) <= usize::MAX,
            decreases instant.len() - k,
        {
            let candidate = instant[k].clone();
            let lower = to_lowercase(candidate.as_str());
            proof {
                assert(front + ins.take(k + 1) == (front + ins.take(k as int)).push(candidate@));
                lemma_first_push(front + ins.take(k as int), candidate@, views(seen@));
            }
            admit_candidate(&mut candidates, &mut seen, candidate, lower);
            k += 1;
        }
        assert(ins.take(instant.len() as int) == ins);
        let r = sort_by_byte_len(&candidates);
        r
    }
}

/// `keys` holds the lowercase forms of `cands`, in order.
pub open spec fn lowercase_keys(keys: Seq<Seq<char>>, cands: Seq<Seq<char>>) -> bool {
    &&& keys.len() == cands.len()
    &&& forall|i: int| 0 <= i < keys.len() ==> keys[i] == lowercase(#[trigger] cands[i])
}

/// Adding `x` to a sequence: `first_by_lowercase` gains `x` exactly when no
/// lowercase form it had already is that of `x`.
pub proof fn lemma_first_push(f: Seq<Seq<char>>, x: Seq<char>, keys: Seq<Seq<char>>)
    requires
        lowercase_keys(keys, first_by_lowercase(f)),
    ensures
        first_by_lowercase(f.push(x)) == if keys.contains(lowercase(x)) {
            first_by_lowercase(f)
        } else {
            first_by_lowercase(f).push(x)
        },
{
    let fp = f.push(x);
    let key = lowercase(x);
    let d = first_by_lowercase(f);
    assert(fp.drop_last() == f);
    assert(fp.last() == x);
    lemma_first_keys(f, key);
    assert(key_before(fp, fp.len() - 1, key) == key_before(f, f.len() as int, key)) by {
        if key_before(f, f.len() as int, key) {
            let i = choose|i: int| 0 <= i < f.len() && lowercase(#[trigger] f[i]) == key;
            assert(fp[i] == f[i]);
        }
        if key_before(fp, fp.len() - 1, key) {
            let i = choose|i: int| 0 <= i < fp.len() - 1 && lowercase(#[trigger] fp[i]) == key;
            assert(fp[i] == f[i]);
        }
    }
    assert(key_before(d, d.len() as int, key) == keys.contains(key)) by {
        if key_before(d, d.len() as int, key) {
            let i = choose|i: int| 0 <= i < d.len() && lowercase(#[trigger] d[i]) == key;
            assert(keys[i] == key);
        }
        if keys.contains(key) {
            let i = choose|i: int| 0 <= i < keys.len() && keys[i] == key;
            assert(lowercase(d[i]) == key);
        }
    }
}

/// Adds `candidate` to `candidates`, and its lowercase form `lower` to
/// `seen`, unless `seen` holds that form already.
fn admit_candidate(
    candidates: &mut Vec<String>,
    seen: &mut Vec<String>,
    candidate: String,
    lower: String,
)
    requires
        lower@ == lowercase(candidate@),
        lowercase_keys(views(old(seen)@), views(old(candidates)@)),
        byte_len(candidate@) <= usize::MAX,
        forall|i: int|
            0 <= i < old(candidates)@.len() ==> byte_len(#[trigger] old(candidates)@[i]@)
                <= usize::MAX,
    ensures
        lowercase_keys(views(final(seen)@), views(final(candidates)@)),
        views(final(candidates)@) == if views(old(seen)@).contains(lower@) {
            views(old(candidates)@)
        } else {
            views(old(candidates)@).push(candidate@)
        },
        forall|i: int|
            0 <= i < final(candidates)@.len() ==> byte_len(#[trigger] final(candidates)@[i]@)
                <= usize::MAX,
{
    if !contains_text(seen, &lower) {
        let ghost before = candidates@;
        let ghost seen_before = seen@;
        seen.push(lower);
        candidates.push(candidate);
        assert(views(candidates@) =~= views(before).push(candidate@));
        assert(forall|i: int| 0 <= i < before.len() ==> candidates@[i] == before[i]);
        assert(views(seen@) =~= views(seen_before).push(lowercase(candidate@)));
    }
}

/// A sequence whose texts are all longer than `n` bytes has none of length `n`.
pub proof fn lemma_len_class_empty(s: Seq<Seq<char>>, n: nat)
    requires
        forall|i: int| 0 <= i < s.len() ==> byte_len(#[trigger] s[i]) != n,
    ensures
        len_class(s, n) == Seq::<Seq<char>>::empty(),
    decreases s.len(),
{
    if s.len() > 0 {
        let p = s.drop_last();
        assert(s == p.push(s.last()));
        p.lemma_filter_push(s.last(), |c: Seq<char>| byte_len(c) == n);
        lemma_len_class_empty(p, n);
    }
}

/// Inserting `x` where the texts before it are no longer and those after it
/// are longer adds `x` to the end of its length class only.
pub proof fn lemma_len_class_insert(s: Seq<Seq<char>>, p: int, x: Seq<char>, n: nat)
    requires
        0 <= p <= s.len(),
        forall|i: int| 0 <= i < p ==> byte_len(#[trigger] s[i]) <= byte_len(x),
        forall|i: int| p <= i < s.len() ==> byte_len(#[trigger] s[i]) > byte_len(x),
    ensures
        len_class(s.insert(p, x), n) == if n == byte_len(x) {
            len_class(s, n).push(x)
        } else {
            len_class(s, n)
        },
{
    let pred = |c: Seq<char>| byte_len(c) == n;
    let a = s.subrange(0, p);
    let b = s.subrange(p, s.len() as int);
    assert(s == a + b);
    assert(s.insert(p, x) == a.push(x) + b);
    Seq::filter_distributes_over_add(a, b, pred);
    Seq::filter_distributes_over_add(a.push(x), b, pred);
    a.lemma_filter_push(x, pred);
    if n == byte_len(x) {
        assert forall|i: int| 0 <= i < b.len() implies byte_len(#[trigger] b[i]) != n by {
            assert(b[i] == s[p + i]);
        }
        lemma_len_class_empty(b, n);
        assert(len_class(b, n) == Seq::<Seq<char>>::empty());
        assert(len_class(s, n) == a.filter(pred));
    }
}

/// The texts of `v`, stably sorted by length in bytes, shorter first.
fn sort_by_byte_len(v: &Vec<String>) -> (r: Vec<String>)
    requires
        forall|i: int| 0 <= i < v@.len() ==> byte_len(#[trigger] v@[i]@) <= usize::MAX,
    ensures
        stable_sort_by_len(views(r@), views(v@)),
{
    let ghost inp = views(v@);
    let mut out: Vec<String> = Vec::new();
    let mut i: usize = 0;
    while i < v.len()
        invariant
            i <= v.len(),
            inp == views(v@),
            forall|a: int| 0 <= a < v@.len() ==> byte_len(#[trigger] v@[a]@) <= usize::MAX,
            forall|a: int| 0 <= a < out@.len() ==> byte_len(#[trigger] out@[a]@) <= usize::MAX,
            sorted_by_len(views(out@)),
            forall|n: nat| #[trigger] len_class(views(out@), n) == len_class(inp.take(i as int), n),
        decreases v.len() - i,
    {
        let x = v[i].clone();
        let xl = x.as_str().len();
        let mut p: usize = 0;
        while p < out.len() && out[p].as_str().len() <= xl
            invariant
                p <= out@.len(),
                xl == byte_len(x@),
                forall|a: int| 0 <= a < out@.len() ==> byte_len(#[trigger] out@[a]@) <= usize::MAX,
                forall|a: int| 0 <= a < p ==> byte_len(#[trigger] out@[a]@) <= xl,
            decreases out.len() - p,
        {
            p += 1;
        }
        let ghost o = views(out@);
        proof {
            assert forall|a: int| 0 <= a < p implies byte_len(#[trigger] o[a]) <= byte_len(x@) by {
                assert(o[a] == out@[a]@);
            }
            assert forall|a: int| p <= a < o.len() implies byte_len(#[trigger] o[a]) > byte_len(
                x@,
            ) by {
                assert(o[a] == out@[a]@);
                assert(o[p as int] == out@[p as int]@);
            }
            assert forall|n: nat| #[trigger] len_class(o.insert(p as int, x@), n) == len_class(
                inp.take(i + 1),
                n,
            ) by {
                lemma_len_class_insert(o, p as int, x@, n);
                assert(inp.take(i + 1) == inp.take(i as int).push(x@));
                inp.take(i as int).lemma_filter_push(x@, |c: Seq<char>| byte_len(c) == n);
            }
        }
        out.insert(p, x);
        proof {
            assert(views(out@) =~= o.insert(p as int, x@));
            let no = views(out@);
            assert forall|a: int, b: int| 0 <= a < b < no.len() implies byte_len(no[a]) <= byte_len(
                no[b],
            ) by {
                let a0 = if a < p { a } else if a == p { -1 } else { a - 1 };
                let b0 = if b < p { b } else if b == p { -1 } else { b - 1 };
                if a0 >= 0 {
                    assert(no[a] == o[a0]);
                }
                if b0 >= 0 {
                    assert(no[b] == o[b0]);
                }
            }
            assert forall|a: int| 0 <= a < out@.len() implies byte_len(#[trigger] out@[a]@)
                <= usize::MAX by {
                assert(out@[a]@ == no[a]);
            }
        }
        i += 1;
    }
    assert(inp.take(v.len() as int) == inp);
    out
}

} // verus!
