//! Instant suggestions: completions computed at once from the prefix.
use vstd::prelude::*;

use crate::ipc::protocol::CompleteRequest;
use crate::text::{chars_of, concat_str, str_equal, string_from_range, trim_end, trim_end_len, views};

verus! {

/// The text after the last space of `p`, or all of `p` when it has no space.
pub open spec fn last_word(p: Seq<char>) -> Seq<char>
    decreases p.len(),
{
    if p.len() == 0 {
        p
    } else if p.last() == ' ' {
        seq![]
    } else {
        last_word(p.drop_last()).push(p.last())
    }
}

/// Law: the word looked up is the text after the last space: it holds no
/// space, it ends `p`, the character before it (if any) is a space, and it is
/// all of `p` when `p` has no space.
pub proof fn lemma_last_word(p: Seq<char>)
    ensures
        !last_word(p).contains(' '),
        last_word(p).len() <= p.len(),
        p.skip(p.len() - last_word(p).len()) == last_word(p),
        last_word(p).len() < p.len() ==> p[p.len() - last_word(p).len() - 1] == ' ',
        !p.contains(' ') ==> last_word(p) == p,
    decreases p.len(),
{
    if p.len() > 0 {
        let q = p.drop_last();
        lemma_last_word(q);
        let w = last_word(q);
        if p.last() == ' ' {
            assert(p.skip(p.len() as int) =~= Seq::<char>::empty());
            assert(p.contains(' '));
        } else {
            let lw = w.push(p.last());
            assert(last_word(p) == lw);
            assert forall|i: int| 0 <= i < lw.len() implies lw[i] != ' ' by {
                if i < w.len() {
                    assert(lw[i] == w[i]);
                    if w[i] == ' ' {
                        assert(w.contains(' '));
                    }
                }
            }
            assert(p.skip(p.len() - lw.len()) =~= q.skip(q.len() - w.len()).push(p.last()));
            if lw.len() < p.len() {
                assert(p[p.len() - lw.len() - 1] == q[q.len() - w.len() - 1]);
            }
            if !p.contains(' ') {
                assert forall|i: int| 0 <= i < q.len() implies q[i] != ' ' by {
                    assert(q[i] == p[i]);
                    if q[i] == ' ' {
                        assert(p.contains(' '));
                    }
                }
                assert(!q.contains(' '));
                assert(p == q.push(p.last()));
            }
        }
    }
}

/// The completion text that follows `word`, ending in `suffix`.
pub open spec fn suffix_for(word: Seq<char>, suffix: Seq<char>) -> Seq<char> {
    if word.len() == 0 {
        if suffix.len() == 0 {
            seq!['\u{2026}']
        } else {
            suffix
        }
    } else if word == seq!['h', 'e', 'l'] || word == seq!['h', 'e', 'l', 'l'] || word == seq![
        'h',
        'e',
        'l',
        'l',
        'o',
    ] {
        seq!['l', 'o'] + suffix
    } else if word == seq!['t', 'h', 'a', 'n'] || word == seq!['t', 'h', 'a', 'n', 'k'] {
        seq!['k'] + suffix
    } else {
        suffix
    }
}

/// The instant suggestions for a prefix, at most `max` of them: the prefix
/// without trailing whitespace completed plainly, then with " more", then
/// with " text"; none when that prefix is empty.
pub open spec fn instant_suggestions(prefix: Seq<char>, max: nat) -> Seq<Seq<char>> {
    let p = trim_end(prefix);
    if p.len() == 0 {
        seq![]
    } else {
        let w = last_word(p);
        let all = seq![
            p + suffix_for(w, seq![]),
            p + suffix_for(w, seq![' ', 'm', 'o', 'r', 'e']),
            p + suffix_for(w, seq![' ', 't', 'e', 'x', 't']),
        ];
        if max < 3 {
            all.take(max as int)
        } else {
            all
        }
    }
}

/// Law: there are at most `max` instant suggestions, none for a blank
/// prefix, and each extends the prefix without its trailing whitespace.
pub proof fn lemma_instant_extends_prefix(prefix: Seq<char>, max: nat)
    ensures
        instant_suggestions(prefix, max).len() <= max,
        trim_end(prefix).len() == 0 ==> instant_suggestions(prefix, max).len() == 0,
        trim_end(prefix).len() > 0 && max > 0 ==> instant_suggestions(prefix, max).len() > 0,
        forall|i: int|
            0 <= i < instant_suggestions(prefix, max).len() ==> (#[trigger] instant_suggestions(
                prefix,
                max,
            )[i]).take(trim_end(prefix).len() as int) == trim_end(prefix),
{
    let p = trim_end(prefix);
    let s = instant_suggestions(prefix, max);
    assert forall|i: int| 0 <= i < s.len() implies (#[trigger] s[i]).take(p.len() as int) == p by {
        let w = last_word(p);
        let all = seq![
            p + suffix_for(w, seq![]),
            p + suffix_for(w, seq![' ', 'm', 'o', 'r', 'e']),
            p + suffix_for(w, seq![' ', 't', 'e', 'x', 't']),
        ];
        assert(s[i] == all[i]);
        assert(all[i].take(p.len() as int) =~= p);
    }
}

/// Suggests completions from the prefix alone.
#[derive(Clone, Copy, Debug)]
pub struct InstantEngine {
    max_candidates: usize,
}

impl InstantEngine {
    /// The most suggestions that one request receives.
    pub closed spec fn max_candidates(&self) -> nat {
        self.max_candidates as nat
    }

    /// An engine that gives at most `max_candidates` suggestions.
    pub fn new(max_candidates: usize) -> (r: Self)
        ensures
            r.max_candidates() == max_candidates,
    {
        Self { max_candidates }
    }

    /// The instant suggestions for the request's prefix.
    pub fn suggest(&self, request: &CompleteRequest) -> (r: Vec<String>)
        ensures
            views(r@) == instant_suggestions(request.prefix@, self.max_candidates()),
    {
        let chars = chars_of(request.prefix.as_str());
        let k = trim_end_len(&chars);
        if k == 0 {
            let r: Vec<String> = Vec::new();
            assert(views(r@) =~= Seq::<Seq<char>>::empty());
            return r;
        }
        let ghost p = chars@.take(k as int);
        let mut j = k;
        assert(chars@.subrange(j as int, k as int) =~= Seq::<char>::empty());
        while j > 0 && chars[j - 1] != ' '
            invariant
                j <= k <= chars.len(),
                p == chars@.take(k as int),
                last_word(p) == last_word(chars@.take(j as int)) + chars@.subrange(
                    j as int,
                    k as int,
                ),
            decreases j,
        {
            assert(chars@.take(j as int).drop_last() == chars@.take(j - 1));
            assert(chars@.take(j as int).last() == chars@[j - 1]);
            assert(chars@.subrange(j - 1, k as int) == seq![chars@[j - 1]] + chars@.subrange(
                j as int,
                k as int,
            ));
            j -= 1;
        }
        assert(last_word(chars@.take(j as int)) =~= Seq::<char>::empty()) by {
            if j > 0 {
                assert(chars@.take(j as int).last() == chars@[j - 1]);
            }
        }
        let word = string_from_range(&chars, j, k);
        let prefix = string_from_range(&chars, 0, k);
        assert(chars@.subrange(0, k as int) == p);
        let s1 = suggest_suffix(word.as_str(), "");
        let s2 = suggest_suffix(word.as_str(), " more");
        let s3 = suggest_suffix(word.as_str(), " text");
        proof {
            reveal_strlit("");
            reveal_strlit(" more");
            reveal_strlit(" text");
            assert(""@ =~= Seq::<char>::empty());
            assert(" more"@ =~= seq![' ', 'm', 'o', 'r', 'e']);
            assert(" text"@ =~= seq![' ', 't', 'e', 'x', 't']);
        }
        let mut candidates: Vec<String> = Vec::new();
        candidates.push(concat_str(prefix.as_str(), s1.as_str()));
        candidates.push(concat_str(prefix.as_str(), s2.as_str()));
        candidates.push(concat_str(prefix.as_str(), s3.as_str()));
        candidates.truncate(self.max_candidates);
        assert(views(candidates@) =~= instant_suggestions(request.prefix@, self.max_candidates()));
        candidates
    }
}

/// The completion text that follows `word`, ending in `suffix`.
pub fn suggest_suffix(word: &str, suffix: &str) -> (r: String)
    ensures
        r@ == suffix_for(word@, suffix@),
{
    let w = chars_of(word);
    if w.len() == 0 {
        if suffix.is_empty() {
            let r = "\u{2026}".to_owned();
            proof {
                reveal_strlit("\u{2026}");
                assert(r@ =~= seq!['\u{2026}']);
            }
            return r;
        } else {
            return suffix.to_owned();
        }
    }
    proof {
        reveal_strlit("hel");
        reveal_strlit("hell");
        reveal_strlit("hello");
        reveal_strlit("than");
        reveal_strlit("thank");
        reveal_strlit("lo");
        reveal_strlit("k");
        assert("hel"@ =~= seq!['h', 'e', 'l']);
        assert("hell"@ =~= seq!['h', 'e', 'l', 'l']);
        assert("hello"@ =~= seq!['h', 'e', 'l', 'l', 'o']);
        assert("than"@ =~= seq!['t', 'h', 'a', 'n']);
        assert("thank"@ =~= seq!['t', 'h', 'a', 'n', 'k']);
        assert("lo"@ =~= seq!['l', 'o']);
        assert("k"@ =~= seq!['k']);
    }
    if str_equal(word, "hel") || str_equal(word, "hell") || str_equal(word, "hello") {
        concat_str("lo", suffix)
    } else if str_equal(word, "than") || str_equal(word, "thank") {
        concat_str("k", suffix)
    } else {
        suffix.to_owned()
    }
}

} // verus!
