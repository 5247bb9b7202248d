//! Context extraction and management.
use std::collections::VecDeque;
use vstd::prelude::*;

use crate::seqs::{keep_last, lemma_keep_last_push};
use crate::text::{
    chars_of, is_whitespace, is_ws, join, lemma_join_extend_last, lemma_join_push,
    lemma_words_nonempty, push_char, string_from_range, trim_end, trim_end_len, views, words,
};

verus! {

/// The context window size, in tokens, of a context made by `Context::new`.
pub const MAX_CONTEXT_TOKENS: usize = 512;

/// The number of texts that the history keeps.
pub const MAX_HISTORY_ITEMS: usize = 100;

/// `text` with its whitespace runs collapsed to single spaces and no
/// whitespace at either end.
pub open spec fn normalized(text: Seq<char>) -> Seq<char> {
    join(words(text), seq![' '])
}

/// Position `i` of `t` starts a word (or is its end), and the tail of `t`
/// from there is at most `max` characters long.
pub open spec fn tail_fits(t: Seq<char>, i: int, max: nat) -> bool {
    &&& i == t.len() || (!is_ws(t[i]) && (i == 0 || is_ws(t[i - 1])))
    &&& t.len() - i <= max
}

/// A text in normal form: every whitespace character is a single space
/// between two non-whitespace characters.
pub open spec fn is_normal(x: Seq<char>) -> bool {
    forall|i: int|
        0 <= i < x.len() && is_ws(#[trigger] x[i]) ==> {
            &&& x[i] == ' '
            &&& 0 < i < x.len() - 1
            &&& !is_ws(x[i - 1])
            &&& !is_ws(x[i + 1])
        }
}

/// The normalized prefixes of a text: each is in normal form, and it is
/// empty exactly when it has no word.
proof fn lemma_normalized_prefix(s: Seq<char>, k: int)
    requires
        0 <= k <= s.len(),
    ensures
        is_normal(normalized(s.take(k))),
        normalized(s.take(k)).len() > 0 ==> !is_ws(normalized(s.take(k)).last()),
        (normalized(s.take(k)).len() > 0) == (words(s.take(k)).len() > 0),
    decreases k,
{
    if k > 0 {
        lemma_normalized_prefix(s, k - 1);
        let pre = s.take(k - 1);
        let post = s.take(k);
        let c = s[k - 1];
        assert(post.drop_last() == pre);
        assert(post.last() == c);
        let o = normalized(pre);
        if is_ws(c) {
        } else if k >= 2 && !is_ws(s[k - 2]) {
            assert(post[post.len() - 2] == s[k - 2]);
            assert(pre.last() == s[k - 2]);
            lemma_words_nonempty(pre);
            lemma_join_extend_last(words(pre), seq![' '], c);
            let n = o.push(c);
            assert forall|i: int| 0 <= i < n.len() && is_ws(#[trigger] n[i]) implies {
                &&& n[i] == ' '
                &&& 0 < i < n.len() - 1
                &&& !is_ws(n[i - 1])
                &&& !is_ws(n[i + 1])
            } by {
                assert(n[i] == o[i]);
                assert(n[i - 1] == o[i - 1]);
                if i + 1 < o.len() {
                    assert(n[i + 1] == o[i + 1]);
                }
            }
        } else {
            if k >= 2 {
                assert(post[post.len() - 2] == s[k - 2]);
            }
            lemma_join_push(words(pre), seq![' '], seq![c]);
            if words(pre).len() > 0 {
                let n = o + seq![' '] + seq![c];
                assert forall|i: int| 0 <= i < n.len() && is_ws(#[trigger] n[i]) implies {
                    &&& n[i] == ' '
                    &&& 0 < i < n.len() - 1
                    &&& !is_ws(n[i - 1])
                    &&& !is_ws(n[i + 1])
                } by {
                    if i < o.len() {
                        assert(n[i] == o[i]);
                        if i > 0 {
                            assert(n[i - 1] == o[i - 1]);
                        }
                        if i + 1 < o.len() {
                            assert(n[i + 1] == o[i + 1]);
                        }
                    } else {
                        assert(i == o.len());
                        assert(n[i - 1] == o.last());
                    }
                }
            } else {
                assert(seq![c][0] == c);
            }
        }
    }
}

/// Law: normalizing gives a text in normal form.
pub proof fn lemma_normalized_is_normal(s: Seq<char>)
    ensures
        is_normal(normalized(s)),
{
    lemma_normalized_prefix(s, s.len() as int);
    assert(s.take(s.len() as int) == s);
}

/// The normalized prefixes of a text in normal form are its prefixes
/// without a final space.
proof fn lemma_normal_prefix_fixed(x: Seq<char>, k: int)
    requires
        is_normal(x),
        0 <= k <= x.len(),
    ensures
        normalized(x.take(k)) == if k > 0 && is_ws(x[k - 1]) {
            x.take(k - 1)
        } else {
            x.take(k)
        },
        (words(x.take(k)).len() > 0) == (k > 0),
    decreases k,
{
    if k > 0 {
        lemma_normal_prefix_fixed(x, k - 1);
        let pre = x.take(k - 1);
        let post = x.take(k);
        let c = x[k - 1];
        assert(post.drop_last() == pre);
        assert(post.last() == c);
        if is_ws(c) {
            assert(k - 1 > 0 && !is_ws(x[k - 2]));
        } else if k >= 2 && !is_ws(x[k - 2]) {
            assert(post[post.len() - 2] == x[k - 2]);
            assert(pre.last() == x[k - 2]);
            lemma_words_nonempty(pre);
            lemma_join_extend_last(words(pre), seq![' '], c);
            assert(pre.push(c) == post);
        } else {
            if k >= 2 {
                assert(post[post.len() - 2] == x[k - 2]);
                assert(x[k - 2] == ' ');
                assert(k - 2 > 0 && !is_ws(x[k - 3]));
                assert(x.take(k - 2) + seq![' '] + seq![c] == post);
            }
            lemma_join_push(words(pre), seq![' '], seq![c]);
            if k == 1 {
                assert(post == seq![c]);
            }
        }
    }
}

/// A text in normal form is its own normalization.
pub proof fn lemma_normal_fixed(x: Seq<char>)
    requires
        is_normal(x),
    ensures
        normalized(x) == x,
{
    lemma_normal_prefix_fixed(x, x.len() as int);
    assert(x.take(x.len() as int) == x);
}

/// Law: normalizing twice gives what normalizing once gives.
pub proof fn lemma_normalize_idempotent(s: Seq<char>)
    ensures
        normalized(normalized(s)) == normalized(s),
{
    lemma_normalized_is_normal(s);
    lemma_normal_fixed(normalized(s));
}

/// The history after adding `texts`, in order, to history `h`.
pub open spec fn history_after(h: Seq<Seq<char>>, texts: Seq<Seq<char>>) -> Seq<Seq<char>>
    decreases texts.len(),
{
    if texts.len() == 0 {
        h
    } else {
        keep_last(history_after(h, texts.drop_last()).push(texts.last()), MAX_HISTORY_ITEMS as nat)
    }
}

/// Law: adding texts to an empty history, one by one, leaves the last
/// `MAX_HISTORY_ITEMS` of them in the order added, so the history never
/// holds more, and a window of at least that many items is all of it.
pub proof fn lemma_history_after(texts: Seq<Seq<char>>)
    ensures
        history_after(Seq::empty(), texts) == keep_last(texts, MAX_HISTORY_ITEMS as nat),
        history_after(Seq::empty(), texts).len() == if texts.len() <= MAX_HISTORY_ITEMS {
            texts.len()
        } else {
            MAX_HISTORY_ITEMS as nat
        },
        forall|n: nat|
            n >= MAX_HISTORY_ITEMS ==> #[trigger] keep_last(history_after(Seq::empty(), texts), n)
                == history_after(Seq::empty(), texts),
    decreases texts.len(),
{
    if texts.len() > 0 {
        let p = texts.drop_last();
        lemma_history_after(p);
        assert(texts == p.push(texts.last()));
        lemma_keep_last_push(p, texts.last(), MAX_HISTORY_ITEMS as nat);
    }
}

/// Recent texts, oldest first, with a context window size.
pub struct Context {
    history: VecDeque<String>,
    max_tokens: usize,
}

impl Context {
    /// The recorded texts, oldest first.
    pub closed spec fn history(&self) -> Seq<Seq<char>> {
        views(self.history@)
    }

    /// The context window size, in tokens.
    pub closed spec fn max_tokens(&self) -> nat {
        self.max_tokens as nat
    }

    /// An empty context with the default window of `MAX_CONTEXT_TOKENS` tokens.
    pub fn new() -> (r: Self)
        ensures
            r.history() == Seq::<Seq<char>>::empty(),
            r.max_tokens() == MAX_CONTEXT_TOKENS,
    {
        let r = Self { history: VecDeque::new(), max_tokens: MAX_CONTEXT_TOKENS };
        assert(r.history() =~= Seq::<Seq<char>>::empty());
        r
    }

    /// An empty context with a window of `max_tokens` tokens.
    pub fn with_capacity(max_tokens: usize) -> (r: Self)
        ensures
            r.history() == Seq::<Seq<char>>::empty(),
            r.max_tokens() == max_tokens,
    {
        let r = Self { history: VecDeque::new(), max_tokens };
        assert(r.history() =~= Seq::<Seq<char>>::empty());
        r
    }

    /// Extract the relevant prefix from the full text: the text without its
    /// trailing whitespace when that is at most `max_chars` characters long,
    /// and otherwise its longest tail that starts at a word and is at most
    /// `max_chars` characters long (empty when even the last word is longer).
    pub fn extract_prefix(text: &str, max_chars: usize) -> (r: String)
        ensures
            trim_end(text@).len() <= max_chars ==> r@ == trim_end(text@),
            trim_end(text@).len() > max_chars ==> exists|i: int|
                0 <= i <= trim_end(text@).len() && r@ == trim_end(text@).skip(i)
                    && tail_fits(trim_end(text@), i, max_chars as nat) && forall|j: int|
                    0 <= j < i ==> !tail_fits(trim_end(text@), j, max_chars as nat),
            r@.len() <= max_chars || r@ == trim_end(text@),
    {
        let chars = chars_of(text);
        let k = trim_end_len(&chars);
        let ghost t = trim_end(text@);
        if k <= max_chars {
            assert(chars@.subrange(0, k as int) == chars@.take(k as int));
            return string_from_range(&chars, 0, k);
        }
        let mut i: usize = 0;
        while i < k && !(!is_whitespace(chars[i]) && (i == 0 || is_whitespace(chars[i - 1]))
            && k - i <= max_chars)
            invariant
                i <= k <= chars.len(),
                t == chars@.take(k as int),
                forall|j: int| 0 <= j < i ==> !tail_fits(t, j, max_chars as nat),
            decreases k - i,
        {
            proof {
                assert(t[i as int] == chars@[i as int]);
                if i > 0 {
                    assert(t[i - 1] == chars@[i - 1]);
                }
            }
            i += 1;
        }
        proof {
            assert(chars@.subrange(i as int, k as int) == t.skip(i as int));
            if i < k {
                assert(t[i as int] == chars@[i as int]);
                if i > 0 {
                    assert(t[i - 1] == chars@[i - 1]);
                }
            }
            assert(tail_fits(t, i as int, max_chars as nat));
        }
        string_from_range(&chars, i, k)
    }

    /// Normalize whitespace: the words of `text` joined by single spaces.
    pub fn normalize(text: &str) -> (r: String)
        ensures
            r@ == normalized(text@),
    {
        let chars = chars_of(text);
        let mut r = String::new();
        let mut have_word = false;
        let mut i: usize = 0;
        while i < chars.len()
            invariant
                i <= chars.len(),
                chars@ == text@,
                r@ == normalized(chars@.take(i as int)),
                have_word == (words(chars@.take(i as int)).len() > 0),
            decreases chars.len() - i,
        {
            let c = chars[i];
            let ghost pre = chars@.take(i as int);
            let ghost post = chars@.take(i + 1);
            assert(post.drop_last() == pre);
            assert(post.last() == c);
            if is_whitespace(c) {
            } else if i >= 1 && !is_whitespace(chars[i - 1]) {
                proof {
                    assert(post[post.len() - 2] == chars@[i - 1]);
                    assert(pre.last() == chars@[i - 1]);
                    lemma_words_nonempty(pre);
                    lemma_join_extend_last(words(pre), seq![' '], c);
                }
                push_char(&mut r, c);
            } else {
                proof {
                    lemma_join_push(words(pre), seq![' '], seq![c]);
                    if i >= 1 {
                        assert(post[post.len() - 2] == chars@[i - 1]);
                    }
                }
                if have_word {
                    push_char(&mut r, ' ');
                }
                push_char(&mut r, c);
                have_word = true;
            }
            i += 1;
        }
        assert(chars@.take(chars.len() as int) == chars@);
        r
    }

    /// Add a text to the history, keeping only the last `MAX_HISTORY_ITEMS`.
    pub fn add_to_history(&mut self, text: String)
        ensures
            final(self).history() == keep_last(
                old(self).history().push(text@),
                MAX_HISTORY_ITEMS as nat,
            ),
            final(self).history() == history_after(old(self).history(), seq![text@]),
            final(self).history().len() <= MAX_HISTORY_ITEMS,
            final(self).max_tokens() == old(self).max_tokens(),
    {
        let ghost t = text@;
        assert(seq![t].drop_last() =~= Seq::<Seq<char>>::empty());
        assert(seq![t].last() == t);
        assert(history_after(old(self).history(), Seq::empty()) == old(self).history());
        assert(history_after(old(self).history(), seq![t]) == keep_last(
            old(self).history().push(t),
            MAX_HISTORY_ITEMS as nat,
        ));
        let ghost target = keep_last(old(self).history().push(text@), MAX_HISTORY_ITEMS as nat);
        self.history.push_back(text);
        assert(self.history() == old(self).history().push(text@));
        while self.history.len() > MAX_HISTORY_ITEMS
            invariant
                target == keep_last(self.history(), MAX_HISTORY_ITEMS as nat),
                self.max_tokens == old(self).max_tokens,
            decreases self.history@.len(),
        {
            let ghost before = self.history();
            self.history.pop_front();
            assert(self.history() == before.drop_first());
            assert(keep_last(self.history(), MAX_HISTORY_ITEMS as nat) == keep_last(
                before,
                MAX_HISTORY_ITEMS as nat,
            ));
        }
    }

    /// The last `num_items` texts of the history (all of it when it is
    /// shorter), oldest first.
    pub fn get_context_window(&self, num_items: usize) -> (r: Vec<String>)
        ensures
            views(r@) == keep_last(self.history(), num_items as nat),
    {
        let len = self.history.len();
        let start = if len > num_items { len - num_items } else { 0 };
        let mut r: Vec<String> = Vec::new();
        let mut i = start;
        while i < len
            invariant
                start <= i <= len,
                len == self.history@.len(),
                views(r@) == self.history().subrange(start as int, i as int),
            decreases len - i,
        {
            let item = self.history[i].clone();
            let ghost before = r@;
            r.push(item);
            assert(views(r@) =~= views(before).push(item@));
            assert(self.history().subrange(start as int, i + 1) =~= self.history().subrange(
                start as int,
                i as int,
            ).push(item@));
            i += 1;
        }
        assert(self.history().subrange(start as int, len as int) == keep_last(
            self.history(),
            num_items as nat,
        ));
        r
    }
}

impl Default for Context {
    fn default() -> (r: Self)
        ensures
            r.history() == Seq::<Seq<char>>::empty(),
            r.max_tokens() == MAX_CONTEXT_TOKENS,
    {
        Self::new()
    }
}

} // verus!
