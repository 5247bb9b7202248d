//! Small text utilities: display sanitising and truncation.
use vstd::prelude::*;
use vstd::utf8::{decode_utf8, encode_utf8, is_char_boundary};

use crate::seqs::lemma_filter_all;
use crate::text::{
    byte_len, chars_of, ellipsis, is_control, is_ctrl, is_whitespace, is_ws, lemma_encode_concat,
    lemma_encode_ellipsis, push_char,
};

verus! {

broadcast use vstd::utf8::encode_utf8_decode_utf8;

/// A character survives sanitising when it is not a control character, or
/// when it is whitespace.
pub open spec fn is_displayable(c: char) -> bool {
    !is_ctrl(c) || is_ws(c)
}

/// The displayable characters of `s`, in order, at most `max_len` of them.
pub open spec fn sanitized(s: Seq<char>, max_len: nat) -> Seq<char> {
    let kept = s.filter(|c: char| is_displayable(c));
    if kept.len() <= max_len {
        kept
    } else {
        kept.take(max_len as int)
    }
}

/// Law: sanitized text holds only displayable characters, at most `max_len` of them.
pub proof fn lemma_sanitized_displayable(s: Seq<char>, max_len: nat)
    ensures
        sanitized(s, max_len).len() <= max_len,
        forall|i: int|
            0 <= i < sanitized(s, max_len).len() ==> is_displayable(
                #[trigger] sanitized(s, max_len)[i],
            ),
{
    let keep = |c: char| is_displayable(c);
    let kept = s.filter(keep);
    assert forall|i: int| 0 <= i < sanitized(s, max_len).len() implies is_displayable(
        #[trigger] sanitized(s, max_len)[i],
    ) by {
        assert(sanitized(s, max_len)[i] == kept[i]);
        s.lemma_filter_pred(keep, i);
    }
}

/// Law: sanitising keeps every whitespace character and every character that
/// is not a control character, and drops exactly the other control
/// characters; so a text that holds no such control character, and is no
/// longer than the limit, comes back unchanged.
pub proof fn lemma_sanitize_keeps(s: Seq<char>, max_len: nat)
    ensures
        forall|c: char| is_ws(c) ==> #[trigger] is_displayable(c),
        forall|c: char| !is_ctrl(c) ==> #[trigger] is_displayable(c),
        forall|c: char| is_ctrl(c) && !is_ws(c) ==> !#[trigger] is_displayable(c),
        (forall|i: int| 0 <= i < s.len() ==> !is_ctrl(#[trigger] s[i]) || is_ws(s[i])) && s.len()
            <= max_len ==> sanitized(s, max_len) == s,
{
    if (forall|i: int| 0 <= i < s.len() ==> !is_ctrl(#[trigger] s[i]) || is_ws(s[i])) && s.len()
        <= max_len {
        let keep = |c: char| is_displayable(c);
        assert forall|i: int| 0 <= i < s.len() implies keep(#[trigger] s[i]) by {}
        lemma_filter_all(s, keep);
    }
}

/// `n - 3`, or 0 when `n < 3`.
pub open spec fn saturating_sub3(n: nat) -> nat {
    if n >= 3 {
        (n - 3) as nat
    } else {
        0
    }
}

/// Sanitize text for display: drop control characters other than
/// whitespace, and keep at most `max_len` characters.
pub fn sanitize_text(text: &str, max_len: usize) -> (r: String)
    ensures
        r@ == sanitized(text@, max_len as nat),
{
    let chars = chars_of(text);
    let ghost keep = |c: char| is_displayable(c);
    let mut r = String::new();
    let mut count: usize = 0;
    let mut i: usize = 0;
    while i < chars.len()
        invariant
            i <= chars.len(),
            chars@ == text@,
            keep == (|c: char| is_displayable(c)),
            count == r@.len(),
            r@ == sanitized(chars@.take(i as int), max_len as nat),
        decreases chars.len() - i,
    {
        let c = chars[i];
        proof {
            assert(chars@.take(i + 1) == chars@.take(i as int).push(c));
            chars@.take(i as int).lemma_filter_push(c, keep);
        }
        if (!is_control(c) || is_whitespace(c)) && count < max_len {
            push_char(&mut r, c);
            count += 1;
        }
        i += 1;
    }
    assert(chars@.take(chars.len() as int) == chars@);
    r
}

/// Truncate `text` to `max_len` bytes, ending in an ellipsis when it was
/// longer: the first `max_len - 3` bytes followed by `...`, or, when
/// `max_len < 3`, `max_len` dots. The cut must fall between two characters.
pub fn truncate_with_ellipsis(text: &str, max_len: usize) -> (r: String)
    requires
        byte_len(text@) <= usize::MAX,
        byte_len(text@) > max_len ==> is_char_boundary(
            encode_utf8(text@),
            saturating_sub3(max_len as nat) as int,
        ),
    ensures
        byte_len(text@) <= max_len ==> r@ == text@,
        byte_len(text@) > max_len ==> r@ == decode_utf8(
            encode_utf8(text@).take(saturating_sub3(max_len as nat) as int),
        ) + ellipsis(max_len as nat),
        byte_len(r@) <= max_len,
{
    if text.len() <= max_len {
        text.to_owned()
    } else {
        let cut = if max_len >= 3 { max_len - 3 } else { 0 };
        let dots = if max_len >= 3 { 3 } else { max_len };
        let (head, _tail) = text.split_at(cut);
        let mut r = head.to_owned();
        proof {
            assert(encode_utf8(head@) == encode_utf8(text@).take(cut as int));
            assert(decode_utf8(encode_utf8(head@)) == head@);
            lemma_encode_ellipsis(max_len as nat);
        }
        let mut i: usize = 0;
        while i < dots
            invariant
                i <= dots <= 3,
                dots == ellipsis(max_len as nat).len(),
                r@ == head@ + ellipsis(max_len as nat).take(i as int),
            decreases dots - i,
        {
            assert(ellipsis(max_len as nat)[i as int] == '.');
            assert(ellipsis(max_len as nat).take(i + 1) == ellipsis(max_len as nat).take(
                i as int,
            ).push('.'));
            push_char(&mut r, '.');
            i += 1;
        }
        proof {
            assert(ellipsis(max_len as nat).take(dots as int) == ellipsis(max_len as nat));
            lemma_encode_concat(head@, ellipsis(max_len as nat));
        }
        r
    }
}

} // verus!
