//! Characters, white space and the tokens of a line.
//!
//! Every text is modelled as the sequence of its characters (`Seq<char>`, the
//! view of `str` and `String`). The executable functions work on a `Vec<char>`
//! taken from the text once, so that each of them runs in linear time.

use vstd::prelude::*;
use vstd::std_specs::iter::IteratorSpec;
use vstd::string::*;

verus! {

/// `String::push` appends the one character `ch` to the end of the string and
/// leaves what was there before untouched.
pub assume_specification[ String::push ](s: &mut String, ch: char)
    ensures
        final(s)@ == old(s)@.push(ch),
;

/// Whether `c` is white space: one of the characters that Unicode classes as
/// `White_Space`.
pub open spec fn is_whitespace(c: char) -> bool {
    let u = c as u32;
    ||| 0x09 <= u <= 0x0D
    ||| u == 0x20
    ||| u == 0x85
    ||| u == 0xA0
    ||| u == 0x1680
    ||| 0x2000 <= u <= 0x200A
    ||| u == 0x2028
    ||| u == 0x2029
    ||| u == 0x202F
    ||| u == 0x205F
    ||| u == 0x3000
}

/// Whether every character of `s` is white space (so also: whether `s` is empty).
pub open spec fn is_blank(s: Seq<char>) -> bool {
    forall|i: int| 0 <= i < s.len() ==> is_whitespace(#[trigger] s[i])
}

/// `s` without the white space at its end.
pub open spec fn trim_end(s: Seq<char>) -> Seq<char>
    decreases s.len(),
{
    if s.len() > 0 && is_whitespace(s.last()) {
        trim_end(s.drop_last())
    } else {
        s
    }
}

/// The number of characters of `s` before its first white space; all of them
/// if `s` holds none.
pub open spec fn word_len(s: Seq<char>) -> nat
    decreases s.len(),
{
    if s.len() == 0 || is_whitespace(s.first()) {
        0
    } else {
        1 + word_len(s.drop_first())
    }
}

/// The tokens of `s`: its maximal runs of characters that are not white space,
/// from left to right.
pub open spec fn tokens(s: Seq<char>) -> Seq<Seq<char>>
    decreases s.len(),
    via tokens_terminates
{
    if s.len() == 0 {
        Seq::empty()
    } else if is_whitespace(s.first()) {
        tokens(s.drop_first())
    } else {
        seq![s.take(word_len(s) as int)] + tokens(s.skip(word_len(s) as int))
    }
}

#[via_fn]
proof fn tokens_terminates(s: Seq<char>) {
    lemma_word_len(s);
}

/// Whether `needle` occurs in `hay` as a run of neighbouring characters.
pub open spec fn contains_text(hay: Seq<char>, needle: Seq<char>) -> bool {
    exists|i: int|
        0 <= i <= hay.len() - needle.len() && #[trigger] hay.subrange(i, i + needle.len())
            == needle
}

/// `word_len(s)` is the place of the first white space in `s`.
pub proof fn lemma_word_len(s: Seq<char>)
    ensures
        word_len(s) <= s.len(),
        forall|i: int| 0 <= i < word_len(s) ==> !is_whitespace(#[trigger] s[i]),
        word_len(s) < s.len() ==> is_whitespace(s[word_len(s) as int]),
        s.len() > 0 && !is_whitespace(s.first()) ==> word_len(s) >= 1,
    decreases s.len(),
{
    if s.len() == 0 || is_whitespace(s.first()) {
    } else {
        let rest = s.drop_first();
        lemma_word_len(rest);
        assert forall|i: int| 0 <= i < word_len(s) implies !is_whitespace(#[trigger] s[i]) by {
            if i > 0 {
                assert(s[i] == rest[i - 1]);
            }
        }
        if word_len(s) < s.len() {
            assert(s[word_len(s) as int] == rest[word_len(rest) as int]);
        }
    }
}

/// The place of the first white space determines `word_len`: if no character
/// before `n` is white space and `s` ends at `n` or has white space there,
/// then `word_len(s)` is `n`.
pub proof fn lemma_word_len_is(s: Seq<char>, n: int)
    requires
        0 <= n <= s.len(),
        forall|i: int| 0 <= i < n ==> !is_whitespace(#[trigger] s[i]),
        n < s.len() ==> is_whitespace(s[n]),
    ensures
        word_len(s) == n,
    decreases s.len(),
{
    if n > 0 {
        let rest = s.drop_first();
        assert forall|i: int| 0 <= i < n - 1 implies !is_whitespace(#[trigger] rest[i]) by {
            assert(rest[i] == s[i + 1]);
        }
        lemma_word_len_is(rest, n - 1);
    }
}

/// Trimming cuts `s` down to a prefix that does not end in white space, and
/// all that it cuts off is white space.
pub proof fn lemma_trim_end(s: Seq<char>)
    ensures
        trim_end(s).len() <= s.len(),
        trim_end(s) == s.take(trim_end(s).len() as int),
        trim_end(s).len() > 0 ==> !is_whitespace(trim_end(s).last()),
        forall|i: int| trim_end(s).len() <= i < s.len() ==> is_whitespace(#[trigger] s[i]),
    decreases s.len(),
{
    if s.len() > 0 && is_whitespace(s.last()) {
        let head = s.drop_last();
        lemma_trim_end(head);
        let n = trim_end(s).len() as int;
        assert(head.take(n) =~= s.take(n));
        assert forall|i: int| n <= i < s.len() implies is_whitespace(#[trigger] s[i]) by {
            if i < s.len() - 1 {
                assert(s[i] == head[i]);
            }
        }
    } else {
        assert(s.take(s.len() as int) =~= s);
    }
}

/// A blank text has no tokens.
pub proof fn lemma_blank_has_no_tokens(s: Seq<char>)
    requires
        is_blank(s),
    ensures
        tokens(s).len() == 0,
    decreases s.len(),
{
    if s.len() > 0 {
        let rest = s.drop_first();
        assert(is_whitespace(s[0]));
        assert forall|i: int| 0 <= i < rest.len() implies is_whitespace(#[trigger] rest[i]) by {
            assert(rest[i] == s[i + 1]);
        }
        lemma_blank_has_no_tokens(rest);
    }
}

/// White space behind a text adds no token and changes none.
pub proof fn lemma_tokens_push_whitespace(s: Seq<char>, c: char)
    requires
        is_whitespace(c),
    ensures
        tokens(s.push(c)) == tokens(s),
    decreases s.len(),
{
    let more = s.push(c);
    if s.len() == 0 {
        assert(more.drop_first() =~= s);
    } else if is_whitespace(s.first()) {
        assert(more.drop_first() =~= s.drop_first().push(c));
        lemma_tokens_push_whitespace(s.drop_first(), c);
    } else {
        let n = word_len(s) as int;
        lemma_word_len(s);
        assert forall|i: int| 0 <= i < n implies !is_whitespace(#[trigger] more[i]) by {
            assert(more[i] == s[i]);
        }
        if n < s.len() {
            assert(more[n] == s[n]);
        }
        lemma_word_len_is(more, n);
        assert(more.take(n) =~= s.take(n));
        assert(more.skip(n) =~= s.skip(n).push(c));
        lemma_tokens_push_whitespace(s.skip(n), c);
    }
}

/// The white space at the end of a text is no part of its tokens.
pub proof fn lemma_tokens_trim_end(s: Seq<char>)
    ensures
        tokens(trim_end(s)) == tokens(s),
    decreases s.len(),
{
    if s.len() > 0 && is_whitespace(s.last()) {
        lemma_tokens_trim_end(s.drop_last());
        lemma_tokens_push_whitespace(s.drop_last(), s.last());
        assert(s.drop_last().push(s.last()) =~= s);
    }
}

/// Decides `is_whitespace` for one character.
pub fn char_is_whitespace(c: char) -> (b: bool)
    ensures
        b == is_whitespace(c),
{
    let u: u32 = c as u32;
    (0x09 <= u && u <= 0x0D) || u == 0x20 || u == 0x85 || u == 0xA0 || u == 0x1680 || (0x2000 <= u
        && u <= 0x200A) || u == 0x2028 || u == 0x2029 || u == 0x202F || u == 0x205F || u == 0x3000
}

/// The characters of `s`, in order.
pub fn to_chars(s: &str) -> (chars: Vec<char>)
    ensures
        chars@ == s@,
{
    broadcast use {axiom_spec_iter, next_postcondition};

    let mut it = s.chars();
    let mut chars: Vec<char> = Vec::new();
    loop
        invariant
            chars@ + it.remaining() == s@,
            it.decrease() is Some,
        ensures
            chars@ == s@,
        decreases it.decrease()->0,
    {
        let ghost before = it.remaining();
        match it.next() {
            Some(c) => {
                chars.push(c);
                assert(chars@ + it.remaining() =~= (chars@.drop_last() + before));
            },
            None => {
                assert(chars@ + it.remaining() =~= chars@);
                break ;
            },
        }
    }
    chars
}

/// The text made of the characters `chars[from..to]`.
pub fn text_of(chars: &Vec<char>, from: usize, to: usize) -> (text: String)
    requires
        from <= to <= chars.len(),
    ensures
        text@ == chars@.subrange(from as int, to as int),
{
    let mut text = String::new();
    let mut i: usize = from;
    while i < to
        invariant
            from <= i <= to <= chars.len(),
            text@ == chars@.subrange(from as int, i as int),
        decreases to - i,
    {
        text.push(chars[i]);
        i += 1;
        assert(text@ =~= chars@.subrange(from as int, i as int));
    }
    text
}

/// Whether `chars[from..to]` is blank.
pub fn is_blank_range(chars: &Vec<char>, from: usize, to: usize) -> (b: bool)
    requires
        from <= to <= chars.len(),
    ensures
        b == is_blank(chars@.subrange(from as int, to as int)),
{
    let ghost part = chars@.subrange(from as int, to as int);
    let mut i: usize = from;
    while i < to
        invariant
            from <= i <= to <= chars.len(),
            part == chars@.subrange(from as int, to as int),
            forall|k: int| 0 <= k < i - from ==> is_whitespace(#[trigger] part[k]),
        decreases to - i,
    {
        if !char_is_whitespace(chars[i]) {
            assert(!is_whitespace(part[i - from]));
            return false;
        }
        i += 1;
    }
    true
}

/// The length of `chars` without the white space at its end.
pub fn trimmed_len(chars: &Vec<char>) -> (n: usize)
    ensures
        n <= chars.len(),
        n == trim_end(chars@).len(),
        trim_end(chars@) == chars@.take(n as int),
{
    let mut n: usize = chars.len();
    proof {
        assert(chars@.take(n as int) =~= chars@);
    }
    while n > 0 && char_is_whitespace(chars[n - 1])
        invariant
            n <= chars.len(),
            trim_end(chars@) == trim_end(chars@.take(n as int)),
        decreases n,
    {
        proof {
            assert(chars@.take(n as int).drop_last() =~= chars@.take(n - 1));
        }
        n -= 1;
    }
    n
}

/// The tokens of the line `chars`, as `str::split_whitespace` yields them.
pub fn split_whitespace(chars: &Vec<char>) -> (words: Vec<String>)
    ensures
        words.deep_view() == tokens(chars@),
{
    let ghost s = chars@;
    let mut words: Vec<String> = Vec::new();
    let mut i: usize = 0;
    proof {
        assert(s.skip(0) =~= s);
        assert(words.deep_view() + tokens(s.skip(0)) =~= tokens(s));
    }
    while i < chars.len()
        invariant
            s == chars@,
            i <= chars.len(),
            words.deep_view() + tokens(s.skip(i as int)) == tokens(s),
        decreases chars.len() - i,
    {
        let ghost tail = s.skip(i as int);
        if char_is_whitespace(chars[i]) {
            proof {
                assert(tail.drop_first() =~= s.skip(i + 1));
            }
            i += 1;
        } else {
            let mut j: usize = i + 1;
            while j < chars.len() && !char_is_whitespace(chars[j])
                invariant
                    s == chars@,
                    i < j <= chars.len(),
                    forall|k: int| i <= k < j ==> !is_whitespace(#[trigger] s[k]),
                decreases chars.len() - j,
            {
                j += 1;
            }
            let word = text_of(chars, i, j);
            proof {
                lemma_word_len_is(tail, j - i);
                assert(tail.take(j - i) =~= s.subrange(i as int, j as int));
                assert(tail.skip(j - i) =~= s.skip(j as int));
                let ghost before = words.deep_view();
                assert(before.push(word@) + tokens(s.skip(j as int)) =~= before + tokens(tail));
            }
            let ghost before = words.deep_view();
            words.push(word);
            assert(words.deep_view() =~= before.push(word@));
            i = j;
        }
    }
    proof {
        assert(tokens(s.skip(i as int)) =~= Seq::<Seq<char>>::empty());
        assert(words.deep_view() + Seq::<Seq<char>>::empty() =~= words.deep_view());
    }
    words
}

/// Whether `needle` occurs in `hay`.
pub fn contains_chars(hay: &Vec<char>, needle: &Vec<char>) -> (found: bool)
    ensures
        found == contains_text(hay@, needle@),
{
    if needle.len() > hay.len() {
        return false;
    }
    let last: usize = hay.len() - needle.len();
    let mut i: usize = 0;
    while i <= last
        invariant
            last == hay.len() - needle.len(),
            i <= last + 1,
            forall|k: int| 0 <= k < i ==> #[trigger] hay@.subrange(k, k + needle.len()) != needle@,
        decreases last + 1 - i,
    {
        let mut j: usize = 0;
        while j < needle.len() && hay[i + j] == needle[j]
            invariant
                last == hay.len() - needle.len(),
                i <= last,
                j <= needle.len(),
                forall|k: int| 0 <= k < j ==> hay@[i + k] == #[trigger] needle@[k],
            decreases needle.len() - j,
        {
            j += 1;
        }
        if j == needle.len() {
            assert(hay@.subrange(i as int, i + needle.len()) =~= needle@);
            return true;
        }
        assert(hay@.subrange(i as int, i + needle.len())[j as int] != needle@[j as int]);
        i += 1;
    }
    false
}

} // verus!
