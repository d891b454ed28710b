//! Splitting a text into lower-case tokens.

use vstd::prelude::*;
use crate::text::{char_at, chars_of, string_of};
use crate::token::Token;

verus! {

/// What `char::is_whitespace` answers for a character `c` beyond ASCII:
/// whether `c` has the Unicode property `White_Space`.
pub uninterp spec fn wide_space(c: char) -> bool;

/// Whether `c` is a character of ASCII.
pub open spec fn in_ascii(c: char) -> bool {
    (c as u32) < 128
}

/// The white space of ASCII: the space, and the characters from the tab
/// to the carriage return.
pub open spec fn ascii_space(c: char) -> bool {
    c == ' ' || c == '\t' || c == '\n' || c == '\u{b}' || c == '\u{c}' || c == '\r'
}

/// Whether `c` is white space: it has the Unicode property `White_Space`.
/// Within ASCII these are the six characters of [`ascii_space`].
pub open spec fn is_space(c: char) -> bool {
    if in_ascii(c) {
        ascii_space(c)
    } else {
        wide_space(c)
    }
}

/// What `str::to_lowercase` returns for the text `s`.
pub uninterp spec fn lowercase_of(s: Seq<char>) -> Seq<char>;

/// `char::is_whitespace` answers from the character alone, by its Unicode
/// property `White_Space`. Within ASCII the space and the characters from
/// U+0009 to U+000D have it and no other; beyond ASCII [`wide_space`] names
/// the answer.
pub assume_specification[ char::is_whitespace ](c: char) -> (b: bool)
    ensures
        b == (if in_ascii(c) {
            ascii_space(c)
        } else {
            wide_space(c)
        }),
;

/// `s` without the white space at its end.
pub open spec fn without_trailing_space(s: Seq<char>) -> Seq<char>
    decreases s.len(),
{
    if s.len() > 0 && is_space(s.last()) {
        without_trailing_space(s.drop_last())
    } else {
        s
    }
}

/// `str::trim_end` returns the text up to its last character that is not
/// white space, as `char::is_whitespace` tells it.
pub assume_specification<'a>[ str::trim_end ](s: &'a str) -> (out: &'a str)
    ensures
        out@ == without_trailing_space(s@),
;

/// Calls `str::to_lowercase`. The lower-case form of a text depends on the
/// text alone; [`lowercase_of`] names it, and nothing more is claimed of it.
#[verifier::external_body]
fn lowercase(s: &str) -> (out: String)
    ensures
        out@ == lowercase_of(s@),
{
    s.to_lowercase()
}

/// Whether `c` ends a token: white space does, and so does a hyphen.
pub open spec fn separates(c: char) -> bool {
    is_space(c) || c == '-'
}

/// Whether `text` from `start` up to `end` is a token: a non-empty run of
/// characters none of which separates, with a separator or the end of the
/// text on either side.
pub open spec fn is_run(text: Seq<char>, start: int, end: int) -> bool {
    &&& 0 <= start < end <= text.len()
    &&& forall|j: int| start <= j < end ==> !separates(#[trigger] text[j])
    &&& start == 0 || separates(text[start - 1])
    &&& end == text.len() || separates(text[end])
}

/// Whether `tokens` are the tokens of `text`: its runs from left to right,
/// each with its position among them and the offset of its first character.
pub open spec fn tokens_of(text: Seq<char>, tokens: Seq<Token>) -> bool {
    &&& forall|t: int|
        0 <= t < tokens.len() ==> (#[trigger] tokens[t]).index == t && is_run(
            text,
            tokens[t].start as int,
            tokens[t].start + tokens[t].value@.len(),
        ) && tokens[t].value@ == text.subrange(tokens[t].start as int, tokens[t].start + tokens[t].value@.len())
    &&& forall|t: int, u: int|
        0 <= t < u < tokens.len() ==> (#[trigger] tokens[t]).start + tokens[t].value@.len() < (
        #[trigger] tokens[u]).start
    &&& forall|j: int|
        0 <= j < text.len() && !separates(#[trigger] text[j]) ==> exists|t: int|
            0 <= t < tokens.len() && (#[trigger] tokens[t]).start <= j < tokens[t].start + tokens[t].value@.len()
}

/// Whether `tokens` are the runs of `text` that end before `upto`, where
/// `upto` is the start of the text or lies just behind a separator.
spec fn tokens_upto(text: Seq<char>, tokens: Seq<Token>, upto: int) -> bool {
    &&& forall|t: int|
        0 <= t < tokens.len() ==> (#[trigger] tokens[t]).index == t && is_run(
            text,
            tokens[t].start as int,
            tokens[t].start + tokens[t].value@.len(),
        ) && tokens[t].value@ == text.subrange(tokens[t].start as int, tokens[t].start + tokens[t].value@.len())
            && tokens[t].start + tokens[t].value@.len() < upto
    &&& forall|t: int, u: int|
        0 <= t < u < tokens.len() ==> (#[trigger] tokens[t]).start + tokens[t].value@.len() < (
        #[trigger] tokens[u]).start
    &&& forall|j: int|
        0 <= j < upto && j < text.len() && !separates(#[trigger] text[j]) ==> exists|t: int|
            0 <= t < tokens.len() && (#[trigger] tokens[t]).start <= j < tokens[t].start + tokens[t].value@.len()
}

/// The token that `chars` holds from `start` up to `end`.
fn cut_token(chars: &Vec<char>, start: usize, end: usize, index: usize) -> (token: Token)
    requires
        start <= end <= chars@.len(),
    ensures
        token.index == index,
        token.start == start,
        token.value@ == chars@.subrange(start as int, end as int),
{
    let mut value: Vec<char> = Vec::new();
    let mut j: usize = start;
    while j < end
        invariant
            start <= j <= end <= chars@.len(),
            value@ == chars@.subrange(start as int, j as int),
        decreases end - j,
    {
        value.push(char_at(chars, j));
        j += 1;
        assert(value@ =~= chars@.subrange(start as int, j as int));
    }
    Token { index, start, value: string_of(&value) }
}

proof fn lemma_tokens_push(text: Seq<char>, tokens: Seq<Token>, token: Token, upto: int, next: int)
    requires
        tokens_upto(text, tokens, upto),
        token.index == tokens.len(),
        upto <= token.start,
        is_run(text, token.start as int, token.start + token.value@.len()),
        token.value@ == text.subrange(token.start as int, token.start + token.value@.len()),
        forall|j: int| upto <= j < token.start && j < text.len() ==> separates(#[trigger] text[j]),
        token.start + token.value@.len() < next,
        forall|j: int| token.start + token.value@.len() <= j < next && j < text.len() ==> separates(#[trigger] text[j]),
    ensures
        tokens_upto(text, tokens.push(token), next),
{
    let all = tokens.push(token);
    assert forall|j: int| 0 <= j < next && j < text.len() && !separates(#[trigger] text[j]) implies exists|t: int|
        0 <= t < all.len() && (#[trigger] all[t]).start <= j < all[t].start + all[t].value@.len() by {
        if j < upto {
            let t = choose|t: int|
                0 <= t < tokens.len() && (#[trigger] tokens[t]).start <= j < tokens[t].start + tokens[t].value@.len();
            assert(all[t] == tokens[t]);
        } else {
            let t = tokens.len() as int;
            assert(all[t] == token);
        }
    }
    assert forall|t: int, u: int| 0 <= t < u < all.len() implies (#[trigger] all[t]).start + all[t].value@.len() < (
    #[trigger] all[u]).start by {
        assert(all[t] == tokens[t]);
        if u < tokens.len() {
            assert(all[u] == tokens[u]);
        }
    }
}

proof fn lemma_tokens_skip(text: Seq<char>, tokens: Seq<Token>, upto: int, next: int)
    requires
        tokens_upto(text, tokens, upto),
        upto <= next,
        forall|j: int| upto <= j < next && j < text.len() ==> separates(#[trigger] text[j]),
    ensures
        tokens_upto(text, tokens, next),
{
}

/// Two runs that share a position are one run.
proof fn lemma_same_run(text: Seq<char>, s1: int, e1: int, s2: int, e2: int, j: int)
    requires
        is_run(text, s1, e1),
        is_run(text, s2, e2),
        s1 <= j < e1,
        s2 <= j < e2,
    ensures
        s1 == s2,
        e1 == e2,
{
    if s1 < s2 {
        assert(!separates(text[s2 - 1]));
    }
    if s2 < s1 {
        assert(!separates(text[s1 - 1]));
    }
    if e1 < e2 {
        assert(!separates(text[e1]));
    }
    if e2 < e1 {
        assert(!separates(text[e2]));
    }
}

/// The end of token `t`: the offset behind its last character.
pub open spec fn token_end(tokens: Seq<Token>, t: int) -> int {
    tokens[t].start + tokens[t].value@.len()
}

/// Where two lists are both the tokens of one text, the second holds every
/// token of the first at its position.
proof fn lemma_tokens_agree(text: Seq<char>, a: Seq<Token>, b: Seq<Token>, t: int)
    requires
        tokens_of(text, a),
        tokens_of(text, b),
        0 <= t < a.len(),
    ensures
        t < b.len(),
        b[t].start == a[t].start,
        b[t].value@ == a[t].value@,
    decreases t,
{
    let j = a[t].start as int;
    assert(is_run(text, j, token_end(a, t)));
    assert(!separates(text[j]));
    let u = choose|u: int| 0 <= u < b.len() && (#[trigger] b[u]).start <= j < b[u].start + b[u].value@.len();
    assert(is_run(text, b[u].start as int, token_end(b, u)));
    lemma_same_run(text, j, token_end(a, t), b[u].start as int, token_end(b, u), j);
    if u < t {
        lemma_tokens_agree(text, a, b, u);
        assert(a[u].start + a[u].value@.len() < a[t].start);
        assert(is_run(text, a[u].start as int, token_end(a, u)));
    }
    if u > t {
        let k = b[t].start as int;
        assert(is_run(text, k, token_end(b, t)));
        assert(!separates(text[k]));
        assert(b[t].start + b[t].value@.len() < b[u].start);
        let v = choose|v: int| 0 <= v < a.len() && (#[trigger] a[v]).start <= k < a[v].start + a[v].value@.len();
        assert(is_run(text, a[v].start as int, token_end(a, v)));
        lemma_same_run(text, k, token_end(b, t), a[v].start as int, token_end(a, v), k);
        if v > t {
            assert(a[t].start + a[t].value@.len() < a[v].start);
        }
        if v < t {
            lemma_tokens_agree(text, a, b, v);
            assert(b[v].start + b[v].value@.len() < b[t].start);
            assert(is_run(text, b[v].start as int, token_end(b, v)));
        }
    }
    assert(u == t);
}

/// A text has one list of tokens only: two lists that are both the tokens
/// of one text have the same length, and their tokens the same offsets and
/// the same texts.
pub proof fn lemma_tokens_unique(text: Seq<char>, a: Seq<Token>, b: Seq<Token>)
    requires
        tokens_of(text, a),
        tokens_of(text, b),
    ensures
        a.len() == b.len(),
        forall|t: int| 0 <= t < a.len() ==> (#[trigger] a[t]).start == b[t].start && a[t].value@ == b[t].value@,
{
    if a.len() > 0 {
        lemma_tokens_agree(text, a, b, a.len() - 1);
    }
    if b.len() > 0 {
        lemma_tokens_agree(text, b, a, b.len() - 1);
    }
    assert forall|t: int| 0 <= t < a.len() implies (#[trigger] a[t]).start == b[t].start && a[t].value@ == b[t].value@ by {
        lemma_tokens_agree(text, a, b, t);
    }
}

/// The tokenizer.
pub struct Tokenizer;

impl Tokenizer {
    pub fn new() -> Tokenizer {
        Tokenizer
    }

    /// The tokens of a text that is in lower case already: its runs of
    /// characters between white space and hyphens, from left to right.
    pub fn split(&self, text: &str) -> (tokens: Vec<Token>)
        ensures
            tokens_of(text@, tokens@),
    {
        let chars = chars_of(text);
        let ghost txt = text@;
        let len = chars.len();
        let mut tokens: Vec<Token> = Vec::new();
        let mut start: usize = 0;
        let mut end: usize = 0;
        while end < len
            invariant
                chars@ == txt,
                len == txt.len(),
                start <= end <= len,
                tokens_upto(txt, tokens@, start as int),
                forall|j: int| start <= j < end ==> !separates(#[trigger] txt[j]),
                start == 0 || separates(txt[start - 1]),
            decreases len - end,
        {
            let c = char_at(&chars, end);
            if c.is_whitespace() || c == '-' {
                if end > start {
                    let token = cut_token(&chars, start, end, tokens.len());
                    proof {
                        lemma_tokens_push(txt, tokens@, token, start as int, end + 1);
                    }
                    tokens.push(token);
                } else {
                    proof {
                        lemma_tokens_skip(txt, tokens@, start as int, end + 1);
                    }
                }
                start = end + 1;
            }
            end += 1;
        }
        if end > start {
            let token = cut_token(&chars, start, end, tokens.len());
            proof {
                lemma_tokens_push(txt, tokens@, token, start as int, end + 1);
            }
            tokens.push(token);
        } else {
            proof {
                lemma_tokens_skip(txt, tokens@, start as int, end + 1);
            }
        }
        tokens
    }

    /// The tokens of `source`: the text loses the white space at its end, is
    /// put in lower case, and is cut at white space and hyphens.
    pub fn tokenize(&self, source: String) -> (tokens: Vec<Token>)
        ensures
            tokens_of(lowercase_of(without_trailing_space(source@)), tokens@),
    {
        let lowered = lowercase(source.as_str().trim_end());
        self.split(lowered.as_str())
    }
}

} // verus!
