use vstd::prelude::*;
use vstd::string::StrSliceExecFns;
use crate::knowledge::views;
use crate::token::{end_marker, start_marker, Token, TokenKind, TokenView};

verus! {

/// What `char::is_whitespace` answers for `c`.
pub uninterp spec fn whitespace_char(c: char) -> bool;

/// What `char::is_alphanumeric` answers for `c`.
pub uninterp spec fn alphanumeric_char(c: char) -> bool;

/// Relies on `char::is_whitespace`: whether `c` has the Unicode White_Space
/// property; among ASCII characters, exactly the tab, line feed, vertical tab, form
/// feed, carriage return and space have it.
#[verifier::external_body]
fn is_whitespace(c: char) -> (r: bool)
    ensures
        r == whitespace_char(c),
        c <= '\x7f' ==> (r <==> (c == '\t' || c == '\n' || c == '\x0B' || c == '\x0C' || c
            == '\r' || c == ' ')),
{
    c.is_whitespace()
}

/// Relies on `char::is_alphanumeric`: whether `c` is alphabetic or numeric; among
/// ASCII characters, exactly the letters and digits are.
#[verifier::external_body]
fn is_alphanumeric(c: char) -> (r: bool)
    ensures
        r == alphanumeric_char(c),
        c <= '\x7f' ==> (r <==> ('a' <= c <= 'z' || 'A' <= c <= 'Z' || '0' <= c <= '9')),
{
    c.is_alphanumeric()
}

/// The punctuation marks that form tokens of their own.
pub open spec fn is_punct(c: char) -> bool {
    c == '.' || c == ':' || c == ';' || c == '?' || c == '!' || c == ','
}

/// The class of a character: whitespace first, then punctuation, then word
/// characters (alphanumeric or an apostrophe); none for any other character.
pub open spec fn class_of(c: char) -> Option<TokenKind> {
    if whitespace_char(c) {
        Some(TokenKind::Space)
    } else if is_punct(c) {
        Some(TokenKind::Punct)
    } else if alphanumeric_char(c) || c == '\'' {
        Some(TokenKind::Word)
    } else {
        None
    }
}

/// The token that the run `s[start..end]` gives: none for whitespace.
pub open spec fn run_token(s: Seq<char>, start: int, end: int) -> Seq<TokenView> {
    match class_of(s[start]) {
        Some(TokenKind::Space) => Seq::empty(),
        Some(k) => seq![TokenView { kind: k, text: Some(s.subrange(start, end)) }],
        None => Seq::empty(),
    }
}

/// The tokens of `s` from the run that starts at `start` and has reached `i`:
/// each maximal run of one class gives one token; none where a character has
/// no class.
pub open spec fn scan(s: Seq<char>, start: int, i: int) -> Option<Seq<TokenView>>
    decreases s.len() - i,
{
    if i >= s.len() {
        Some(run_token(s, start, s.len() as int))
    } else if class_of(s[i]) is None {
        None
    } else if class_of(s[i]) == class_of(s[start]) {
        scan(s, start, i + 1)
    } else {
        match scan(s, i, i + 1) {
            Some(rest) => Some(run_token(s, start, i) + rest),
            None => None,
        }
    }
}

/// The word and punctuation tokens of a line, or none where a character belongs
/// to no class.
pub open spec fn line_tokens(s: Seq<char>) -> Option<Seq<TokenView>> {
    if s.len() == 0 {
        Some(Seq::empty())
    } else if class_of(s[0]) is None {
        None
    } else {
        scan(s, 0, 1)
    }
}

/// `a` before what `o` holds, if it holds something.
pub open spec fn prepend(a: Seq<TokenView>, o: Option<Seq<TokenView>>) -> Option<Seq<TokenView>> {
    match o {
        Some(r) => Some(a + r),
        None => None,
    }
}

/// Why a line could not be tokenized.
#[derive(Clone, Copy, Debug, PartialEq, Eq, Structural)]
pub enum TokenizeError {
    /// A character is neither whitespace, punctuation nor a word character.
    UnrecognizedCharacter,
}

/// The class of `c`.
fn classify(c: char) -> (r: Option<TokenKind>)
    ensures
        r == class_of(c),
{
    if is_whitespace(c) {
        Some(TokenKind::Space)
    } else if c == '.' || c == ':' || c == ';' || c == '?' || c == '!' || c == ',' {
        Some(TokenKind::Punct)
    } else if is_alphanumeric(c) || c == '\'' {
        Some(TokenKind::Word)
    } else {
        None
    }
}

/// Pushes the token of the run `line[start..end]`, if it gives one.
fn push_run(tokens: &mut Vec<Token>, line: &str, start: usize, end: usize, kind: TokenKind)
    requires
        start < end <= line@.len(),
        class_of(line@[start as int]) == Some(kind),
    ensures
        views(final(tokens)@) == views(old(tokens)@) + run_token(line@, start as int, end as int),
{
    let ghost v0 = views(tokens@);
    if kind != TokenKind::Space {
        let text = line.substring_char(start, end);
        tokens.push(Token::with_value(kind, text));
        assert(views(tokens@) == v0 + run_token(line@, start as int, end as int));
    } else {
        assert(views(tokens@) == v0 + run_token(line@, start as int, end as int));
    }
}

/// The tokens of a line between a start and an end marker: each maximal run of
/// punctuation or of word characters gives one token with its text, and runs of
/// whitespace give none.
pub fn tokenize(line: &str) -> (r: Result<Vec<Token>, TokenizeError>)
    ensures
        match r {
            Ok(v) => exists|t: Seq<TokenView>|
                line_tokens(line@) == Some(t) && views(v@) == seq![start_marker()] + t + seq![
                    end_marker(),
                ],
            Err(e) => e == TokenizeError::UnrecognizedCharacter && line_tokens(line@) is None,
        },
        line@.len() == 0 ==> (r matches Ok(v) && views(v@) == seq![start_marker(), end_marker()]),
{
    let ghost s = line@;
    let n = line.unicode_len();
    let mut tokens: Vec<Token> = Vec::new();
    tokens.push(Token::new(TokenKind::InputStart));
    let ghost first = views(tokens@);
    assert(first == seq![start_marker()]);
    if n == 0 {
        tokens.push(Token::new(TokenKind::InputEnd));
        assert(views(tokens@) == seq![start_marker()] + Seq::<TokenView>::empty() + seq![end_marker()]);
        return Ok(tokens);
    }
    let mut start_kind = match classify(line.get_char(0)) {
        Some(k) => k,
        None => {
            return Err(TokenizeError::UnrecognizedCharacter);
        },
    };
    let mut start: usize = 0;
    let mut i: usize = 1;
    while i < n
        invariant
            n == s.len(),
            s == line@,
            0 <= start < i <= n,
            class_of(s[start as int]) == Some(start_kind),
            views(tokens@).len() >= 1,
            views(tokens@)[0] == start_marker(),
            prepend(views(tokens@).drop_first(), scan(s, start as int, i as int)) == line_tokens(s),
        decreases n - i,
    {
        let c = line.get_char(i);
        match classify(c) {
            None => {
                return Err(TokenizeError::UnrecognizedCharacter);
            },
            Some(k) => {
                if k != start_kind {
                    let ghost before = views(tokens@);
                    push_run(&mut tokens, line, start, i, start_kind);
                    proof {
                        let run = run_token(s, start as int, i as int);
                        assert(views(tokens@) == before + run);
                        assert(views(tokens@).drop_first() == before.drop_first() + run);
                        assert(views(tokens@)[0] == before[0]);
                        match scan(s, i as int, i + 1) {
                            Some(rest) => {
                                assert(before.drop_first() + (run + rest) == (before.drop_first()
                                    + run) + rest);
                            },
                            None => {},
                        }
                    }
                    start = i;
                    start_kind = k;
                }
            },
        }
        i = i + 1;
    }
    let ghost before = views(tokens@);
    push_run(&mut tokens, line, start, n, start_kind);
    let ghost mid = views(tokens@);
    let ghost body = mid.drop_first();
    proof {
        assert(mid[0] == before[0]);
        assert(mid == seq![start_marker()] + body);
        assert(body == before.drop_first() + run_token(s, start as int, n as int));
    }
    tokens.push(Token::new(TokenKind::InputEnd));
    proof {
        assert(views(tokens@) == mid.push(end_marker()));
        assert(views(tokens@) == seq![start_marker()] + body + seq![end_marker()]);
    }
    Ok(tokens)
}

/// The characters of `s` that are not whitespace, in order.
pub open spec fn strip_whitespace(s: Seq<char>) -> Seq<char>
    decreases s.len(),
{
    if s.len() == 0 {
        Seq::empty()
    } else {
        strip_whitespace(s.drop_last()) + if whitespace_char(s.last()) {
            Seq::empty()
        } else {
            seq![s.last()]
        }
    }
}

/// The texts of the tokens of `t`, one after another, with nothing between.
pub open spec fn concat_texts(t: Seq<TokenView>) -> Seq<char>
    decreases t.len(),
{
    if t.len() == 0 {
        Seq::empty()
    } else {
        concat_texts(t.drop_last()) + match t.last().text {
            Some(x) => x,
            None => Seq::empty(),
        }
    }
}

proof fn lemma_strip_append(a: Seq<char>, b: Seq<char>)
    ensures
        strip_whitespace(a + b) == strip_whitespace(a) + strip_whitespace(b),
    decreases b.len(),
{
    if b.len() == 0 {
        assert(a + b == a);
    } else {
        assert((a + b).drop_last() == a + b.drop_last());
        lemma_strip_append(a, b.drop_last());
    }
}

proof fn lemma_concat_append(x: Seq<TokenView>, y: Seq<TokenView>)
    ensures
        concat_texts(x + y) == concat_texts(x) + concat_texts(y),
    decreases y.len(),
{
    if y.len() == 0 {
        assert(x + y == x);
    } else {
        assert((x + y).drop_last() == x + y.drop_last());
        lemma_concat_append(x, y.drop_last());
    }
}

proof fn lemma_strip_run(x: Seq<char>, white: bool)
    requires
        forall|k: int| 0 <= k < x.len() ==> whitespace_char(#[trigger] x[k]) == white,
    ensures
        strip_whitespace(x) == if white {
            Seq::<char>::empty()
        } else {
            x
        },
    decreases x.len(),
{
    if x.len() > 0 {
        lemma_strip_run(x.drop_last(), white);
        assert(whitespace_char(x[x.len() - 1]) == white);
        if !white {
            assert(x.drop_last().push(x.last()) == x);
        }
    }
}

/// A run of one class keeps in its token exactly its non-whitespace characters.
proof fn lemma_run_text(s: Seq<char>, start: int, end: int)
    requires
        0 <= start < end <= s.len(),
        class_of(s[start]) is Some,
        forall|k: int| start <= k < end ==> class_of(#[trigger] s[k]) == class_of(s[start]),
    ensures
        concat_texts(run_token(s, start, end)) == strip_whitespace(s.subrange(start, end)),
{
    let x = s.subrange(start, end);
    let white = class_of(s[start]) == Some(TokenKind::Space);
    assert forall|k: int| 0 <= k < x.len() implies whitespace_char(#[trigger] x[k]) == white by {
        assert(x[k] == s[start + k]);
        assert(class_of(s[start + k]) == class_of(s[start]));
    }
    lemma_strip_run(x, white);
    let r = run_token(s, start, end);
    if !white {
        assert(r.len() == 1);
        assert(r.drop_last().len() == 0);
        assert(concat_texts(r.drop_last()) == Seq::<char>::empty());
        assert(r.last().text == Some(x));
        assert(Seq::<char>::empty() + x == x);
    } else {
        assert(r.len() == 0);
    }
}

proof fn lemma_scan_text(s: Seq<char>, start: int, i: int, r: Seq<TokenView>)
    requires
        0 <= start < i <= s.len(),
        class_of(s[start]) is Some,
        forall|k: int| start <= k < i ==> class_of(#[trigger] s[k]) == class_of(s[start]),
        scan(s, start, i) == Some(r),
    ensures
        concat_texts(r) == strip_whitespace(s.subrange(start, s.len() as int)),
    decreases s.len() - i,
{
    if i >= s.len() {
        lemma_run_text(s, start, s.len() as int);
    } else if class_of(s[i]) == class_of(s[start]) {
        lemma_scan_text(s, start, i + 1, r);
    } else {
        let rest = scan(s, i, i + 1)->Some_0;
        lemma_scan_text(s, i, i + 1, rest);
        lemma_run_text(s, start, i);
        lemma_concat_append(run_token(s, start, i), rest);
        assert(s.subrange(start, s.len() as int) == s.subrange(start, i) + s.subrange(
            i,
            s.len() as int,
        ));
        lemma_strip_append(s.subrange(start, i), s.subrange(i, s.len() as int));
    }
}

/// The texts of a line's tokens, put one after another, are the line with its
/// whitespace removed: tokenizing drops whitespace and keeps every other
/// character, in order.
pub proof fn law_texts_rebuild_line(s: Seq<char>, t: Seq<TokenView>)
    requires
        line_tokens(s) == Some(t),
    ensures
        concat_texts(t) == strip_whitespace(s),
{
    if s.len() > 0 {
        lemma_scan_text(s, 0, 1, t);
        assert(s.subrange(0, s.len() as int) == s);
    }
}

} // verus!
