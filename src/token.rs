use vstd::prelude::*;
use vstd::string::StrSliceExecFns;

verus! {

/// The five kinds of token.
#[derive(Clone, Copy, Debug, PartialEq, Eq, Structural, Hash)]
pub enum TokenKind {
    InputStart,
    Punct,
    Word,
    Space,
    InputEnd,
}

/// The name of each kind, as `as_str` gives it.
pub open spec fn kind_name(k: TokenKind) -> Seq<char> {
    match k {
        TokenKind::InputStart => "InputStart"@,
        TokenKind::InputEnd => "InputEnd"@,
        TokenKind::Punct => "Punct"@,
        TokenKind::Word => "Word"@,
        TokenKind::Space => "Space"@,
    }
}

/// Whether `s` names one of the kinds.
pub open spec fn is_kind_name(s: Seq<char>) -> bool {
    exists|k: TokenKind| kind_name(k) == s
}

/// Character-by-character equality of two strings.
fn str_equals(a: &str, b: &str) -> (r: bool)
    ensures
        r == (a@ == b@),
{
    let n = a.unicode_len();
    if n != b.unicode_len() {
        return false;
    }
    let mut i: usize = 0;
    while i < n
        invariant
            n == a@.len(),
            n == b@.len(),
            i <= n,
            a@.subrange(0, i as int) == b@.subrange(0, i as int),
        decreases n - i,
    {
        if a.get_char(i) != b.get_char(i) {
            assert(a@[i as int] != b@[i as int]);
            return false;
        }
        assert(a@.subrange(0, i + 1) == a@.subrange(0, i as int).push(a@[i as int]));
        assert(b@.subrange(0, i + 1) == b@.subrange(0, i as int).push(b@[i as int]));
        i = i + 1;
    }
    assert(a@ == a@.subrange(0, n as int));
    assert(b@ == b@.subrange(0, n as int));
    true
}

impl TokenKind {
    /// The kind's name.
    pub fn as_str(self) -> (r: &'static str)
        ensures
            r@ == kind_name(self),
    {
        match self {
            TokenKind::InputStart => "InputStart",
            TokenKind::InputEnd => "InputEnd",
            TokenKind::Punct => "Punct",
            TokenKind::Word => "Word",
            TokenKind::Space => "Space",
        }
    }

    /// The kind with the given name.
    pub fn with_name(s: &str) -> (r: TokenKind)
        requires
            is_kind_name(s@),
        ensures
            kind_name(r) == s@,
    {
        proof {
            reveal_strlit("InputStart");
            reveal_strlit("InputEnd");
            reveal_strlit("Punct");
            reveal_strlit("Word");
            reveal_strlit("Space");
        }
        if str_equals(s, "InputStart") {
            TokenKind::InputStart
        } else if str_equals(s, "InputEnd") {
            TokenKind::InputEnd
        } else if str_equals(s, "Punct") {
            TokenKind::Punct
        } else if str_equals(s, "Word") {
            TokenKind::Word
        } else {
            proof {
                let k = choose|k: TokenKind| kind_name(k) == s@;
                assert(k == TokenKind::Space);
            }
            TokenKind::Space
        }
    }
}

/// What a token is: its kind and, for words and punctuation, its text.
pub struct TokenView {
    pub kind: TokenKind,
    pub text: Option<Seq<char>>,
}

/// One token. Two tokens are the same token when kind and text agree.
#[derive(Clone, Debug, PartialEq, Eq, Hash)]
pub struct Token {
    pub value: Option<String>,
    pub kind: TokenKind,
}

impl View for Token {
    type V = TokenView;

    open spec fn view(&self) -> TokenView {
        TokenView {
            kind: self.kind,
            text: match self.value {
                Some(s) => Some(s@),
                None => None,
            },
        }
    }
}

/// The start marker.
pub open spec fn start_marker() -> TokenView {
    TokenView { kind: TokenKind::InputStart, text: None }
}

/// The end marker.
pub open spec fn end_marker() -> TokenView {
    TokenView { kind: TokenKind::InputEnd, text: None }
}

impl Token {
    /// A token with no text.
    pub fn new(kind: TokenKind) -> (r: Token)
        ensures
            r@ == (TokenView { kind: kind, text: None }),
    {
        Token { value: None, kind: kind }
    }

    /// A token carrying a copy of `value`.
    pub fn with_value(kind: TokenKind, value: &str) -> (r: Token)
        ensures
            r@ == (TokenView { kind: kind, text: Some(value@) }),
    {
        Token { value: Some(value.to_owned()), kind: kind }
    }

    /// False exactly for the end marker's kind.
    pub fn is_not_end(&self) -> (r: bool)
        ensures
            r == (self.kind != TokenKind::InputEnd),
    {
        match self.kind {
            TokenKind::InputEnd => false,
            _ => true,
        }
    }

    /// The token's text, if it has one.
    pub fn value(&self) -> (r: Option<&str>)
        ensures
            match r {
                Some(s) => self@.text == Some(s@),
                None => self@.text is None,
            },
    {
        match &self.value {
            Some(s) => Some(s.as_str()),
            None => None,
        }
    }

    /// Whether two tokens are the same token.
    pub fn same_as(&self, other: &Token) -> (r: bool)
        ensures
            r == (self@ == other@),
    {
        if self.kind != other.kind {
            return false;
        }
        match (&self.value, &other.value) {
            (Some(a), Some(b)) => {
                let same = a.eq(b);
                assert(same ==> self@.text == other@.text);
                assert(!same ==> self@.text != other@.text);
                same
            },
            (None, None) => true,
            _ => false,
        }
    }

    /// A copy of the token.
    pub fn duplicate(&self) -> (r: Token)
        ensures
            r@ == self@,
    {
        let value = match &self.value {
            Some(s) => Some(s.clone()),
            None => None,
        };
        Token { value: value, kind: self.kind }
    }
}

} // verus!
