use vstd::prelude::*;
use crate::ast::{Sym, Tok};

verus! {

/// A token of the toy language.
#[derive(Debug)]
pub enum Token {
    Sym(Sym),
    Ident(String),
    Num(String),
}

impl View for Token {
    type V = Tok;

    open spec fn view(&self) -> Tok {
        match self {
            Token::Sym(s) => Tok::Sym(*s),
            Token::Ident(s) => Tok::Ident(s@),
            Token::Num(s) => Tok::Num(s@),
        }
    }
}

/// The abstract tokens of a token vector.
pub open spec fn toks_of(v: Seq<Token>) -> Seq<Tok> {
    v.map_values(|t: Token| t@)
}

pub open spec fn is_blank(c: char) -> bool {
    c == ' ' || c == '\t' || c == '\n'
}

pub open spec fn is_ident_start(c: char) -> bool {
    ('a' <= c && c <= 'z') || ('A' <= c && c <= 'Z') || c == '_'
}

pub open spec fn is_digit(c: char) -> bool {
    '0' <= c && c <= '9'
}

pub open spec fn is_ident_char(c: char) -> bool {
    is_ident_start(c) || is_digit(c)
}

/// Whether some token, or whitespace, starts at position `i` of `s`.
pub open spec fn starts_token(s: Seq<char>, i: int) -> bool {
    let c = s[i];
    is_blank(c) || is_ident_start(c) || is_digit(c) || c == '(' || c == ')' || c == '{' || c
        == '}' || c == ',' || c == '+' || c == '-' || c == '*' || c == '/' || c == '&' || c == '='
        || c == '<' || c == '>' || (c == '!' && i + 1 < s.len() && s[i + 1] == '=')
}

/// The length of the run of identifier characters that starts `s`.
pub open spec fn word_len(s: Seq<char>) -> nat
    decreases s.len(),
{
    if s.len() > 0 && is_ident_char(s[0]) {
        1 + word_len(s.drop_first())
    } else {
        0
    }
}

/// The length of the run of digits that starts `s`.
pub open spec fn digits_len(s: Seq<char>) -> nat
    decreases s.len(),
{
    if s.len() > 0 && is_digit(s[0]) {
        1 + digits_len(s.drop_first())
    } else {
        0
    }
}

/// A symbol of one character, or of two where the second is `second`.
pub open spec fn one_or_two(s: Seq<char>, second: char, one: Sym, two: Sym) -> (Option<Tok>, nat) {
    if s.len() > 1 && s[1] == second {
        (Some(Tok::Sym(two)), 2)
    } else {
        (Some(Tok::Sym(one)), 1)
    }
}

/// What the longest match at the start of a non-empty `s` gives: a token,
/// or nothing for a space or tab, and how many characters it takes; `None`
/// if no token starts there.
pub open spec fn step(s: Seq<char>) -> Option<(Option<Tok>, nat)> {
    let c = s[0];
    if c == ' ' || c == '\t' {
        Some((None, 1))
    } else if is_ident_start(c) {
        Some((Some(Tok::Ident(s.take(word_len(s) as int))), word_len(s)))
    } else if is_digit(c) {
        Some((Some(Tok::Num(s.take(digits_len(s) as int))), digits_len(s)))
    } else if c == '\n' {
        Some((Some(Tok::Sym(Sym::Newline)), 1))
    } else if c == '(' {
        Some((Some(Tok::Sym(Sym::LParen)), 1))
    } else if c == ')' {
        Some((Some(Tok::Sym(Sym::RParen)), 1))
    } else if c == '{' {
        Some((Some(Tok::Sym(Sym::LBrace)), 1))
    } else if c == '}' {
        Some((Some(Tok::Sym(Sym::RBrace)), 1))
    } else if c == ',' {
        Some((Some(Tok::Sym(Sym::Comma)), 1))
    } else if c == '+' {
        Some((Some(Tok::Sym(Sym::Plus)), 1))
    } else if c == '*' {
        Some((Some(Tok::Sym(Sym::Star)), 1))
    } else if c == '/' {
        Some((Some(Tok::Sym(Sym::Slash)), 1))
    } else if c == '&' {
        Some((Some(Tok::Sym(Sym::Amp)), 1))
    } else if c == '-' {
        Some(one_or_two(s, '>', Sym::Minus, Sym::Arrow))
    } else if c == '=' {
        Some(one_or_two(s, '=', Sym::Assign, Sym::EqEq))
    } else if c == '<' {
        Some(one_or_two(s, '=', Sym::Less, Sym::LessEq))
    } else if c == '>' {
        Some(one_or_two(s, '=', Sym::Greater, Sym::GreaterEq))
    } else if c == '!' && s.len() > 1 && s[1] == '=' {
        Some((Some(Tok::Sym(Sym::NotEq)), 2))
    } else {
        None
    }
}

/// `pre` before the tokens of `rest`, if `rest` has any.
pub open spec fn prepend(pre: Seq<Tok>, rest: Option<Seq<Tok>>) -> Option<Seq<Tok>> {
    match rest {
        Some(r) => Some(pre + r),
        None => None,
    }
}

/// The tokens of a text by longest match, left to right: spaces and tabs
/// separate tokens and are dropped, each newline is a token of its own;
/// `None` if some character starts no token.
pub open spec fn tokens(s: Seq<char>) -> Option<Seq<Tok>>
    decreases s.len(),
{
    if s.len() == 0 {
        Some(Seq::empty())
    } else {
        match step(s) {
            None => None,
            Some((t, n)) => if 0 < n <= s.len() {
                match t {
                    Some(t) => prepend(seq![t], tokens(s.skip(n as int))),
                    None => tokens(s.skip(n as int)),
                }
            } else {
                None
            },
        }
    }
}

pub(crate) proof fn lemma_word_len(s: Seq<char>, i: int, j: int)
    requires
        0 <= i <= j <= s.len(),
        forall|k: int| i <= k < j ==> is_ident_char(#[trigger] s[k]),
        j == s.len() || !is_ident_char(s[j]),
    ensures
        word_len(s.skip(i)) == j - i,
    decreases j - i,
{
    if i < j {
        assert(s.skip(i).drop_first() =~= s.skip(i + 1));
        lemma_word_len(s, i + 1, j);
    }
}

pub(crate) proof fn lemma_digits_len(s: Seq<char>, i: int, j: int)
    requires
        0 <= i <= j <= s.len(),
        forall|k: int| i <= k < j ==> is_digit(#[trigger] s[k]),
        j == s.len() || !is_digit(s[j]),
    ensures
        digits_len(s.skip(i)) == j - i,
    decreases j - i,
{
    if i < j {
        assert(s.skip(i).drop_first() =~= s.skip(i + 1));
        lemma_digits_len(s, i + 1, j);
    }
}

fn ident_start(c: char) -> (r: bool)
    ensures
        r == is_ident_start(c),
{
    ('a' <= c && c <= 'z') || ('A' <= c && c <= 'Z') || c == '_'
}

fn digit(c: char) -> (r: bool)
    ensures
        r == is_digit(c),
{
    '0' <= c && c <= '9'
}

fn ident_char(c: char) -> (r: bool)
    ensures
        r == is_ident_char(c),
{
    ident_start(c) || digit(c)
}

/// The characters of a string.
fn chars_of(src: &str) -> (r: Vec<char>)
    ensures
        r@ == src@,
{
    let n = src.unicode_len();
    let mut r: Vec<char> = Vec::new();
    let mut i: usize = 0;
    while i < n
        invariant
            n == src@.len(),
            i <= n,
            r@ == src@.subrange(0, i as int),
        decreases n - i,
    {
        r.push(src.get_char(i));
        i = i + 1;
    }
    assert(r@ =~= src@);
    r
}

/// Splits source text into tokens, as `tokens` says. On a character that
/// starts no token, returns its position.
pub fn lex(src: &str) -> (r: Result<Vec<Token>, usize>)
    ensures
        r is Ok <==> tokens(src@) is Some,
        r is Ok ==> toks_of(r->Ok_0@) == tokens(src@)->Some_0,
        r matches Err(p) ==> p < src@.len() && !starts_token(src@, p as int),
{
    let chars = chars_of(src);
    let n = chars.len();
    let ghost s = src@;
    let mut toks: Vec<Token> = Vec::new();
    let mut i: usize = 0;
    assert(s.skip(0) =~= s);
    assert(toks_of(toks@) =~= Seq::<Tok>::empty());
    while i < n
        invariant
            n == chars@.len(),
            chars@ == s,
            s == src@,
            i <= n,
            tokens(s) == prepend(toks_of(toks@), tokens(s.skip(i as int))),
        decreases n - i,
    {
        let ghost si = s.skip(i as int);
        let c = chars[i];
        let mut j: usize = i + 1;
        let tok: Option<Token>;
        if c == ' ' || c == '\t' {
            tok = None;
        } else if ident_start(c) {
            while j < n && ident_char(chars[j])
                invariant
                    i < j <= n,
                    n == chars@.len(),
                    is_ident_char(chars@[i as int]),
                    forall|k: int| i <= k < j ==> is_ident_char(#[trigger] chars@[k]),
                decreases n - j,
            {
                j = j + 1;
            }
            proof {
                lemma_word_len(s, i as int, j as int);
                assert(si.take(j - i) =~= s.subrange(i as int, j as int));
            }
            let text = src.substring_char(i, j).to_owned();
            tok = Some(Token::Ident(text));
        } else if digit(c) {
            while j < n && digit(chars[j])
                invariant
                    i < j <= n,
                    n == chars@.len(),
                    forall|k: int| i <= k < j ==> is_digit(#[trigger] chars@[k]),
                decreases n - j,
            {
                j = j + 1;
            }
            proof {
                lemma_digits_len(s, i as int, j as int);
                assert(si.take(j - i) =~= s.subrange(i as int, j as int));
            }
            tok = Some(Token::Num(src.substring_char(i, j).to_owned()));
        } else if c == '\n' {
            tok = Some(Token::Sym(Sym::Newline));
        } else if c == '(' {
            tok = Some(Token::Sym(Sym::LParen));
        } else if c == ')' {
            tok = Some(Token::Sym(Sym::RParen));
        } else if c == '{' {
            tok = Some(Token::Sym(Sym::LBrace));
        } else if c == '}' {
            tok = Some(Token::Sym(Sym::RBrace));
        } else if c == ',' {
            tok = Some(Token::Sym(Sym::Comma));
        } else if c == '+' {
            tok = Some(Token::Sym(Sym::Plus));
        } else if c == '*' {
            tok = Some(Token::Sym(Sym::Star));
        } else if c == '/' {
            tok = Some(Token::Sym(Sym::Slash));
        } else if c == '&' {
            tok = Some(Token::Sym(Sym::Amp));
        } else if c == '-' {
            if j < n && chars[j] == '>' {
                j = j + 1;
                tok = Some(Token::Sym(Sym::Arrow));
            } else {
                tok = Some(Token::Sym(Sym::Minus));
            }
        } else if c == '=' {
            if j < n && chars[j] == '=' {
                j = j + 1;
                tok = Some(Token::Sym(Sym::EqEq));
            } else {
                tok = Some(Token::Sym(Sym::Assign));
            }
        } else if c == '<' {
            if j < n && chars[j] == '=' {
                j = j + 1;
                tok = Some(Token::Sym(Sym::LessEq));
            } else {
                tok = Some(Token::Sym(Sym::Less));
            }
        } else if c == '>' {
            if j < n && chars[j] == '=' {
                j = j + 1;
                tok = Some(Token::Sym(Sym::GreaterEq));
            } else {
                tok = Some(Token::Sym(Sym::Greater));
            }
        } else if c == '!' && j < n && chars[j] == '=' {
            j = j + 1;
            tok = Some(Token::Sym(Sym::NotEq));
        } else {
            proof {
                assert(step(si) is None);
                assert(tokens(si) is None);
            }
            return Err(i);
        }
        let ghost tv: Option<Tok> = match &tok {
            Some(t) => Some(t@),
            None => None,
        };
        proof {
            assert(si.skip(j - i) =~= s.skip(j as int));
            assert(step(si) == Some((tv, (j - i) as nat)));
        }
        let ghost before = toks_of(toks@);
        match tok {
            Some(t) => {
                toks.push(t);
                assert(toks_of(toks@) =~= before + seq![tv->Some_0]);
            },
            None => {},
        }
        i = j;
    }
    assert(s.skip(n as int) =~= Seq::<char>::empty());
    assert(toks_of(toks@) + Seq::<Tok>::empty() =~= toks_of(toks@));
    Ok(toks)
}

} // verus!
