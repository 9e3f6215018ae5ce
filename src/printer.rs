use vstd::prelude::*;
use crate::ast::{FunctionDef, Sym, Tok, emit_function};
use crate::grammar::canonical;
use crate::lexer::{is_digit, is_ident_char, is_ident_start, tokens, step, word_len, digits_len,
    lemma_word_len, lemma_digits_len};
use crate::parser::{parses_to, skip_newlines};

verus! {

/// The text of a keyword, operator or punctuation mark.
pub open spec fn sym_text(s: Sym) -> Seq<char> {
    match s {
        Sym::LParen => seq!['('],
        Sym::RParen => seq![')'],
        Sym::LBrace => seq!['{'],
        Sym::RBrace => seq!['}'],
        Sym::Comma => seq![','],
        Sym::Arrow => seq!['-', '>'],
        Sym::Newline => seq!['\n'],
        Sym::Assign => seq!['='],
        Sym::EqEq => seq!['=', '='],
        Sym::NotEq => seq!['!', '='],
        Sym::Less => seq!['<'],
        Sym::LessEq => seq!['<', '='],
        Sym::Greater => seq!['>'],
        Sym::GreaterEq => seq!['>', '='],
        Sym::Plus => seq!['+'],
        Sym::Minus => seq!['-'],
        Sym::Star => seq!['*'],
        Sym::Slash => seq!['/'],
        Sym::Amp => seq!['&'],
    }
}

/// The text of a token.
pub open spec fn tok_text(t: Tok) -> Seq<char> {
    match t {
        Tok::Sym(s) => sym_text(s),
        Tok::Ident(w) => w,
        Tok::Num(d) => d,
    }
}

/// Tokens printed one after another, each followed by a space.
pub open spec fn print_toks(ts: Seq<Tok>) -> Seq<char>
    decreases ts.len(),
{
    if ts.len() == 0 {
        Seq::empty()
    } else {
        tok_text(ts[0]) + seq![' '] + print_toks(ts.drop_first())
    }
}

/// A token that its text gives back: a name of identifier characters that
/// starts with a letter or `_`, or a number of digits.
pub open spec fn well_spelled(t: Tok) -> bool {
    match t {
        Tok::Ident(w) => w.len() > 0 && is_ident_start(w[0]) && forall|i: int| 0 <= i < w.len()
            ==> is_ident_char(#[trigger] w[i]),
        Tok::Num(d) => d.len() > 0 && forall|i: int| 0 <= i < d.len() ==> is_digit(#[trigger] d[i]),
        Tok::Sym(_) => true,
    }
}

/// A token's text followed by a space is tokenized back to that token.
proof fn lemma_step_one(t: Tok, rest: Seq<char>)
    requires
        well_spelled(t),
    ensures
        ({
            let s = tok_text(t) + seq![' '] + rest;
            step(s) == Some((Some(t), tok_text(t).len())) && 0 < tok_text(t).len() <= s.len()
        }),
{
    let s = tok_text(t) + seq![' '] + rest;
    let n = tok_text(t).len() as int;
    match t {
        Tok::Ident(w) => {
            assert forall|k: int| 0 <= k < n implies is_ident_char(#[trigger] s[k]) by {
                assert(s[k] == w[k]);
            }
            assert(s[n] == ' ');
            lemma_word_len(s, 0, n);
            assert(s.skip(0) =~= s);
            assert(s.take(n) =~= w);
            assert(s[0] == w[0]);
        },
        Tok::Num(d) => {
            assert forall|k: int| 0 <= k < n implies is_digit(#[trigger] s[k]) by {
                assert(s[k] == d[k]);
            }
            assert(s[n] == ' ');
            lemma_digits_len(s, 0, n);
            assert(s.skip(0) =~= s);
            assert(s.take(n) =~= d);
            assert(s[0] == d[0]);
        },
        Tok::Sym(x) => {
            assert(s[0] == sym_text(x)[0]);
            assert(s[n] == ' ');
            if n == 2 {
                assert(s[1] == sym_text(x)[1]);
            }
        },
    }
}

/// Printed well-spelled tokens are tokenized back to themselves.
pub proof fn lemma_print_tokens(ts: Seq<Tok>)
    requires
        forall|i: int| 0 <= i < ts.len() ==> well_spelled(#[trigger] ts[i]),
    ensures
        tokens(print_toks(ts)) == Some(ts),
    decreases ts.len(),
{
    if ts.len() > 0 {
        let rest = print_toks(ts.drop_first());
        let s = print_toks(ts);
        let n = tok_text(ts[0]).len() as int;
        assert(s == tok_text(ts[0]) + seq![' '] + rest);
        lemma_step_one(ts[0], rest);
        assert forall|i: int| 0 <= i < ts.drop_first().len() implies well_spelled(
            #[trigger] ts.drop_first()[i],
        ) by {
            assert(ts.drop_first()[i] == ts[i + 1]);
        }
        lemma_print_tokens(ts.drop_first());
        let s1 = s.skip(n);
        assert(s1 =~= seq![' '] + rest);
        assert(step(s1) == Some((None::<Tok>, 1nat)));
        assert(s1.skip(1) =~= rest);
        assert(tokens(s1) == tokens(rest));
        assert(tokens(s) == crate::lexer::prepend(seq![ts[0]], tokens(s1)));
        assert(seq![ts[0]] + ts.drop_first() =~= ts);
    } else {
        assert(ts =~= Seq::<Tok>::empty());
    }
}

/// Printing a canonical definition whose names and numbers are well
/// spelled, and parsing the text back, gives a definition that prints the
/// same tokens: the text is that of the definition, and of no definition
/// that prints otherwise.
pub proof fn lemma_print_parse_round_trip(f: FunctionDef, g: FunctionDef)
    requires
        canonical(f),
        forall|i: int| 0 <= i < emit_function(f).len() ==> well_spelled(#[trigger] emit_function(f)[i]),
    ensures
        parses_to(print_toks(emit_function(f)), f),
        parses_to(print_toks(emit_function(f)), g) ==> emit_function(g) == emit_function(f),
{
    lemma_print_tokens(emit_function(f));
    assert(emit_function(f)[0] == Tok::Ident(crate::ast::kw_fn()));
}

} // verus!
