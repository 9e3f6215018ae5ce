use vstd::prelude::*;
use crate::ast::{Expr, FunctionDef, Sym, Tok, kw_fn, kw_if, kw_else, kw_while, emit_expr, emit_stmts, emit_args, emit_params,
    emit_function, names_of};
use crate::lexer::{Token, toks_of, lex, starts_token, tokens};
use crate::grammar::{level_of, canon, canon_all, canonical, derives, derives_stmts, derives_args,
    lemma_canon_down, lemma_derives_if, lemma_derives_while, lemma_derives_assign,
    lemma_derives_plain, lemma_derives_level, lemma_derives_atom, lemma_stmts_step,
    lemma_args_step, lemma_shape, lemma_fn_tokens, starts_expr};

verus! {

/// What remains of a token sequence once its leading newlines are dropped.
pub open spec fn skip_newlines(s: Seq<Tok>) -> Seq<Tok>
    decreases s.len(),
{
    if s.len() > 0 && s[0] == Tok::Sym(Sym::Newline) {
        skip_newlines(s.drop_first())
    } else {
        s
    }
}

fn sym_level(s: Sym) -> (r: u8)
    ensures
        r == level_of(s),
{
    match s {
        Sym::EqEq | Sym::NotEq | Sym::Less | Sym::LessEq | Sym::Greater | Sym::GreaterEq => 1,
        Sym::Plus | Sym::Minus => 2,
        Sym::Star | Sym::Slash => 3,
        _ => 0,
    }
}

/// The binary node of operator `op` over `a` and `b`.
fn binary(op: Sym, a: Expr, b: Expr) -> (r: Expr)
    requires
        level_of(op) != 0,
    ensures
        emit_expr(r) == emit_expr(a) + seq![Tok::Sym(op)] + emit_expr(b),
        canon(r, level_of(op) as int) == (canon(a, level_of(op) + 1) && canon(b, level_of(op) as int)),
{
    let (a, b) = (Box::new(a), Box::new(b));
    match op {
        Sym::EqEq => Expr::Eq(a, b),
        Sym::NotEq => Expr::Ne(a, b),
        Sym::Less => Expr::Lt(a, b),
        Sym::LessEq => Expr::Le(a, b),
        Sym::Greater => Expr::Gt(a, b),
        Sym::GreaterEq => Expr::Ge(a, b),
        Sym::Plus => Expr::Add(a, b),
        Sym::Minus => Expr::Sub(a, b),
        Sym::Star => Expr::Mul(a, b),
        _ => Expr::Div(a, b),
    }
}

/// Whether the token at `pos` is the symbol `s`.
fn sym_at(toks: &Vec<Token>, pos: usize, s: Sym) -> (r: bool)
    ensures
        r == (pos < toks@.len() && toks@[pos as int]@ == Tok::Sym(s)),
{
    if pos < toks.len() {
        match &toks[pos] {
            Token::Sym(t) => *t == s,
            _ => false,
        }
    } else {
        false
    }
}

/// The identifier at `pos`, if there is one.
fn ident_at(toks: &Vec<Token>, pos: usize) -> (r: Option<String>)
    ensures
        r is Some <==> pos < toks@.len() && toks@[pos as int]@ is Ident,
        r is Some ==> toks@[pos as int]@ == Tok::Ident(r->Some_0@),
{
    if pos < toks.len() {
        match &toks[pos] {
            Token::Ident(n) => Some(n.clone()),
            _ => None,
        }
    } else {
        None
    }
}

/// Whether two texts are equal.
fn same_text(a: &str, b: &str) -> (r: bool)
    ensures
        r == (a@ == b@),
{
    let n = a.unicode_len();
    if n != b.unicode_len() {
        return false;
    }
    let mut i: usize = 0;
    while i < n
        invariant
            n == a@.len(),
            n == b@.len(),
            i <= n,
            forall|k: int| 0 <= k < i ==> a@[k] == b@[k],
        decreases n - i,
    {
        if a.get_char(i) != b.get_char(i) {
            return false;
        }
        i = i + 1;
    }
    assert(a@ =~= b@);
    true
}

/// Whether the token at `pos` is the word `w`.
fn word_at(toks: &Vec<Token>, pos: usize, w: &str) -> (r: bool)
    ensures
        r == (pos < toks@.len() && toks@[pos as int]@ == Tok::Ident(w@)),
{
    if pos < toks.len() {
        match &toks[pos] {
            Token::Ident(s) => same_text(s.as_str(), w),
            _ => false,
        }
    } else {
        false
    }
}

/// Whether an expression can start at `pos`.
fn starts_at(toks: &Vec<Token>, pos: usize) -> (r: bool)
    ensures
        r == (pos < toks@.len() && starts_expr(toks@[pos as int]@)),
{
    if pos < toks.len() {
        match &toks[pos] {
            Token::Sym(s) => *s == Sym::Amp,
            _ => true,
        }
    } else {
        false
    }
}

/// Parses an expression at `pos`, at precedence `level`: 0 for a whole
/// expression (`if`, `while`, assignment or comparison), 1 for a comparison,
/// 2 for a sum, 3 for a product and 4 for an atom. Binary operators nest to
/// the right. On success returns the expression and the position after it;
/// on failure, the position of the offending token. It succeeds on every
/// expression of that shape that the tokens at `pos` print, when the token
/// after it ends it.
pub fn parse_expr(toks: &Vec<Token>, pos: usize, level: u8) -> (r: Result<(Expr, usize), usize>)
    requires
        pos <= toks@.len(),
        level <= 4,
    ensures
        r matches Ok((e, q)) ==> pos < q <= toks@.len()
            && toks_of(toks@).subrange(pos as int, q as int) == emit_expr(e)
            && canon(e, level as int),
        forall|e: Expr| #[trigger] derives(toks_of(toks@), pos as int, e, level as int)
            ==> (r matches Ok((_, q)) && q == pos + emit_expr(e).len()),
    decreases toks@.len() - pos, 4 - level, 1int,
{
    let n = toks.len();
    let ghost t = toks_of(toks@);
    let ghost p0 = pos as int;
    if level == 0 {
        proof {
            reveal_strlit("if");
            reveal_strlit("while");
        }
        assert("if"@ =~= kw_if());
        assert("while"@ =~= kw_while());
        if word_at(toks, pos, "if") && starts_at(toks, pos + 1) {
            return parse_if(toks, pos);
        }
        if word_at(toks, pos, "while") && starts_at(toks, pos + 1) {
            return parse_while(toks, pos);
        }
        let target = ident_at(toks, pos);
        if target.is_some() && sym_at(toks, pos + 1, Sym::Assign) {
            let name = target.unwrap();
            let (rhs, q) = match parse_expr(toks, pos + 2, 0) {
                Ok(x) => x,
                Err(p) => {
                    proof {
                        assert forall|e: Expr| derives(t, p0, e, 0) implies false by {
                            lemma_derives_assign(t, p0, e);
                        }
                    }
                    return Err(p);
                },
            };
            let e = Expr::Assign(name, Box::new(rhs));
            assert(t.subrange(pos as int, q as int) =~= seq![t[pos as int], t[pos + 1]]
                + t.subrange(pos + 2, q as int));
            proof {
                assert forall|e2: Expr| #[trigger] derives(t, p0, e2, 0) implies q == pos
                    + emit_expr(e2).len() by {
                    lemma_derives_assign(t, p0, e2);
                }
            }
            return Ok((e, q));
        }
        proof {
            assert forall|e: Expr| #[trigger] derives(t, p0, e, 0) implies derives(t, p0, e, 1) by {
                lemma_shape(e, 0);
                lemma_derives_plain(t, p0, e);
            }
        }
        match parse_expr(toks, pos, 1) {
            Ok((e, q)) => {
                proof {
                    lemma_canon_down(e, 0);
                }
                Ok((e, q))
            },
            Err(p) => Err(p),
        }
    } else if level <= 3 {
        let ghost l = level as int;
        let (a, q) = match parse_expr(toks, pos, level + 1) {
            Ok(x) => x,
            Err(p) => {
                proof {
                    assert forall|e: Expr| derives(t, p0, e, l) implies false by {
                        lemma_derives_level(t, p0, e, l);
                    }
                }
                return Err(p);
            },
        };
        let next_op: Option<Sym> = if q < n {
            match &toks[q] {
                Token::Sym(s) => if sym_level(*s) == level {
                    Some(*s)
                } else {
                    None
                },
                _ => None,
            }
        } else {
            None
        };
        match next_op {
            Some(op) => {
                let (b, q1) = match parse_expr(toks, q + 1, level) {
                    Ok(x) => x,
                    Err(p) => {
                        proof {
                            assert forall|e: Expr| derives(t, p0, e, l) implies false by {
                                lemma_derives_level(t, p0, e, l);
                            }
                        }
                        return Err(p);
                    },
                };
                let e = binary(op, a, b);
                assert(t.subrange(pos as int, q1 as int) =~= t.subrange(pos as int, q as int)
                    + seq![t[q as int]] + t.subrange(q + 1, q1 as int));
                proof {
                    assert forall|e2: Expr| #[trigger] derives(t, p0, e2, l) implies q1 == pos
                        + emit_expr(e2).len() by {
                        lemma_derives_level(t, p0, e2, l);
                    }
                }
                Ok((e, q1))
            },
            None => {
                proof {
                    lemma_canon_down(a, l);
                    assert forall|e2: Expr| #[trigger] derives(t, p0, e2, l) implies q == pos
                        + emit_expr(e2).len() by {
                        lemma_derives_level(t, p0, e2, l);
                    }
                }
                Ok((a, q))
            },
        }
    } else {
        let name = ident_at(toks, pos);
        if name.is_some() {
            let name = name.unwrap();
            if sym_at(toks, pos + 1, Sym::LParen) {
                let (args, q) = match parse_args(toks, pos + 2) {
                    Ok(x) => x,
                    Err(p) => {
                        proof {
                            assert forall|e: Expr| derives(t, p0, e, 4) implies false by {
                                lemma_derives_atom(t, p0, e);
                            }
                        }
                        return Err(p);
                    },
                };
                let e = Expr::Call(name, args);
                assert(t.subrange(pos as int, q as int) =~= seq![t[pos as int], t[pos + 1]]
                    + t.subrange(pos + 2, q as int));
                proof {
                    assert forall|e2: Expr| #[trigger] derives(t, p0, e2, 4) implies q == pos
                        + emit_expr(e2).len() by {
                        lemma_derives_atom(t, p0, e2);
                    }
                }
                return Ok((e, q));
            }
            assert(t.subrange(pos as int, pos + 1) =~= seq![t[pos as int]]);
            proof {
                assert forall|e2: Expr| #[trigger] derives(t, p0, e2, 4) implies pos + 1 == pos
                    + emit_expr(e2).len() by {
                    lemma_derives_atom(t, p0, e2);
                }
            }
            return Ok((Expr::Identifier(name), pos + 1));
        }
        if pos < n {
            if let Token::Num(d) = &toks[pos] {
                assert(t.subrange(pos as int, pos + 1) =~= seq![t[pos as int]]);
                proof {
                    assert forall|e2: Expr| #[trigger] derives(t, p0, e2, 4) implies pos + 1 == pos
                        + emit_expr(e2).len() by {
                        lemma_derives_atom(t, p0, e2);
                    }
                }
                return Ok((Expr::Literal(d.clone()), pos + 1));
            }
        }
        if sym_at(toks, pos, Sym::Amp) {
            let name = ident_at(toks, pos + 1);
            if name.is_some() {
                let name = name.unwrap();
                assert(t.subrange(pos as int, pos + 2) =~= seq![t[pos as int], t[pos + 1]]);
                proof {
                    assert forall|e2: Expr| #[trigger] derives(t, p0, e2, 4) implies pos + 2 == pos
                        + emit_expr(e2).len() by {
                        lemma_derives_atom(t, p0, e2);
                    }
                }
                return Ok((Expr::GlobalDataAddr(name), pos + 2));
            }
            proof {
                assert forall|e: Expr| derives(t, p0, e, 4) implies false by {
                    lemma_derives_atom(t, p0, e);
                }
            }
            return Err(pos + 1);
        }
        proof {
            assert forall|e: Expr| derives(t, p0, e, 4) implies false by {
                lemma_shape(e, 4);
                lemma_derives_atom(t, p0, e);
            }
        }
        Err(pos)
    }
}

/// Parses an `if`/`else` at `pos`.
fn parse_if(toks: &Vec<Token>, pos: usize) -> (r: Result<(Expr, usize), usize>)
    requires
        pos < toks@.len(),
        toks@[pos as int]@ == Tok::Ident(kw_if()),
        pos + 1 < toks@.len(),
        starts_expr(toks@[pos + 1]@),
    ensures
        r matches Ok((e, q)) ==> pos < q <= toks@.len()
            && toks_of(toks@).subrange(pos as int, q as int) == emit_expr(e) && canon(e, 0),
        forall|e: Expr| #[trigger] derives(toks_of(toks@), pos as int, e, 0)
            ==> (r matches Ok((_, q)) && q == pos + emit_expr(e).len()),
    decreases toks@.len() - pos, 4int, 0int,
{
    let n = toks.len();
    let ghost t = toks_of(toks@);
    let ghost p0 = pos as int;
        let (c, q) = match parse_expr(toks, pos + 1, 0) {
            Ok(x) => x,
            Err(p) => {
                proof {
                    assert forall|e: Expr| derives(t, p0, e, 0) implies false by {
                        lemma_derives_if(t, p0, e);
                    }
                }
                return Err(p);
            },
        };
        if !(sym_at(toks, q, Sym::LBrace) && sym_at(toks, q + 1, Sym::Newline)) {
            proof {
                assert forall|e: Expr| derives(t, p0, e, 0) implies false by {
                    lemma_derives_if(t, p0, e);
                }
            }
            return Err(q);
        }
        let (then_body, q1) = match parse_stmts(toks, q + 2) {
            Ok(x) => x,
            Err(p) => {
                proof {
                    assert forall|e: Expr| derives(t, p0, e, 0) implies false by {
                        lemma_derives_if(t, p0, e);
                    }
                }
                return Err(p);
            },
        };
        proof {
            reveal_strlit("else");
        }
        assert("else"@ =~= kw_else());
        if !(sym_at(toks, q1, Sym::RBrace) && word_at(toks, q1 + 1, "else") && sym_at(
            toks,
            q1 + 2,
            Sym::LBrace,
        ) && sym_at(toks, q1 + 3, Sym::Newline)) {
            proof {
                assert forall|e: Expr| derives(t, p0, e, 0) implies false by {
                    lemma_derives_if(t, p0, e);
                }
            }
            return Err(q1);
        }
        let (else_body, q2) = match parse_stmts(toks, q1 + 4) {
            Ok(x) => x,
            Err(p) => {
                proof {
                    assert forall|e: Expr| derives(t, p0, e, 0) implies false by {
                        lemma_derives_if(t, p0, e);
                    }
                }
                return Err(p);
            },
        };
        if !sym_at(toks, q2, Sym::RBrace) {
            proof {
                assert forall|e: Expr| derives(t, p0, e, 0) implies false by {
                    lemma_derives_if(t, p0, e);
                }
            }
            return Err(q2);
        }
        let e = Expr::IfElse(Box::new(c), then_body, else_body);
        assert(t.subrange(pos as int, q2 + 1) =~= seq![t[pos as int]] + t.subrange(
            pos + 1,
            q as int,
        ) + seq![t[q as int], t[q + 1]] + t.subrange(q + 2, q1 as int) + seq![
            t[q1 as int],
            t[q1 + 1],
            t[q1 + 2],
            t[q1 + 3],
        ] + t.subrange(q1 + 4, q2 as int) + seq![t[q2 as int]]);
        proof {
            assert forall|e2: Expr| #[trigger] derives(t, p0, e2, 0) implies q2 + 1 == pos
                + emit_expr(e2).len() by {
                lemma_derives_if(t, p0, e2);
            }
        }
        return Ok((e, q2 + 1));
}

/// Parses a `while` loop at `pos`.
fn parse_while(toks: &Vec<Token>, pos: usize) -> (r: Result<(Expr, usize), usize>)
    requires
        pos < toks@.len(),
        toks@[pos as int]@ == Tok::Ident(kw_while()),
        pos + 1 < toks@.len(),
        starts_expr(toks@[pos + 1]@),
    ensures
        r matches Ok((e, q)) ==> pos < q <= toks@.len()
            && toks_of(toks@).subrange(pos as int, q as int) == emit_expr(e) && canon(e, 0),
        forall|e: Expr| #[trigger] derives(toks_of(toks@), pos as int, e, 0)
            ==> (r matches Ok((_, q)) && q == pos + emit_expr(e).len()),
    decreases toks@.len() - pos, 4int, 0int,
{
    let n = toks.len();
    let ghost t = toks_of(toks@);
    let ghost p0 = pos as int;
        let (c, q) = match parse_expr(toks, pos + 1, 0) {
            Ok(x) => x,
            Err(p) => {
                proof {
                    assert forall|e: Expr| derives(t, p0, e, 0) implies false by {
                        lemma_derives_while(t, p0, e);
                    }
                }
                return Err(p);
            },
        };
        if !(sym_at(toks, q, Sym::LBrace) && sym_at(toks, q + 1, Sym::Newline)) {
            proof {
                assert forall|e: Expr| derives(t, p0, e, 0) implies false by {
                    lemma_derives_while(t, p0, e);
                }
            }
            return Err(q);
        }
        let (body, q1) = match parse_stmts(toks, q + 2) {
            Ok(x) => x,
            Err(p) => {
                proof {
                    assert forall|e: Expr| derives(t, p0, e, 0) implies false by {
                        lemma_derives_while(t, p0, e);
                    }
                }
                return Err(p);
            },
        };
        if !sym_at(toks, q1, Sym::RBrace) {
            proof {
                assert forall|e: Expr| derives(t, p0, e, 0) implies false by {
                    lemma_derives_while(t, p0, e);
                }
            }
            return Err(q1);
        }
        let e = Expr::WhileLoop(Box::new(c), body);
        assert(t.subrange(pos as int, q1 + 1) =~= seq![t[pos as int]] + t.subrange(
            pos + 1,
            q as int,
        ) + seq![t[q as int], t[q + 1]] + t.subrange(q + 2, q1 as int) + seq![t[q1 as int]]);
        proof {
            assert forall|e2: Expr| #[trigger] derives(t, p0, e2, 0) implies q1 + 1 == pos
                + emit_expr(e2).len() by {
                lemma_derives_while(t, p0, e2);
            }
        }
        return Ok((e, q1 + 1));
}

/// Parses statements at `pos`, each an expression followed by a newline,
/// up to a closing brace, which it does not consume. It succeeds on all
/// statements that the tokens at `pos` print before a closing brace.
pub fn parse_stmts(toks: &Vec<Token>, pos: usize) -> (r: Result<(Vec<Expr>, usize), usize>)
    requires
        pos <= toks@.len(),
    ensures
        r matches Ok((v, q)) ==> pos <= q <= toks@.len()
            && toks_of(toks@).subrange(pos as int, q as int) == emit_stmts(v@) && canon_all(v@),
        forall|s: Seq<Expr>| #[trigger] derives_stmts(toks_of(toks@), pos as int, s)
            ==> (r matches Ok((_, q)) && q == pos + emit_stmts(s).len()),
    decreases toks@.len() - pos, 5int, 0int,
{
    let n = toks.len();
    let ghost t = toks_of(toks@);
    let ghost p0 = pos as int;
    let mut stmts: Vec<Expr> = Vec::new();
    let mut p = pos;
    assert(t.subrange(pos as int, pos as int) =~= emit_stmts(stmts@));
    proof {
        assert forall|s: Seq<Expr>| #[trigger] derives_stmts(t, p0, s) implies 0 <= s.len() && p
            == pos + emit_stmts(s.take(0)).len() by {
            assert(s.take(0) =~= Seq::<Expr>::empty());
        }
    }
    while !sym_at(toks, p, Sym::RBrace)
        invariant
            pos <= p <= toks@.len(),
            t == toks_of(toks@),
            n == toks@.len(),
            p0 == pos,
            t.subrange(pos as int, p as int) == emit_stmts(stmts@),
            canon_all(stmts@),
            forall|s: Seq<Expr>| #[trigger] derives_stmts(t, p0, s) ==> stmts@.len() <= s.len() && p
                == pos + emit_stmts(s.take(stmts@.len() as int)).len(),
        decreases toks@.len() - p,
    {
        let ghost i = stmts@.len() as int;
        let (e, q) = match parse_expr(toks, p, 0) {
            Ok(x) => x,
            Err(x) => {
                proof {
                    assert forall|s: Seq<Expr>| derives_stmts(t, p0, s) implies false by {
                        lemma_stmts_step(t, p0, s, i);
                        assert(p as int == p0 + emit_stmts(s.take(i)).len());
                        if i < s.len() {
                            assert(derives(t, p as int, s[i], 0));
                        } else {
                            assert(t[p as int] == toks@[p as int]@);
                        }
                    }
                }
                return Err(x);
            },
        };
        if !sym_at(toks, q, Sym::Newline) {
            proof {
                assert forall|s: Seq<Expr>| derives_stmts(t, p0, s) implies false by {
                    lemma_stmts_step(t, p0, s, i);
                    assert(p as int == p0 + emit_stmts(s.take(i)).len());
                    if i < s.len() {
                        assert(derives(t, p as int, s[i], 0));
                        assert(t[q as int] == toks@[q as int]@);
                    } else {
                        assert(t[p as int] == toks@[p as int]@);
                    }
                }
            }
            return Err(q);
        }
        let ghost before = stmts@;
        stmts.push(e);
        proof {
            assert(stmts@.drop_last() =~= before);
            assert(t.subrange(pos as int, q + 1) =~= t.subrange(pos as int, p as int)
                + t.subrange(p as int, q as int) + seq![t[q as int]]);
            assert forall|s: Seq<Expr>| #[trigger] derives_stmts(t, p0, s) implies stmts@.len()
                <= s.len() && q + 1 == pos + emit_stmts(s.take(stmts@.len() as int)).len() by {
                lemma_stmts_step(t, p0, s, i);
            }
        }
        p = q + 1;
    }
    proof {
        assert forall|s: Seq<Expr>| #[trigger] derives_stmts(t, p0, s) implies p == pos
            + emit_stmts(s).len() by {
            let i = stmts@.len() as int;
            lemma_stmts_step(t, p0, s, i);
            assert(s.take(s.len() as int) =~= s);
        }
    }
    Ok((stmts, p))
}

/// Parses call arguments at `pos`, separated by commas, and the closing
/// parenthesis after them. It succeeds on all arguments that the tokens at
/// `pos` print before a closing parenthesis.
pub fn parse_args(toks: &Vec<Token>, pos: usize) -> (r: Result<(Vec<Expr>, usize), usize>)
    requires
        pos <= toks@.len(),
    ensures
        r matches Ok((v, q)) ==> pos < q <= toks@.len()
            && toks_of(toks@).subrange(pos as int, q as int) == emit_args(v@)
            + seq![Tok::Sym(Sym::RParen)] && canon_all(v@),
        forall|s: Seq<Expr>| #[trigger] derives_args(toks_of(toks@), pos as int, s)
            ==> (r matches Ok((_, q)) && q == pos + emit_args(s).len() + 1),
    decreases toks@.len() - pos, 5int, 0int,
{
    let n = toks.len();
    let ghost t = toks_of(toks@);
    let ghost p0 = pos as int;
    let mut args: Vec<Expr> = Vec::new();
    if sym_at(toks, pos, Sym::RParen) {
        assert(t.subrange(pos as int, pos + 1) =~= emit_args(args@) + seq![t[pos as int]]);
        proof {
            assert forall|s: Seq<Expr>| #[trigger] derives_args(t, p0, s) implies pos + 1 == pos
                + emit_args(s).len() + 1 by {
                if s.len() > 0 {
                    lemma_args_step(t, p0, s, 0);
                }
            }
        }
        return Ok((args, pos + 1));
    }
    let mut p = pos;
    proof {
        assert forall|s: Seq<Expr>| #[trigger] derives_args(t, p0, s) implies s.len() > 0 by {
            if s.len() == 0 {
                assert(emit_args(s) =~= Seq::<Tok>::empty());
                assert(t.subrange(p0, p0 + 1)[0] == t[p0]);
                assert(t[p0] == toks@[p0]@);
            }
        }
    }
    loop
        invariant
            pos <= p <= toks@.len(),
            t == toks_of(toks@),
            n == toks@.len(),
            p0 == pos,
            args@.len() == 0 ==> p == pos,
            args@.len() > 0 ==> t.subrange(pos as int, p as int) == emit_args(args@)
                + seq![Tok::Sym(Sym::Comma)],
            canon_all(args@),
            forall|s: Seq<Expr>| #[trigger] derives_args(t, p0, s) ==> args@.len() < s.len() && p
                == (if args@.len() == 0 {
                    pos as int
                } else {
                    pos + emit_args(s.take(args@.len() as int)).len() + 1
                }),
        decreases toks@.len() - p,
    {
        let ghost i = args@.len() as int;
        let (e, q) = match parse_expr(toks, p, 0) {
            Ok(x) => x,
            Err(x) => {
                proof {
                    assert forall|s: Seq<Expr>| derives_args(t, p0, s) implies false by {
                        lemma_args_step(t, p0, s, i);
                        assert(derives(t, p as int, s[i], 0));
                    }
                }
                return Err(x);
            },
        };
        let ghost before = args@;
        args.push(e);
        proof {
            assert(args@.drop_last() =~= before);
            if before.len() == 0 {
                assert(t.subrange(pos as int, q as int) == emit_args(args@));
            } else {
                assert(t.subrange(pos as int, q as int) =~= t.subrange(pos as int, p as int)
                    + t.subrange(p as int, q as int));
            }
        }
        if sym_at(toks, q, Sym::RParen) {
            assert(t.subrange(pos as int, q + 1) =~= t.subrange(pos as int, q as int) + seq![
                t[q as int],
            ]);
            proof {
                assert forall|s: Seq<Expr>| #[trigger] derives_args(t, p0, s) implies q + 1 == pos
                    + emit_args(s).len() + 1 by {
                    lemma_args_step(t, p0, s, i);
                }
            }
            return Ok((args, q + 1));
        }
        if !sym_at(toks, q, Sym::Comma) {
            proof {
                assert forall|s: Seq<Expr>| derives_args(t, p0, s) implies false by {
                    lemma_args_step(t, p0, s, i);
                    assert(derives(t, p as int, s[i], 0));
                    assert(t[q as int] == toks@[q as int]@);
                }
            }
            return Err(q);
        }
        assert(t.subrange(pos as int, q + 1) =~= t.subrange(pos as int, q as int) + seq![
            t[q as int],
        ]);
        proof {
            assert forall|s: Seq<Expr>| #[trigger] derives_args(t, p0, s) implies args@.len()
                < s.len() && q + 1 == pos + emit_args(s.take(args@.len() as int)).len() + 1 by {
                lemma_args_step(t, p0, s, i);
            }
        }
        p = q + 1;
    }
}

} // verus!

verus! {

/// A syntax error: a character at this position of the source starts no
/// token, or the token at this index does not fit the grammar.
#[derive(Clone, Copy, PartialEq, Eq, Structural, Debug)]
pub enum SyntaxError {
    BadChar(usize),
    Unexpected(usize),
}

/// The tokens, after leading newlines, print the canonical definition `f`.
pub open spec fn prints_function(t: Seq<Tok>, f: FunctionDef) -> bool {
    canonical(f) && skip_newlines(t) == emit_function(f)
}

/// Parses the parameter list of a definition whose `fn` is at `k`: names
/// separated by commas, from `k + 3` up to the closing parenthesis, whose
/// position it returns.
#[verifier::rlimit(40)]
fn parse_params(toks: &Vec<Token>, k: usize) -> (r: Result<(Vec<String>, usize), usize>)
    requires
        k + 3 <= toks@.len(),
        toks_of(toks@).subrange(k as int, toks@.len() as int) == skip_newlines(toks_of(toks@)),
    ensures
        r matches Ok((ps, p)) ==> k + 3 <= p < toks@.len() && toks_of(toks@).subrange(
            k + 3,
            p as int,
        ) == emit_params(names_of(ps@)) && toks_of(toks@)[p as int] == Tok::Sym(Sym::RParen),
        forall|f: FunctionDef| #[trigger] prints_function(toks_of(toks@), f) ==> (r matches Ok((
            _,
            p,
        )) && p == k + 3 + emit_params(names_of(f.params@)).len()),
{
    let n = toks.len();
    let ghost t = toks_of(toks@);
    let ghost kk = k as int;
    let mut params: Vec<String> = Vec::new();
    let mut p = k + 3;
    assert(t.subrange(k + 3, p as int) =~= emit_params(names_of(params@)));
    if !sym_at(toks, p, Sym::RParen) {
        let first = ident_at(toks, p);
        if first.is_none() {
            proof {
                assert forall|f: FunctionDef| prints_function(t, f) implies false by {
                    lemma_fn_tokens(t, kk, f);
                    let ps = names_of(f.params@);
                    if ps.len() > 0 {
                        assert(t[kk + 3 + 2 * 0] == Tok::Ident(ps[0]));
                    }
                }
            }
            return Err(p);
        }
        params.push(first.unwrap());
        assert(t.subrange(k + 3, p + 1) =~= emit_params(names_of(params@)));
        proof {
            assert forall|f: FunctionDef| #[trigger] prints_function(t, f) implies 1
                <= names_of(f.params@).len() by {
                lemma_fn_tokens(t, kk, f);
            }
        }
        p = p + 1;
        while sym_at(toks, p, Sym::Comma)
            invariant
                k + 3 < p <= n,
                n == toks@.len(),
                t == toks_of(toks@),
                kk == k,
                params@.len() > 0,
                t.subrange(k + 3, p as int) == emit_params(names_of(params@)),
                t.subrange(kk, n as int) == skip_newlines(t),
                forall|f: FunctionDef| #[trigger] prints_function(t, f) ==> params@.len()
                    <= names_of(f.params@).len() && p == kk + 3 + 2 * params@.len() - 1,
            decreases n - p,
        {
            let ghost i = params@.len() as int;
            let s = ident_at(toks, p + 1);
            if s.is_none() {
                proof {
                    assert forall|f: FunctionDef| prints_function(t, f) implies false by {
                        lemma_fn_tokens(t, kk, f);
                        let ps = names_of(f.params@);
                        if i < ps.len() {
                            assert(t[kk + 3 + 2 * i] == Tok::Ident(ps[i]));
                        }
                    }
                }
                return Err(p + 1);
            }
            let s = s.unwrap();
            let ghost before = params@;
            params.push(s);
            proof {
                assert(names_of(params@).drop_last() =~= names_of(before));
                assert(names_of(params@).last() == s@);
                assert(t.subrange(k + 3, p + 2) =~= t.subrange(k + 3, p as int) + seq![
                    t[p as int],
                    t[p + 1],
                ]);
                assert forall|f: FunctionDef| #[trigger] prints_function(t, f) implies params@.len()
                    <= names_of(f.params@).len() by {
                    lemma_fn_tokens(t, kk, f);
                }
            }
            p = p + 2;
        }
        if !sym_at(toks, p, Sym::RParen) {
            proof {
                assert forall|f: FunctionDef| prints_function(t, f) implies false by {
                    lemma_fn_tokens(t, kk, f);
                    let i = params@.len() as int;
                    let ps = names_of(f.params@);
                    if i < ps.len() {
                        assert(t[kk + 4 + 2 * (i - 1)] == Tok::Sym(Sym::Comma));
                    }
                }
            }
            return Err(p);
        }
        proof {
            assert forall|f: FunctionDef| #[trigger] prints_function(t, f) implies p == kk + 3
                + emit_params(names_of(f.params@)).len() by {
                lemma_fn_tokens(t, kk, f);
                let i = params@.len() as int;
                let ps = names_of(f.params@);
                if i < ps.len() {
                    assert(t[kk + 4 + 2 * (i - 1)] == Tok::Sym(Sym::Comma));
                }
            }
        }
    } else {
        proof {
            assert forall|f: FunctionDef| #[trigger] prints_function(t, f) implies p == kk + 3
                + emit_params(names_of(f.params@)).len() by {
                lemma_fn_tokens(t, kk, f);
                let ps = names_of(f.params@);
                if ps.len() > 0 {
                    assert(t[kk + 3 + 2 * 0] == Tok::Ident(ps[0]));
                }
            }
        }
    }
    Ok((params, p))
}

/// Parses a whole function definition, after any leading newlines:
/// `fn name(params) -> (ret) {`, a newline, the statements, `}` and a final
/// newline, with nothing after it. It succeeds exactly on the tokens that
/// print a canonical definition, and returns one.
#[verifier::rlimit(80)]
pub fn parse_function(toks: &Vec<Token>) -> (r: Result<FunctionDef, usize>)
    ensures
        r is Ok ==> prints_function(toks_of(toks@), r->Ok_0),
        forall|f: FunctionDef| #[trigger] prints_function(toks_of(toks@), f) ==> r is Ok,
{
    let n = toks.len();
    let ghost t = toks_of(toks@);
    let mut k: usize = 0;
    assert(t.subrange(0, n as int) =~= t);
    while sym_at(toks, k, Sym::Newline)
        invariant
            k <= n,
            n == toks@.len(),
            t == toks_of(toks@),
            skip_newlines(t.subrange(k as int, n as int)) == skip_newlines(t),
        decreases n - k,
    {
        assert(t.subrange(k as int, n as int).drop_first() =~= t.subrange(k + 1, n as int));
        k = k + 1;
    }
    assert(skip_newlines(t.subrange(k as int, n as int)) == t.subrange(k as int, n as int));
    let ghost kk = k as int;
    proof {
        reveal_strlit("fn");
    }
    assert("fn"@ =~= kw_fn());
    if !word_at(toks, k, "fn") {
        proof {
            assert forall|f: FunctionDef| prints_function(t, f) implies false by {
                lemma_fn_tokens(t, kk, f);
            }
        }
        return Err(k);
    }
    let name = ident_at(toks, k + 1);
    if name.is_none() {
        proof {
            assert forall|f: FunctionDef| prints_function(t, f) implies false by {
                lemma_fn_tokens(t, kk, f);
            }
        }
        return Err(k + 1);
    }
    let name = name.unwrap();
    if !sym_at(toks, k + 2, Sym::LParen) {
        proof {
            assert forall|f: FunctionDef| prints_function(t, f) implies false by {
                lemma_fn_tokens(t, kk, f);
            }
        }
        return Err(k + 2);
    }
    let (params, p) = match parse_params(toks, k) {
        Ok(x) => x,
        Err(e) => { return Err(e); },
    };
    // p is at the closing parenthesis of the parameter list
    if !(sym_at(toks, p + 1, Sym::Arrow) && sym_at(toks, p + 2, Sym::LParen)) {
        proof {
            assert forall|f: FunctionDef| prints_function(t, f) implies false by {
                lemma_fn_tokens(t, kk, f);
            }
        }
        return Err(p + 1);
    }
    let the_return = ident_at(toks, p + 3);
    if the_return.is_none() {
        proof {
            assert forall|f: FunctionDef| prints_function(t, f) implies false by {
                lemma_fn_tokens(t, kk, f);
            }
        }
        return Err(p + 3);
    }
    let the_return = the_return.unwrap();
    if !(sym_at(toks, p + 4, Sym::RParen) && sym_at(toks, p + 5, Sym::LBrace) && sym_at(
        toks,
        p + 6,
        Sym::Newline,
    )) {
        proof {
            assert forall|f: FunctionDef| prints_function(t, f) implies false by {
                lemma_fn_tokens(t, kk, f);
            }
        }
        return Err(p + 4);
    }
    let (body, q) = match parse_stmts(toks, p + 7) {
        Ok(r) => r,
        Err(e) => {
            proof {
                assert forall|f: FunctionDef| prints_function(t, f) implies false by {
                    lemma_fn_tokens(t, kk, f);
                }
            }
            return Err(e);
        },
    };
    if !(sym_at(toks, q, Sym::RBrace) && sym_at(toks, q + 1, Sym::Newline)) {
        proof {
            assert forall|f: FunctionDef| prints_function(t, f) implies false by {
                lemma_fn_tokens(t, kk, f);
            }
        }
        return Err(q);
    }
    if q + 2 != n {
        proof {
            assert forall|f: FunctionDef| prints_function(t, f) implies false by {
                lemma_fn_tokens(t, kk, f);
            }
        }
        return Err(q + 2);
    }
    let f = FunctionDef { name, params, the_return, body };
    proof {
        let ps = t.subrange(k + 3, p as int);
        assert(ps == emit_params(names_of(f.params@)));
        assert(t.subrange(k as int, n as int) =~= seq![t[k as int], t[k + 1], t[k + 2]] + ps
            + seq![t[p as int], t[p + 1], t[p + 2], t[p + 3], t[p + 4], t[p + 5], t[p + 6]]
            + t.subrange(p + 7, q as int) + seq![t[q as int], t[q + 1]]);
    }
    Ok(f)
}

} // verus!

verus! {

/// `src` is the text of the canonical definition `f`: its tokens, after
/// leading newlines, are exactly those that print `f`.
pub open spec fn parses_to(src: Seq<char>, f: FunctionDef) -> bool {
    tokens(src) is Some && prints_function(tokens(src)->Some_0, f)
}

/// Parses the source text of one function definition. It succeeds exactly
/// when the text is that of some canonical definition, and returns one.
pub fn parse(src: &str) -> (r: Result<FunctionDef, SyntaxError>)
    ensures
        r is Ok <==> exists|f: FunctionDef| #[trigger] parses_to(src@, f),
        r is Ok ==> parses_to(src@, r->Ok_0),
        r matches Err(SyntaxError::BadChar(p)) ==> tokens(src@) is None && p < src@.len()
            && !starts_token(src@, p as int),
        r matches Err(SyntaxError::Unexpected(_)) ==> tokens(src@) is Some,
{
    let toks = match lex(src) {
        Ok(t) => t,
        Err(p) => { return Err(SyntaxError::BadChar(p)); },
    };
    match parse_function(&toks) {
        Ok(f) => {
            assert(parses_to(src@, f));
            Ok(f)
        },
        Err(p) => {
            proof {
                assert forall|f: FunctionDef| #[trigger] parses_to(src@, f) implies false by {
                    assert(prints_function(toks_of(toks@), f));
                }
            }
            Err(SyntaxError::Unexpected(p))
        },
    }
}

} // verus!
