use toy_jit::ast::{Expr, Sym};
use toy_jit::lexer::{lex, Token};
use toy_jit::lower::literal_value;
use toy_jit::parser::{parse, SyntaxError};
use toy_jit::vars::declare_variables;

fn text_of(e: &Expr) -> String {
    match e {
        Expr::Literal(s) | Expr::Identifier(s) => s.clone(),
        Expr::GlobalDataAddr(s) => format!("&{}", s),
        Expr::Assign(n, r) => format!("{} = {}", n, text_of(r)),
        Expr::Eq(a, b) => format!("{} == {}", text_of(a), text_of(b)),
        Expr::Ne(a, b) => format!("{} != {}", text_of(a), text_of(b)),
        Expr::Lt(a, b) => format!("{} < {}", text_of(a), text_of(b)),
        Expr::Le(a, b) => format!("{} <= {}", text_of(a), text_of(b)),
        Expr::Gt(a, b) => format!("{} > {}", text_of(a), text_of(b)),
        Expr::Ge(a, b) => format!("{} >= {}", text_of(a), text_of(b)),
        Expr::Add(a, b) => format!("{} + {}", text_of(a), text_of(b)),
        Expr::Sub(a, b) => format!("{} - {}", text_of(a), text_of(b)),
        Expr::Mul(a, b) => format!("{} * {}", text_of(a), text_of(b)),
        Expr::Div(a, b) => format!("{} / {}", text_of(a), text_of(b)),
        Expr::IfElse(c, t, f) => format!(
            "if {} {{\n{}}} else {{\n{}}}",
            text_of(c),
            stmts_text(t),
            stmts_text(f)
        ),
        Expr::WhileLoop(c, b) => format!("while {} {{\n{}}}", text_of(c), stmts_text(b)),
        Expr::Call(n, args) => format!(
            "{}({})",
            n,
            args.iter().map(text_of).collect::<Vec<_>>().join(", ")
        ),
    }
}

fn stmts_text(s: &[Expr]) -> String {
    s.iter().map(|e| format!("{}\n", text_of(e))).collect()
}

fn squeezed(s: &str) -> String {
    s.chars().filter(|c| !c.is_whitespace()).collect()
}

const SOURCE: &str = "
    fn foo(a, b) -> (c) {
        c = if a {
            if b {
                30
            } else {
                40
            }
        } else {
            50
        }
        while c < 100 {
            c = c * 2 + f(c, &d)
        }
        c = c + 2
    }
";

#[test]
fn printed_definition_matches_source() {
    let f = parse(SOURCE).unwrap();
    let printed = format!(
        "fn {}({}) -> ({}) {{\n{}}}\n",
        f.name,
        f.params.join(", "),
        f.the_return,
        stmts_text(&f.body)
    );
    assert_eq!(squeezed(&printed), squeezed(SOURCE));
    let again = parse(&printed).unwrap();
    assert_eq!(stmts_text(&again.body), stmts_text(&f.body));
}

#[test]
fn lexes_keywords_operators_and_words() {
    let toks = lex("fn x1 -> >= != 12\n").unwrap();
    assert_eq!(toks.len(), 7);
    assert!(matches!(&toks[0], Token::Ident(s) if s == "fn"));
    assert!(matches!(&toks[1], Token::Ident(s) if s == "x1"));
    assert!(matches!(toks[2], Token::Sym(Sym::Arrow)));
    assert!(matches!(toks[3], Token::Sym(Sym::GreaterEq)));
    assert!(matches!(toks[4], Token::Sym(Sym::NotEq)));
    assert!(matches!(&toks[5], Token::Num(s) if s == "12"));
    assert!(matches!(toks[6], Token::Sym(Sym::Newline)));
}

#[test]
fn lex_rejects_stray_character() {
    assert_eq!(lex("a ! b").err(), Some(2));
    assert!(matches!(parse("fn f() -> (r) {\n r = 1 ? 2\n}\n"), Err(SyntaxError::BadChar(_))));
}

#[test]
fn parse_rejects_bad_shapes() {
    assert!(matches!(parse("fn f() -> (r) {\n r = \n}\n"), Err(SyntaxError::Unexpected(_))));
    assert!(matches!(parse("fn f() -> (r) {\n if r {\n 1\n }\n}\n"), Err(_)));
    assert!(matches!(parse("fn f() -> (r) {\n}\n\n"), Err(_)));
    assert!(parse("\n\nfn f() -> (r) {\n}\n").is_ok());
}

#[test]
fn binary_operators_nest_right() {
    let f = parse("fn f(a, b, c) -> (r) {\n a - b - c\n}\n").unwrap();
    match &f.body[0] {
        Expr::Sub(a, rest) => {
            assert!(matches!(&**a, Expr::Identifier(n) if n == "a"));
            assert!(matches!(&**rest, Expr::Sub(_, _)));
        }
        _ => panic!("expected a subtraction"),
    }
}

#[test]
fn variables_in_first_occurrence_order() {
    let f = parse(
        "fn f(a, b) -> (r) {\n x = 1\n if a {\n y = 2\n } else {\n a = 3\n }\n while b {\n z = q = 4\n }\n}\n",
    )
    .unwrap();
    let vars = declare_variables(&f.params, &f.the_return, &f.body);
    let names = ["a", "b", "r", "x", "y", "z", "q"];
    assert_eq!(vars.len(), names.len());
    for (i, n) in names.iter().enumerate() {
        assert_eq!(vars.slot_of(&n.to_string()), Some(i));
    }
    assert_eq!(vars.slot_of(&"w".to_string()), None);
}

#[test]
fn literals_truncate_to_word() {
    assert_eq!(literal_value(&"0".to_string()), 0);
    assert_eq!(literal_value(&"1234".to_string()), 1234);
    assert_eq!(literal_value(&"18446744073709551615".to_string()), u64::MAX);
    assert_eq!(literal_value(&"18446744073709551617".to_string()), 1);
}

#[test]
fn keywords_are_names_too() {
    let toks = lex("fnx else_ if\n").unwrap();
    assert!(matches!(&toks[0], Token::Ident(s) if s == "fnx"));
    assert!(matches!(&toks[1], Token::Ident(s) if s == "else_"));
    assert!(matches!(&toks[2], Token::Ident(s) if s == "if"));
    let f = parse("fn if() -> (r) {\n}\n").unwrap();
    assert_eq!(f.name, "if");
    let f = parse("fn f() -> (r) {\n else = 1\n r = while\n}\n").unwrap();
    assert!(matches!(&f.body[0], Expr::Assign(n, _) if n == "else"));
    assert!(matches!(&f.body[1], Expr::Assign(_, v) if matches!(&**v, Expr::Identifier(n) if n == "while")));
    let f = parse("fn f(if) -> (r) {\n r = if if {\n 1\n } else {\n 2\n }\n}\n").unwrap();
    assert!(matches!(&f.body[0], Expr::Assign(_, v) if matches!(&**v, Expr::IfElse(..))));
}

#[test]
fn statements_split_at_newlines_only() {
    let f = parse("fn f() -> (r) {\n r = 30\n}\n").unwrap();
    assert_eq!(f.body.len(), 1);
    assert!(matches!(&f.body[0], Expr::Assign(n, v) if n == "r" && matches!(&**v, Expr::Literal(d) if d == "30")));
    assert!(parse("fn f() -> (r) {\n r = 3 0\n}\n").is_err());
    assert!(parse("fn f() -> (r) {\n}").is_err());
    assert!(parse("fn f() -> (r) {\n}\nfn g() -> (r) {\n}\n").is_err());
    assert!(parse("fn f() (r) {\n}\n").is_err());
}
