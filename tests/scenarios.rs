use std::collections::HashMap;

use toy_jit::ir::{BinOp, Cond, FunctionIr, Inst};
use toy_jit::jit::{CompileError, JIT};

/// Runs compiled functions by giving each builder call its meaning:
/// variables are mutable slots, and a block parameter takes the value that
/// the jump into the block hands over.
struct Machine {
    funcs: HashMap<String, FunctionIr>,
    data: Vec<(String, Vec<u8>)>,
    output: Vec<String>,
}

impl Machine {
    fn new() -> Self {
        Machine { funcs: HashMap::new(), data: Vec::new(), output: Vec::new() }
    }

    fn compile(&mut self, jit: &mut JIT, src: &str) -> Result<(), CompileError> {
        let ir = jit.compile(src)?;
        self.funcs.insert(ir.name.clone(), ir);
        Ok(())
    }

    fn create_data(&mut self, jit: &mut JIT, name: &str, bytes: &[u8]) {
        jit.create_data(name, bytes.to_vec()).unwrap();
        self.data.push((name.to_string(), bytes.to_vec()));
    }

    fn call_builtin(&mut self, name: &str, args: &[i64]) -> i64 {
        match name {
            "print" | "println_int" => {
                self.output.push(args[0].to_string());
                0
            }
            "puts" | "println_string" => {
                let index = (args[0] >> 32) as usize - 1;
                let bytes = &self.data[index].1;
                let end = bytes.iter().position(|b| *b == 0).unwrap_or(bytes.len());
                self.output.push(String::from_utf8(bytes[..end].to_vec()).unwrap());
                0
            }
            _ => panic!("unresolved symbol {}", name),
        }
    }

    fn run(&mut self, name: &str, args: &[i64]) -> i64 {
        let insts: Vec<Inst> = self.funcs[name].insts.iter().map(copy_inst).collect();
        let mut start: HashMap<usize, usize> = HashMap::new();
        let mut param_of: HashMap<usize, usize> = HashMap::new();
        for (k, inst) in insts.iter().enumerate() {
            match inst {
                Inst::SwitchToBlock(b) => {
                    start.insert(*b, k + 1);
                }
                Inst::AppendBlockParam(b) => {
                    param_of.insert(*b, k);
                }
                _ => {}
            }
        }
        let mut values = vec![0i64; insts.len()];
        let mut vars: HashMap<usize, i64> = HashMap::new();
        let mut pc = start[&0];
        loop {
            let inst = &insts[pc];
            pc += 1;
            match inst {
                Inst::Iconst(k) => values[pc - 1] = *k as i64,
                Inst::Binary(op, a, b) => {
                    let (x, y) = (values[*a], values[*b]);
                    values[pc - 1] = match op {
                        BinOp::Iadd => x.wrapping_add(y),
                        BinOp::Isub => x.wrapping_sub(y),
                        BinOp::Imul => x.wrapping_mul(y),
                        BinOp::Udiv => ((x as u64) / (y as u64)) as i64,
                    }
                }
                Inst::Compare(c, a, b) => {
                    let (x, y) = (values[*a], values[*b]);
                    let holds = match c {
                        Cond::Equal => x == y,
                        Cond::NotEqual => x != y,
                        Cond::SignedLessThan => x < y,
                        Cond::SignedLessThanOrEqual => x <= y,
                        Cond::SignedGreaterThan => x > y,
                        Cond::SignedGreaterThanOrEqual => x >= y,
                    };
                    values[pc - 1] = holds as i64;
                }
                Inst::UseVar(v) => values[pc - 1] = vars[v],
                Inst::DefVar(v, x) => {
                    vars.insert(*v, values[*x]);
                }
                Inst::Call(callee, call_args) => {
                    let arg_values: Vec<i64> = call_args.iter().map(|a| values[*a]).collect();
                    values[pc - 1] = if self.funcs.contains_key(callee) {
                        self.run(callee, &arg_values)
                    } else {
                        self.call_builtin(callee, &arg_values)
                    };
                }
                Inst::GlobalAddr(symbol) => {
                    let index = self.data.iter().position(|(n, _)| n == symbol).unwrap();
                    values[pc - 1] = ((index as i64) + 1) << 32;
                }
                Inst::EntryParam(i) => values[pc - 1] = args[*i],
                Inst::Brz(x, b) => {
                    if values[*x] == 0 {
                        pc = start[b];
                    }
                }
                Inst::Jump(b) => pc = start[b],
                Inst::JumpArg(b, x) => {
                    values[param_of[b]] = values[*x];
                    pc = start[b];
                }
                Inst::Return(x) => return values[*x],
                Inst::SwitchToBlock(_) => panic!("fell through into a block"),
                Inst::DeclareVar(_)
                | Inst::CreateBlock
                | Inst::AppendEntryParams(_)
                | Inst::AppendBlockParam(_)
                | Inst::SealBlock(_) => {}
            }
        }
    }
}

fn copy_inst(i: &Inst) -> Inst {
    match i {
        Inst::Iconst(k) => Inst::Iconst(*k),
        Inst::Binary(op, a, b) => Inst::Binary(*op, *a, *b),
        Inst::Compare(c, a, b) => Inst::Compare(*c, *a, *b),
        Inst::UseVar(v) => Inst::UseVar(*v),
        Inst::DefVar(v, x) => Inst::DefVar(*v, *x),
        Inst::Call(n, a) => Inst::Call(n.clone(), a.clone()),
        Inst::GlobalAddr(n) => Inst::GlobalAddr(n.clone()),
        Inst::EntryParam(i) => Inst::EntryParam(*i),
        Inst::DeclareVar(v) => Inst::DeclareVar(*v),
        Inst::CreateBlock => Inst::CreateBlock,
        Inst::AppendEntryParams(b) => Inst::AppendEntryParams(*b),
        Inst::AppendBlockParam(b) => Inst::AppendBlockParam(*b),
        Inst::Brz(x, b) => Inst::Brz(*x, *b),
        Inst::Jump(b) => Inst::Jump(*b),
        Inst::JumpArg(b, x) => Inst::JumpArg(*b, *x),
        Inst::SwitchToBlock(b) => Inst::SwitchToBlock(*b),
        Inst::SealBlock(b) => Inst::SealBlock(*b),
        Inst::Return(x) => Inst::Return(*x),
    }
}

const FOO_CODE: &str = "
    fn foo(a, b) -> (c) {
        c = if a {
            if b {
                30
            } else {
                40
            }
        } else {
            50
        }
        c = c + 2
    }
";

const RECURSIVE_FIB_CODE: &str = "
    fn recursive_fib(n) -> (r) {
        r = if n == 0 {
                    0
            } else {
                if n == 1 {
                    1
                } else {
                    recursive_fib(n - 1) + recursive_fib(n - 2)
                }
            }
    }
";

const ITERATIVE_FIB_CODE: &str = "
    fn iterative_fib(n) -> (r) {
        if n == 0 {
            r = 0
        } else {
            n = n - 1
            a = 0
            r = 1
            while n != 0 {
                t = r
                r = r + a
                a = t
                n = n - 1
            }
        }
    }
";

const COUNTDOWN_CODE: &str = "
fn countdown(n) -> (r) {
    if n == 0 {
        0
    } else {
        print(n)
        countdown(n - 1)
    }
}
";

const HELLO_CODE: &str = "
fn hello() -> (r) {
    puts(&hello_string)
}
";

#[test]
fn foo_one_zero() {
    let mut jit = JIT::new();
    let mut m = Machine::new();
    m.compile(&mut jit, FOO_CODE).unwrap();
    assert_eq!(m.run("foo", &[1, 0]), 42);
    assert_eq!(m.run("foo", &[1, 1]), 32);
    assert_eq!(m.run("foo", &[0, 1]), 52);
}

#[test]
fn recursive_fib_ten() {
    let mut jit = JIT::new();
    let mut m = Machine::new();
    m.compile(&mut jit, RECURSIVE_FIB_CODE).unwrap();
    assert_eq!(m.run("recursive_fib", &[10]), 55);
}

#[test]
fn iterative_fib_ten() {
    let mut jit = JIT::new();
    let mut m = Machine::new();
    m.compile(&mut jit, ITERATIVE_FIB_CODE).unwrap();
    assert_eq!(m.run("iterative_fib", &[10]), 55);
    assert_eq!(m.run("iterative_fib", &[0]), 0);
}

#[test]
fn countdown_five() {
    let mut jit = JIT::new();
    let mut m = Machine::new();
    m.compile(&mut jit, COUNTDOWN_CODE).unwrap();
    assert_eq!(m.run("countdown", &[5]), 0);
    assert_eq!(m.output, vec!["5", "4", "3", "2", "1"]);
}

#[test]
fn hello_world() {
    let mut jit = JIT::new();
    let mut m = Machine::new();
    m.create_data(&mut jit, "hello_string", b"hello world!\0");
    m.compile(&mut jit, HELLO_CODE).unwrap();
    m.run("hello", &[]);
    assert_eq!(m.output, vec!["hello world!"]);
}

#[test]
fn duplicate_definition() {
    let mut jit = JIT::new();
    jit.compile(FOO_CODE).unwrap();
    match jit.compile(FOO_CODE) {
        Err(CompileError::DuplicateDefinition(n)) => assert_eq!(n, "foo"),
        _ => panic!("expected a duplicate definition"),
    }
}

#[test]
fn duplicate_data() {
    let mut jit = JIT::new();
    jit.create_data("s", vec![1, 2]).unwrap();
    match jit.create_data("s", vec![3]) {
        Err(CompileError::DuplicateDefinition(n)) => assert_eq!(n, "s"),
        _ => panic!("expected a duplicate definition"),
    }
}

#[test]
fn failed_compile_leaves_session_usable() {
    let mut jit = JIT::new();
    let mut m = Machine::new();
    assert!(matches!(
        jit.compile("fn foo(a) -> (r) {\n r = b\n}\n"),
        Err(CompileError::UnknownVariable(_))
    ));
    assert!(matches!(jit.compile("fn foo(a) -> (r) {\n r = $\n}\n"), Err(CompileError::Syntax(_))));
    m.compile(&mut jit, FOO_CODE).unwrap();
    assert_eq!(m.run("foo", &[1, 0]), 42);
}

#[test]
fn no_assignment_returns_zero() {
    let mut jit = JIT::new();
    let mut m = Machine::new();
    m.compile(&mut jit, "fn z(a, b) -> (r) {\n a + b\n x = 7\n}\n").unwrap();
    assert_eq!(m.run("z", &[3, 4]), 0);
}

#[test]
fn parameter_count_is_kept() {
    let mut jit = JIT::new();
    let ir = jit.compile(FOO_CODE).unwrap();
    assert_eq!(ir.n_params, 2);
    assert_eq!(ir.name, "foo");
    let ir = jit.compile(HELLO_CODE).unwrap();
    assert_eq!(ir.n_params, 0);
}

#[test]
fn if_value_is_last_statement_of_branch() {
    let mut jit = JIT::new();
    let mut m = Machine::new();
    m.compile(&mut jit, "fn f(a) -> (r) {\n r = if a {\n 1\n 2\n } else {\n }\n}\n").unwrap();
    assert_eq!(m.run("f", &[1]), 2);
    assert_eq!(m.run("f", &[0]), 0);
}

#[test]
fn while_value_is_zero() {
    let mut jit = JIT::new();
    let mut m = Machine::new();
    m.compile(&mut jit, "fn w(n) -> (r) {\n r = 5\n r = while n != 0 {\n n = n - 1\n }\n}\n")
        .unwrap();
    assert_eq!(m.run("w", &[3]), 0);
}

#[test]
fn arity_mismatch_is_reported() {
    let mut jit = JIT::new();
    jit.compile("fn g(a) -> (r) {\n r = h(a)\n}\n").unwrap();
    match jit.compile("fn h(a, b) -> (r) {\n r = a\n}\n") {
        Err(CompileError::ArityMismatch(n)) => assert_eq!(n, "h"),
        _ => panic!("expected an arity mismatch"),
    }
    match jit.compile("fn k(a) -> (r) {\n r = k(a, a)\n}\n") {
        Err(CompileError::ArityMismatch(n)) => assert_eq!(n, "k"),
        _ => panic!("expected an arity mismatch"),
    }
    jit.compile("fn h(a) -> (r) {\n r = a\n}\n").unwrap();
}

#[test]
fn arithmetic_is_wrapping_and_division_unsigned() {
    let mut jit = JIT::new();
    let mut m = Machine::new();
    m.compile(&mut jit, "fn d(a, b) -> (r) {\n r = a / b\n}\n").unwrap();
    assert_eq!(m.run("d", &[7, 2]), 3);
    assert_eq!(m.run("d", &[-2, 2]), i64::MAX);
    m.compile(&mut jit, "fn s(a) -> (r) {\n r = 0 - a\n}\n").unwrap();
    assert_eq!(m.run("s", &[5]), -5);
    m.compile(&mut jit, "fn c(a, b) -> (r) {\n r = a < b\n}\n").unwrap();
    assert_eq!(m.run("c", &[-1, 0]), 1);
}

#[test]
fn operators_nest_to_the_right() {
    let mut jit = JIT::new();
    let mut m = Machine::new();
    m.compile(&mut jit, "fn f(a, b, c) -> (r) {\n r = a - b - c\n}\n").unwrap();
    assert_eq!(m.run("f", &[10, 4, 3]), 9);
    m.compile(&mut jit, "fn g(a, b) -> (r) {\n r = a + b * 2 == 7\n}\n").unwrap();
    assert_eq!(m.run("g", &[1, 3]), 1);
}

#[test]
fn product_binds_tighter_and_nests_right() {
    let mut jit = JIT::new();
    let mut m = Machine::new();
    m.compile(&mut jit, "fn f(a, b, c) -> (r) {\n    r = a - b * c + 1\n}\n").unwrap();
    assert_eq!(m.run("f", &[10, 2, 3]), 3);
}

#[test]
fn corrected_function_compiles_after_unknown_variable() {
    let mut jit = JIT::new();
    let mut m = Machine::new();
    assert!(matches!(
        jit.compile("fn g(a) -> (r) {\n    r = x\n}\n"),
        Err(CompileError::UnknownVariable(n)) if n == "x"
    ));
    m.compile(&mut jit, "fn g(a) -> (r) {\n    r = a\n}\n").unwrap();
    assert_eq!(m.run("g", &[7]), 7);
}

#[test]
fn recursive_fib_compiles_after_duplicate_failure() {
    let mut jit = JIT::new();
    let mut m = Machine::new();
    m.compile(&mut jit, FOO_CODE).unwrap();
    assert!(matches!(jit.compile(FOO_CODE), Err(CompileError::DuplicateDefinition(_))));
    m.compile(&mut jit, RECURSIVE_FIB_CODE).unwrap();
    assert_eq!(m.run("recursive_fib", &[10]), 55);
    assert_eq!(m.run("foo", &[1, 0]), 42);
}

#[test]
fn call_to_earlier_function() {
    let mut jit = JIT::new();
    let mut m = Machine::new();
    m.compile(&mut jit, "fn add1(a) -> (r) {\n    r = a + 1\n}\n").unwrap();
    m.compile(&mut jit, "fn g(b) -> (r) {\n    r = add1(b) * 2\n}\n").unwrap();
    assert_eq!(m.run("g", &[4]), 10);
}

#[test]
fn callees_outside_the_session_are_listed() {
    let mut jit = JIT::new();
    jit.compile("fn add1(a) -> (r) {\n    r = a + 1\n}\n").unwrap();
    let ir = jit
        .compile("fn h(a) -> (r) {\n    puts(&s)\n    r = add1(a) + h(a) + print(a)\n}\n")
        .unwrap();
    let mut names = jit.undefined_callees(&ir);
    names.sort();
    names.dedup();
    assert_eq!(names, vec!["print".to_string(), "puts".to_string()]);
}

#[test]
fn keyword_words_as_variables() {
    let mut jit = JIT::new();
    let mut m = Machine::new();
    m.compile(&mut jit, "fn w(while) -> (if) {\n    if = while + 1\n    else = if\n}\n").unwrap();
    assert_eq!(m.run("w", &[2]), 3);
    m.compile(&mut jit, "fn if() -> (r) {\n    r = 5\n}\n").unwrap();
    assert_eq!(m.run("if", &[]), 5);
}
