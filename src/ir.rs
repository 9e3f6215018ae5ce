use vstd::prelude::*;

verus! {

/// An integer operation of the backend over two word-sized values.
#[derive(Clone, Copy, PartialEq, Eq, Structural, Debug)]
pub enum BinOp {
    Iadd,
    Isub,
    Imul,
    Udiv,
}

/// A signed integer comparison.
#[derive(Clone, Copy, PartialEq, Eq, Structural, Debug)]
pub enum Cond {
    Equal,
    NotEqual,
    SignedLessThan,
    SignedLessThanOrEqual,
    SignedGreaterThan,
    SignedGreaterThanOrEqual,
}

/// One call into the backend's function builder. Values and blocks are
/// named by the position of the instruction that made them: a value by an
/// `Iconst`, `Binary`, `Compare`, `UseVar`, `Call`, `GlobalAddr`,
/// `EntryParam` or `AppendBlockParam`, a block by a `CreateBlock`.
#[derive(Debug)]
pub enum Inst {
    /// A word-sized constant, given by its bits.
    Iconst(u64),
    Binary(BinOp, usize, usize),
    /// A comparison, zero-extended to a word: 1 if it holds, else 0.
    Compare(Cond, usize, usize),
    /// The current value of a variable slot.
    UseVar(usize),
    /// Assigns a value to a variable slot.
    DefVar(usize, usize),
    /// A call of the named function, whose parameters and single result are
    /// words, on the given argument values.
    Call(String, Vec<usize>),
    /// The address of the named data symbol.
    GlobalAddr(String),
    /// The value of the function's parameter at this index.
    EntryParam(usize),
    /// Declares a word-sized variable slot.
    DeclareVar(usize),
    CreateBlock,
    /// Gives a block one parameter per function parameter.
    AppendEntryParams(usize),
    /// Gives a block one more word-sized parameter.
    AppendBlockParam(usize),
    /// Branches to the block if the value is zero.
    Brz(usize, usize),
    Jump(usize),
    /// Jumps to the block, handing it the value.
    JumpArg(usize, usize),
    SwitchToBlock(usize),
    /// States that the block will get no more predecessors.
    SealBlock(usize),
    Return(usize),
}

/// The abstract form of an instruction.
pub enum InstV {
    Iconst(u64),
    Binary(BinOp, int, int),
    Compare(Cond, int, int),
    UseVar(int),
    DefVar(int, int),
    Call(Seq<char>, Seq<int>),
    GlobalAddr(Seq<char>),
    EntryParam(int),
    DeclareVar(int),
    CreateBlock,
    AppendEntryParams(int),
    AppendBlockParam(int),
    Brz(int, int),
    Jump(int),
    JumpArg(int, int),
    SwitchToBlock(int),
    SealBlock(int),
    Return(int),
}

impl View for Inst {
    type V = InstV;

    open spec fn view(&self) -> InstV {
        match self {
            Inst::Iconst(k) => InstV::Iconst(*k),
            Inst::Binary(op, a, b) => InstV::Binary(*op, *a as int, *b as int),
            Inst::Compare(c, a, b) => InstV::Compare(*c, *a as int, *b as int),
            Inst::UseVar(v) => InstV::UseVar(*v as int),
            Inst::DefVar(v, x) => InstV::DefVar(*v as int, *x as int),
            Inst::Call(n, args) => InstV::Call(n@, args@.map_values(|a: usize| a as int)),
            Inst::GlobalAddr(n) => InstV::GlobalAddr(n@),
            Inst::EntryParam(i) => InstV::EntryParam(*i as int),
            Inst::DeclareVar(v) => InstV::DeclareVar(*v as int),
            Inst::CreateBlock => InstV::CreateBlock,
            Inst::AppendEntryParams(b) => InstV::AppendEntryParams(*b as int),
            Inst::AppendBlockParam(b) => InstV::AppendBlockParam(*b as int),
            Inst::Brz(x, b) => InstV::Brz(*x as int, *b as int),
            Inst::Jump(b) => InstV::Jump(*b as int),
            Inst::JumpArg(b, x) => InstV::JumpArg(*b as int, *x as int),
            Inst::SwitchToBlock(b) => InstV::SwitchToBlock(*b as int),
            Inst::SealBlock(b) => InstV::SealBlock(*b as int),
            Inst::Return(x) => InstV::Return(*x as int),
        }
    }
}

/// The name that an instruction calls, if it is a call.
pub open spec fn callee_of(i: Inst) -> Option<Seq<char>> {
    match i {
        Inst::Call(n, _) => Some(n@),
        _ => None,
    }
}

/// The abstract form of an instruction sequence.
pub open spec fn insts_of(s: Seq<Inst>) -> Seq<InstV> {
    s.map_values(|i: Inst| i@)
}

/// Appends `i` and returns its position.
pub fn emit(ops: &mut Vec<Inst>, i: Inst) -> (r: usize)
    ensures
        insts_of(final(ops)@) == insts_of(old(ops)@).push(i@),
        r == old(ops)@.len(),
{
    let r = ops.len();
    let ghost iv = i@;
    ops.push(i);
    assert(insts_of(ops@) =~= insts_of(old(ops)@).push(iv));
    r
}

/// A function ready for the backend: its name, its number of parameters,
/// and the builder calls that make its body. Every parameter and its single
/// result are words.
#[derive(Debug)]
pub struct FunctionIr {
    pub name: String,
    pub n_params: usize,
    pub insts: Vec<Inst>,
}

} // verus!
