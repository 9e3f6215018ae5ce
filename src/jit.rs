use vstd::prelude::*;
use crate::ast::{FunctionDef, emit_function, names_of};
use crate::calls::{CallSite, calls_all, collect_calls_all, settle, settle_calls, sites_of};
use crate::ir::{FunctionIr, Inst, callee_of, insts_of};
use crate::lexer::starts_token;
use crate::lower::{lower_function, names_known_all, translate_function};
use crate::parser::{SyntaxError, parse, parses_to};
use crate::vars::{declare_variables, table_of};

verus! {

/// Why a function or a data blob could not be added to a session.
#[derive(Debug)]
pub enum CompileError {
    /// The source does not fit the grammar.
    Syntax(SyntaxError),
    /// The body reads a variable that is neither a parameter, the return
    /// variable, nor assigned anywhere.
    UnknownVariable(String),
    /// A function, or a data blob, of this name is defined already.
    DuplicateDefinition(String),
    /// A function is called, or defined, with another number of arguments
    /// than it was declared with.
    ArityMismatch(String),
    /// The code generator refused the function.
    Backend(String),
}

/// A named, immutable blob of bytes that becomes a global symbol.
#[derive(Debug, Clone)]
pub struct DataDef {
    pub name: String,
    pub contents: Vec<u8>,
}

/// What a session holds: every function name declared, by a definition or
/// by a call, with its number of parameters; the functions defined; and the
/// data blobs defined.
pub struct JitView {
    pub declared: Seq<(Seq<char>, int)>,
    pub defined: Seq<Seq<char>>,
    pub data: Seq<(Seq<char>, Seq<u8>)>,
}

/// The calls that a definition declares: the function itself first, then
/// each call in its body.
pub open spec fn declarations(f: FunctionDef) -> Seq<(Seq<char>, int)> {
    seq![(f.name@, f.params@.len() as int)] + calls_all(f.body@)
}

/// The variable table of a definition.
pub open spec fn table(f: FunctionDef) -> Seq<Seq<char>> {
    table_of(names_of(f.params@), f.the_return@, f.body@)
}

/// What compiling definition `f` in session `st` gives: the result `r` and
/// the session `st2` after it. A definition whose name is defined already
/// is a duplicate; else one that uses a variable without a slot names it;
/// else one whose calls disagree in arity with the declarations names the
/// callee. Otherwise the function is lowered and recorded as defined, and
/// its callees as declared. A failure leaves the session as it was.
pub open spec fn compiles(st: JitView, f: FunctionDef, r: Result<FunctionIr, CompileError>, st2: JitView) -> bool {
    if st.defined.contains(f.name@) {
        (r matches Err(CompileError::DuplicateDefinition(n)) && n@ == f.name@) && st2 == st
    } else if !names_known_all(f.body@, table(f)) {
        (r matches Err(CompileError::UnknownVariable(n)) && !table(f).contains(n@)) && st2 == st
    } else if settle(st.declared, declarations(f)) is Err {
        (r matches Err(CompileError::ArityMismatch(n))
            && settle(st.declared, declarations(f)) == Err::<Seq<(Seq<char>, int)>, Seq<char>>(n@))
            && st2 == st
    } else {
        r matches Ok(ir) && ir.name@ == f.name@ && ir.n_params == f.params@.len()
            && insts_of(ir.insts@) == lower_function(table(f), names_of(f.params@), f.the_return@, f.body@)
            && settle(st.declared, declarations(f)) == Ok::<Seq<(Seq<char>, int)>, Seq<char>>(st2.declared)
            && st2.defined == st.defined.push(f.name@)
            && st2.data == st.data
    }
}

/// A JIT session: it accumulates function and data definitions across
/// compilations, and decides what each new definition may be.
#[derive(Clone)]
pub struct JIT {
    declared: Vec<CallSite>,
    defined: Vec<String>,
    data: Vec<DataDef>,
}

impl View for JIT {
    type V = JitView;

    closed spec fn view(&self) -> JitView {
        JitView {
            declared: sites_of(self.declared@),
            defined: self.defined@.map_values(|s: String| s@),
            data: self.data@.map_values(|d: DataDef| (d.name@, d.contents@)),
        }
    }
}

impl Default for JIT {
    fn default() -> (r: JIT)
        ensures
            r@.declared.len() == 0,
            r@.defined.len() == 0,
            r@.data.len() == 0,
    {
        JIT::new()
    }
}

impl JIT {
    /// An empty session.
    pub fn new() -> (r: JIT)
        ensures
            r@.declared.len() == 0,
            r@.defined.len() == 0,
            r@.data.len() == 0,
    {
        JIT { declared: Vec::new(), defined: Vec::new(), data: Vec::new() }
    }

    /// Whether a function of this name is defined in the session.
    pub fn is_defined(&self, name: &String) -> (r: bool)
        ensures
            r == self@.defined.contains(name@),
    {
        let mut i: usize = 0;
        while i < self.defined.len()
            invariant
                i <= self.defined@.len(),
                forall|k: int| 0 <= k < i ==> self@.defined[k] != name@,
            decreases self.defined@.len() - i,
        {
            if self.defined[i] == *name {
                assert(self@.defined[i as int] == name@);
                return true;
            }
            i = i + 1;
        }
        false
    }

    fn has_data(&self, name: &String) -> (r: bool)
        ensures
            r == exists|k: int| 0 <= k < self@.data.len() && #[trigger] self@.data[k].0 == name@,
    {
        let mut i: usize = 0;
        while i < self.data.len()
            invariant
                i <= self.data@.len(),
                forall|k: int| 0 <= k < i ==> #[trigger] self@.data[k].0 != name@,
            decreases self.data@.len() - i,
        {
            if self.data[i].name == *name {
                assert(self@.data[i as int].0 == name@);
                return true;
            }
            i = i + 1;
        }
        false
    }

    /// Compiles a parsed definition, as `compiles` says.
    pub fn compile_function(&mut self, f: &FunctionDef) -> (r: Result<FunctionIr, CompileError>)
        ensures
            compiles(old(self)@, *f, r, final(self)@),
    {
        if self.is_defined(&f.name) {
            return Err(CompileError::DuplicateDefinition(f.name.clone()));
        }
        let vars = declare_variables(&f.params, &f.the_return, &f.body);
        let insts = match translate_function(&vars, &f.params, &f.the_return, &f.body) {
            Ok(v) => v,
            Err(n) => { return Err(CompileError::UnknownVariable(n)); },
        };
        let mut sites: Vec<CallSite> = Vec::new();
        sites.push(CallSite { name: f.name.clone(), arity: f.params.len() });
        collect_calls_all(&f.body, &mut sites);
        assert(sites_of(sites@) =~= declarations(*f));
        let ghost before = self@;
        match settle_calls(&mut self.declared, &sites) {
            Ok(()) => {},
            Err(n) => {
                assert(self@ =~= before);
                return Err(CompileError::ArityMismatch(n));
            },
        }
        self.defined.push(f.name.clone());
        assert(self@.defined =~= before.defined.push(f.name@));
        Ok(FunctionIr { name: f.name.clone(), n_params: f.params.len(), insts })
    }

    /// Parses the source text of one function definition and compiles it.
    /// A syntax error comes exactly when the text is that of no canonical
    /// definition; otherwise the definition parsed fares as `compiles` says.
    /// A failure leaves the session as it was.
    pub fn compile(&mut self, input: &str) -> (r: Result<FunctionIr, CompileError>)
        ensures
            r is Err ==> final(self)@ == old(self)@,
            (r matches Err(CompileError::Syntax(_))) <==> !exists|f: FunctionDef| #[trigger] parses_to(input@, f),
            r matches Err(CompileError::Syntax(SyntaxError::BadChar(p))) ==> p < input@.len()
                && !starts_token(input@, p as int),
            !(r matches Err(CompileError::Syntax(_))) ==> exists|f: FunctionDef|
                #[trigger] parses_to(input@, f) && compiles(old(self)@, f, r, final(self)@),
    {
        let f = match parse(input) {
            Ok(f) => f,
            Err(e) => { return Err(CompileError::Syntax(e)); },
        };
        let r = self.compile_function(&f);
        proof {
            assert(parses_to(input@, f));
        }
        r
    }

    /// The callees of `ir` that are neither `ir` itself nor defined in the
    /// session, which will bind to process symbols if they bind at all: every
    /// such callee is among them, and each name among them is such a name.
    pub fn undefined_callees(&self, ir: &FunctionIr) -> (r: Vec<String>)
        ensures
            forall|i: int| 0 <= i < r@.len() ==> #[trigger] r@[i]@ != ir.name@
                && !self@.defined.contains(r@[i]@),
            forall|k: int| 0 <= k < ir.insts@.len() && #[trigger] callee_of(ir.insts@[k]) is Some
                && callee_of(ir.insts@[k])->Some_0 != ir.name@ && !self@.defined.contains(
                callee_of(ir.insts@[k])->Some_0,
            ) ==> exists|i: int| 0 <= i < r@.len() && r@[i]@ == callee_of(ir.insts@[k])->Some_0,
    {
        let mut r: Vec<String> = Vec::new();
        let mut k: usize = 0;
        while k < ir.insts.len()
            invariant
                k <= ir.insts@.len(),
                forall|i: int| 0 <= i < r@.len() ==> #[trigger] r@[i]@ != ir.name@
                    && !self@.defined.contains(r@[i]@),
                forall|j: int| 0 <= j < k && #[trigger] callee_of(ir.insts@[j]) is Some
                    && callee_of(ir.insts@[j])->Some_0 != ir.name@ && !self@.defined.contains(
                    callee_of(ir.insts@[j])->Some_0,
                ) ==> exists|i: int| 0 <= i < r@.len() && r@[i]@ == callee_of(ir.insts@[j])->Some_0,
            decreases ir.insts@.len() - k,
        {
            if let Inst::Call(callee, _) = &ir.insts[k] {
                if !(*callee == ir.name) && !self.is_defined(callee) {
                    let ghost before = r@;
                    r.push(callee.clone());
                    assert(r@[r@.len() - 1]@ == callee@);
                    assert forall|i: int| 0 <= i < before.len() implies r@[i] == before[i] by {}
                    assert(callee_of(ir.insts@[k as int]) == Some(r@[r@.len() - 1]@));
                }
            }
            k = k + 1;
        }
        r
    }

    /// Registers a data blob under `name`; a blob of that name defined
    /// already is a duplicate, and leaves the session as it was.
    pub fn create_data(&mut self, name: &str, contents: Vec<u8>) -> (r: Result<(), CompileError>)
        ensures
            (exists|k: int| 0 <= k < old(self)@.data.len() && #[trigger] old(self)@.data[k].0 == name@)
                ==> (r matches Err(CompileError::DuplicateDefinition(n)) && n@ == name@)
                && final(self)@ == old(self)@,
            !(exists|k: int| 0 <= k < old(self)@.data.len() && #[trigger] old(self)@.data[k].0 == name@)
                ==> r is Ok && final(self)@.data == old(self)@.data.push((name@, contents@))
                && final(self)@.declared == old(self)@.declared
                && final(self)@.defined == old(self)@.defined,
    {
        let name = name.to_owned();
        if self.has_data(&name) {
            return Err(CompileError::DuplicateDefinition(name));
        }
        let ghost before = self@;
        let ghost entry = (name@, contents@);
        self.data.push(DataDef { name, contents });
        assert(self@.data =~= before.data.push(entry));
        Ok(())
    }
}

/// A compilation that fails leaves the session unchanged, so whatever is
/// compiled next fares exactly as it would have without the failed attempt.
pub proof fn lemma_failed_compile_changes_nothing(
    st: JitView,
    f: FunctionDef,
    r: Result<FunctionIr, CompileError>,
    st1: JitView,
    g: FunctionDef,
    r2: Result<FunctionIr, CompileError>,
    st2: JitView,
)
    requires
        compiles(st, f, r, st1),
        r is Err,
    ensures
        st1 == st,
        compiles(st1, g, r2, st2) <==> compiles(st, g, r2, st2),
{
}

} // verus!
