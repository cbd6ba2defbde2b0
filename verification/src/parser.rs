//! The instruction model: programs, functions, operations, opcodes and
//! literals, together with the mathematical views that the contracts of
//! the optimization passes are stated over.
//!
//! Every name (a variable, a function or a label) is modelled in
//! specifications as a `Seq<char>`, the view of the `String` that holds
//! it at run time.

use vstd::prelude::*;

verus! {

/// The type attached to a destination or to a function argument/return.
#[derive(Clone, Copy, PartialEq, Eq, Structural, Debug)]
pub enum Type {
    Int,
    Bool,
}

/// An integer or boolean constant; carried only by `Const` operations.
#[derive(Clone, Copy, PartialEq, Eq, Structural, Debug)]
pub enum Literal {
    Number(usize),
    Bool(bool),
}

/// The closed set of operation codes.
#[derive(Clone, Copy, PartialEq, Eq, Structural, Debug)]
pub enum Opcode {
    Add,
    Mul,
    Sub,
    Div,
    Eq,
    Lt,
    Gt,
    Le,
    Ge,
    Not,
    And,
    Or,
    Jmp,
    Br,
    Call,
    Ret,
    Id,
    Print,
    Nop,
    Const,
}

/// An opcode that ends a basic block.
pub open spec fn is_terminator(op: Opcode) -> bool {
    op == Opcode::Jmp || op == Opcode::Br || op == Opcode::Ret
}

/// One instruction: either a computing operation or a label that marks a
/// jump target and performs no computation.
#[derive(Debug)]
pub enum Instr {
    Instruction {
        op: Opcode,
        dest: Option<String>,
        typ: Option<Type>,
        args: Option<Vec<String>>,
        funcs: Option<Vec<String>>,
        labels: Option<Vec<String>>,
        value: Option<Literal>,
    },
    Label { label: String },
}

/// View of an operation: every name as a character sequence.
#[verifier::ext_equal]
pub struct OpV {
    pub op: Opcode,
    pub dest: Option<Seq<char>>,
    pub typ: Option<Type>,
    pub args: Option<Seq<Seq<char>>>,
    pub funcs: Option<Seq<Seq<char>>>,
    pub labels: Option<Seq<Seq<char>>>,
    pub value: Option<Literal>,
}

/// View of an instruction.
#[verifier::ext_equal]
pub enum InstrV {
    Instruction(OpV),
    Label(Seq<char>),
}

impl View for Instr {
    type V = InstrV;

    open spec fn view(&self) -> InstrV {
        match self {
            Instr::Instruction { op, dest, typ, args, funcs, labels, value } => {
                InstrV::Instruction(
                    OpV {
                        op: *op,
                        dest: dest.deep_view(),
                        typ: *typ,
                        args: args.deep_view(),
                        funcs: funcs.deep_view(),
                        labels: labels.deep_view(),
                        value: *value,
                    },
                )
            },
            Instr::Label { label } => InstrV::Label(label@),
        }
    }
}

impl DeepView for Instr {
    type V = InstrV;

    open spec fn deep_view(&self) -> InstrV {
        self.view()
    }
}

impl InstrV {
    /// The operation carried by an `Instruction` view.
    pub open spec fn as_op(self) -> OpV {
        self->Instruction_0
    }
}

impl OpV {
    /// The argument list, with an absent list read as empty.
    pub open spec fn arg_seq(self) -> Seq<Seq<char>> {
        match self.args {
            Some(a) => a,
            None => Seq::empty(),
        }
    }

    /// The label list, with an absent list read as empty.
    pub open spec fn label_seq(self) -> Seq<Seq<char>> {
        match self.labels {
            Some(l) => l,
            None => Seq::empty(),
        }
    }
}

/// The view of the copy operation that value numbering rewrites a
/// redundant computation into.
pub open spec fn id_op_v(dest: Seq<char>, src: Seq<char>, typ: Option<Type>) -> OpV {
    OpV {
        op: Opcode::Id,
        dest: Some(dest),
        typ: typ,
        args: Some(seq![src]),
        funcs: None,
        labels: None,
        value: None,
    }
}

impl Instr {
    /// A copy instruction `dest: typ = id src`, preserving the declared
    /// type of the destination it replaces.
    pub fn new_id_instr(dest: &str, src: &str, typ: Type) -> (r: Self)
        ensures
            r@ == InstrV::Instruction(id_op_v(dest@, src@, Some(typ))),
    {
        let args_vec: Vec<String> = vec![dest_src_vec_elem(src)];
        proof {
            assert(args_vec.deep_view() =~= seq![src@]);
        }
        let r = Instr::Instruction {
            op: Opcode::Id,
            dest: Some(dest.to_owned()),
            typ: Some(typ),
            args: Some(args_vec),
            funcs: None,
            labels: None,
            value: None,
        };
        proof {
            assert(r@ =~= InstrV::Instruction(id_op_v(dest@, src@, Some(typ))));
        }
        r
    }
}

/// Copies one name out of a borrowed string slice.
fn dest_src_vec_elem(s: &str) -> (r: String)
    ensures
        r@ == s@,
{
    s.to_owned()
}

/// Copies a list of names.
pub(crate) fn clone_names(v: &Vec<String>) -> (r: Vec<String>)
    ensures
        r@ == v@,
{
    let mut r: Vec<String> = Vec::new();
    let n = v.len();
    let mut i: usize = 0;
    while i < n
        invariant
            i <= n,
            n == v@.len(),
            r@ == v@.take(i as int),
        decreases n - i,
    {
        r.push(v[i].clone());
        proof {
            assert(r@ =~= v@.take(i as int + 1));
        }
        i += 1;
    }
    proof {
        assert(v@.take(n as int) =~= v@);
    }
    r
}

/// Copies an optional list of names.
pub(crate) fn clone_opt_names(o: &Option<Vec<String>>) -> (r: Option<Vec<String>>)
    ensures
        r.deep_view() == o.deep_view(),
{
    match o {
        Some(v) => {
            let c = clone_names(v);
            proof {
                assert(c.deep_view() =~= v.deep_view());
            }
            Some(c)
        },
        None => None,
    }
}

/// Copies an optional name.
pub(crate) fn clone_opt_string(o: &Option<String>) -> (r: Option<String>)
    ensures
        r == *o,
{
    match o {
        Some(s) => Some(s.clone()),
        None => None,
    }
}

/// Copies one instruction.
pub(crate) fn clone_instr(ins: &Instr) -> (r: Instr)
    ensures
        r@ == ins@,
{
    match ins {
        Instr::Instruction { op, dest, typ, args, funcs, labels, value } => {
            let r = Instr::Instruction {
                op: *op,
                dest: clone_opt_string(dest),
                typ: *typ,
                args: clone_opt_names(args),
                funcs: clone_opt_names(funcs),
                labels: clone_opt_names(labels),
                value: *value,
            };
            proof {
                assert(r@ =~= ins@);
            }
            r
        },
        Instr::Label { label } => Instr::Label { label: label.clone() },
    }
}

/// Copies a list of instructions.
pub(crate) fn clone_instrs(v: &Vec<Instr>) -> (r: Vec<Instr>)
    ensures
        r.deep_view() == v.deep_view(),
{
    let mut r: Vec<Instr> = Vec::new();
    let n = v.len();
    let mut i: usize = 0;
    while i < n
        invariant
            i <= n,
            n == v@.len(),
            r@.len() == i as int,
            forall|j: int| #![auto] 0 <= j < i ==> r@[j]@ == v@[j]@,
        decreases n - i,
    {
        r.push(clone_instr(&v[i]));
        i += 1;
    }
    proof {
        assert(r.deep_view() =~= v.deep_view());
    }
    r
}

/// Pushing one element commutes with taking the deep view of a vector.
pub proof fn lemma_vec_deep_view_push<T: DeepView>(pre: Vec<T>, post: Vec<T>, x: T)
    requires
        post@ == pre@.push(x),
    ensures
        post.deep_view() == pre.deep_view().push(x.deep_view()),
{
    assert(post.deep_view() =~= pre.deep_view().push(x.deep_view()));
}

/// A function argument: a name with its declared type.
#[derive(Debug)]
pub struct Arg {
    pub name: String,
    pub typ: Type,
}

/// View of a function argument.
#[verifier::ext_equal]
pub struct ArgV {
    pub name: Seq<char>,
    pub typ: Type,
}

impl View for Arg {
    type V = ArgV;

    open spec fn view(&self) -> ArgV {
        ArgV { name: self.name@, typ: self.typ }
    }
}

impl DeepView for Arg {
    type V = ArgV;

    open spec fn deep_view(&self) -> ArgV {
        self.view()
    }
}

/// A function: a name, optional arguments, an optional return type and
/// an ordered instruction sequence.
#[derive(Debug)]
pub struct Function {
    pub name: String,
    pub args: Option<Vec<Arg>>,
    pub typ: Option<Type>,
    pub instrs: Vec<Instr>,
}

/// View of a function.
#[verifier::ext_equal]
pub struct FunctionV {
    pub name: Seq<char>,
    pub args: Option<Seq<ArgV>>,
    pub typ: Option<Type>,
    pub instrs: Seq<InstrV>,
}

impl View for Function {
    type V = FunctionV;

    open spec fn view(&self) -> FunctionV {
        FunctionV {
            name: self.name@,
            args: self.args.deep_view(),
            typ: self.typ,
            instrs: self.instrs.deep_view(),
        }
    }
}

impl DeepView for Function {
    type V = FunctionV;

    open spec fn deep_view(&self) -> FunctionV {
        self.view()
    }
}

/// A whole program: its functions in order.
#[derive(Debug)]
pub struct Bril {
    pub functions: Vec<Function>,
}

/// View of a program.
#[verifier::ext_equal]
pub struct BrilV {
    pub functions: Seq<FunctionV>,
}

/// Copies an optional argument list.
pub(crate) fn clone_opt_args(o: &Option<Vec<Arg>>) -> (r: Option<Vec<Arg>>)
    ensures
        r.deep_view() == o.deep_view(),
{
    match o {
        Some(v) => {
            let mut c: Vec<Arg> = Vec::new();
            let n = v.len();
            let mut i: usize = 0;
            while i < n
                invariant
                    i <= n,
                    n == v@.len(),
                    c@.len() == i as int,
                    forall|j: int| #![auto] 0 <= j < i ==> c@[j]@ == v@[j]@,
                decreases n - i,
            {
                c.push(Arg { name: v[i].name.clone(), typ: v[i].typ });
                i += 1;
            }
            proof {
                assert(c.deep_view() =~= v.deep_view());
            }
            Some(c)
        },
        None => None,
    }
}

impl View for Bril {
    type V = BrilV;

    open spec fn view(&self) -> BrilV {
        BrilV { functions: self.functions.deep_view() }
    }
}

} // verus!
