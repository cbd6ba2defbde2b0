//! Local value numbering: per block, a congruence table maps each
//! canonicalized operation tuple to a value number and a representative
//! variable. A recomputation of a tuple already in the table is
//! rewritten into a copy of the representative; argument references are
//! canonicalized through the copy chain, so that differently-named
//! copies of one source compare as congruent operands.
//!
//! The executable engine is specified against a small-step model:
//! [`lvn_step`] describes what one instruction does to the table state
//! and what it is rewritten into, and [`lvn_fold`] folds a whole block.

use vstd::prelude::*;

use crate::cfg::{instrs_well_formed, op_well_formed, ops_only, Block, BlockV, BrilCFG};
use crate::dce::{find_name_entry, name_entries};
use crate::parser::{
    clone_instr, id_op_v, lemma_vec_deep_view_push, Instr, InstrV, Literal, OpV, Opcode,
};
use crate::table::{
    assoc_map, lemma_assoc_map_dom, lemma_assoc_map_index, lemma_assoc_map_push,
    lemma_assoc_map_remove, lemma_unique_keys_push, lemma_unique_keys_remove, unique_keys,
};

verus! {

/// The opcode of a canonical tuple: the instruction's opcode, with a
/// constant load carrying its literal so that equal constants are
/// congruent and distinct ones are not.
#[allow(missing_docs)]
#[derive(Clone, Copy, PartialEq, Eq, Structural, Debug)]
pub enum LVNOpcode {
    Add,
    Mul,
    Sub,
    Div,
    Eq,
    Lt,
    Gt,
    Le,
    Ge,
    Not,
    And,
    Or,
    Jmp,
    Br,
    Call,
    Ret,
    Id,
    Print,
    Nop,
    Cst(Literal),
}

/// The tuple opcode of a plain opcode; a constant load takes the first
/// of the supplied literals.
pub open spec fn lvn_opcode_from(op: Opcode, vals: Seq<Literal>) -> LVNOpcode {
    match op {
        Opcode::Add => LVNOpcode::Add,
        Opcode::Mul => LVNOpcode::Mul,
        Opcode::Sub => LVNOpcode::Sub,
        Opcode::Div => LVNOpcode::Div,
        Opcode::Eq => LVNOpcode::Eq,
        Opcode::Lt => LVNOpcode::Lt,
        Opcode::Gt => LVNOpcode::Gt,
        Opcode::Le => LVNOpcode::Le,
        Opcode::Ge => LVNOpcode::Ge,
        Opcode::Not => LVNOpcode::Not,
        Opcode::And => LVNOpcode::And,
        Opcode::Or => LVNOpcode::Or,
        Opcode::Jmp => LVNOpcode::Jmp,
        Opcode::Br => LVNOpcode::Br,
        Opcode::Call => LVNOpcode::Call,
        Opcode::Ret => LVNOpcode::Ret,
        Opcode::Id => LVNOpcode::Id,
        Opcode::Print => LVNOpcode::Print,
        Opcode::Nop => LVNOpcode::Nop,
        Opcode::Const => LVNOpcode::Cst(vals[0]),
    }
}

/// The tuple opcode an operation view canonicalizes to.
pub open spec fn lvn_opcode_of(o: OpV) -> LVNOpcode {
    lvn_opcode_from(
        o.op,
        match o.value {
            Some(v) => seq![v],
            None => Seq::empty(),
        },
    )
}

/// A canonical tuple: tuple opcode and resolved argument value
/// numbers.
#[derive(Debug)]
pub struct LVNTuple {
    pub op: LVNOpcode,
    pub args: Vec<usize>,
}

/// View of a canonical tuple.
#[verifier::ext_equal]
pub struct TupleV {
    pub op: LVNOpcode,
    pub args: Seq<int>,
}

impl View for LVNTuple {
    type V = TupleV;

    open spec fn view(&self) -> TupleV {
        TupleV { op: self.op, args: Seq::new(self.args@.len(), |i: int| self.args@[i] as int) }
    }
}

impl DeepView for LVNTuple {
    type V = TupleV;

    open spec fn deep_view(&self) -> TupleV {
        self.view()
    }
}

impl LVNOpcode {
    /// The canonical tuple opcode of one instruction.
    pub fn from_instr(instr: &Instr) -> (r: Self)
        requires
            instr@ is Instruction,
            op_well_formed(instr@.as_op()),
        ensures
            r == lvn_opcode_of(instr@.as_op()),
    {
        match instr {
            Instr::Instruction { op, value, .. } => {
                let mut vals: Vec<Literal> = Vec::new();
                match op {
                    Opcode::Const => {
                        match value {
                            Some(v) => vals.push(*v),
                            None => {
                                proof {
                                    assert(false);
                                }
                            },
                        }
                    },
                    _ => {},
                }
                proof {
                    if instr@.as_op().op == Opcode::Const {
                        assert(vals@ =~= seq![instr@.as_op().value->0]);
                    }
                }
                Self::from_opcode(*op, &vals)
            },
            Instr::Label { .. } => {
                proof {
                    assert(false);
                }
                LVNOpcode::Nop
            },
        }
    }

    /// The tuple opcode of a plain opcode and its literals.
    fn from_opcode(op: Opcode, val: &Vec<Literal>) -> (r: Self)
        requires
            op == Opcode::Const ==> val@.len() == 1,
        ensures
            r == lvn_opcode_from(op, val@),
    {
        match op {
            Opcode::Add => LVNOpcode::Add,
            Opcode::Mul => LVNOpcode::Mul,
            Opcode::Sub => LVNOpcode::Sub,
            Opcode::Div => LVNOpcode::Div,
            Opcode::Eq => LVNOpcode::Eq,
            Opcode::Lt => LVNOpcode::Lt,
            Opcode::Gt => LVNOpcode::Gt,
            Opcode::Le => LVNOpcode::Le,
            Opcode::Ge => LVNOpcode::Ge,
            Opcode::Not => LVNOpcode::Not,
            Opcode::And => LVNOpcode::And,
            Opcode::Or => LVNOpcode::Or,
            Opcode::Jmp => LVNOpcode::Jmp,
            Opcode::Br => LVNOpcode::Br,
            Opcode::Call => LVNOpcode::Call,
            Opcode::Ret => LVNOpcode::Ret,
            Opcode::Id => LVNOpcode::Id,
            Opcode::Print => LVNOpcode::Print,
            Opcode::Nop => LVNOpcode::Nop,
            Opcode::Const => LVNOpcode::Cst(val[0]),
        }
    }
}

// ------------------------------------------------------------------
// The value-numbering model
// ------------------------------------------------------------------

/// The engine's state: the congruence table, the current value number
/// of each variable, the canonical tuple of each value number, and the
/// next fresh number.
#[verifier::ext_equal]
pub struct LvnStateV {
    pub table: Map<TupleV, (int, Seq<char>)>,
    pub var2num: Map<Seq<char>, int>,
    pub num2tuple: Seq<TupleV>,
    pub cur_num: int,
}

/// The engine's empty state.
pub open spec fn initial_lvn_state() -> LvnStateV {
    LvnStateV {
        table: Map::empty(),
        var2num: Map::empty(),
        num2tuple: Seq::empty(),
        cur_num: 0,
    }
}

/// The value number an argument resolves to: its current number,
/// except that a copy's number resolves to the copied operand's
/// number, collapsing copy chains.
pub open spec fn resolve_arg_v(st: LvnStateV, a: Seq<char>) -> int {
    let n = st.var2num[a];
    let t = st.num2tuple[n];
    if t.op == LVNOpcode::Id {
        t.args[0]
    } else {
        n
    }
}

/// The canonical tuple of an operation in a given state.
pub open spec fn tuple_of_instr(st: LvnStateV, o: OpV) -> TupleV {
    TupleV {
        op: lvn_opcode_of(o),
        args: o.arg_seq().map_values(|a: Seq<char>| resolve_arg_v(st, a)),
    }
}

/// The representative name an argument reference is rewritten to: the
/// representative recorded for its current value number's tuple, or
/// the name itself if it has no number yet.
pub open spec fn replace_var_v(st: LvnStateV, a: Seq<char>) -> Seq<char> {
    if st.var2num.contains_key(a) {
        let n = st.var2num[a];
        let t = st.num2tuple[n];
        st.table[t].1
    } else {
        a
    }
}

/// The operation with every argument reference canonicalized to its
/// representative name.
pub open spec fn rewrite_args_v(st: LvnStateV, o: OpV) -> OpV {
    OpV {
        args: Some(o.arg_seq().map_values(|a: Seq<char>| replace_var_v(st, a))),
        ..o
    }
}

/// One step of value numbering over one operation: a tuple already in
/// the table makes the instruction a copy of the representative; a
/// fresh tuple with a destination is recorded under a fresh number,
/// with the copy's source as representative for a copy and the
/// destination otherwise; arguments are canonicalized either way.
/// Destination-less instructions never populate the table.
pub open spec fn lvn_step(st: LvnStateV, o: OpV) -> (LvnStateV, OpV) {
    let t = tuple_of_instr(st, o);
    if st.table.contains_key(t) {
        match o.dest {
            Some(d) => (
                LvnStateV { var2num: st.var2num.insert(d, st.table[t].0), ..st },
                id_op_v(d, st.table[t].1, o.typ),
            ),
            None => (st, rewrite_args_v(st, o)),
        }
    } else {
        match o.dest {
            Some(d) => {
                let n = st.cur_num;
                let rep = if o.op == Opcode::Id {
                    o.arg_seq()[0]
                } else {
                    d
                };
                let st1 = LvnStateV {
                    table: st.table.insert(t, (n, rep)),
                    var2num: st.var2num.insert(d, n),
                    num2tuple: st.num2tuple.push(t),
                    cur_num: n + 1,
                };
                (st1, rewrite_args_v(st1, o))
            },
            None => (st, rewrite_args_v(st, o)),
        }
    }
}

/// The fold's accumulator: the engine state and the rewritten output.
#[verifier::ext_equal]
pub struct LvnFoldV {
    pub st: LvnStateV,
    pub out: Seq<OpV>,
}

/// Folds `lvn_step` over a block's operations.
pub open spec fn lvn_fold(s: Seq<OpV>, acc: LvnFoldV) -> LvnFoldV
    decreases s.len(),
{
    if s.len() == 0 {
        acc
    } else {
        let (st1, o1) = lvn_step(acc.st, s[0]);
        lvn_fold(s.drop_first(), LvnFoldV { st: st1, out: acc.out.push(o1) })
    }
}

/// The empty accumulator.
pub open spec fn initial_lvn_fold() -> LvnFoldV {
    LvnFoldV { st: initial_lvn_state(), out: Seq::empty() }
}

/// What one whole block's operations are rewritten into.
pub open spec fn lvn_block(s: Seq<OpV>) -> Seq<OpV> {
    lvn_fold(s, initial_lvn_fold()).out
}

/// Folding one more operation is one more step.
pub proof fn lemma_lvn_fold_snoc(s: Seq<OpV>, x: OpV, acc: LvnFoldV)
    ensures
        lvn_fold(s.push(x), acc) == ({
            let pre = lvn_fold(s, acc);
            let (st1, o1) = lvn_step(pre.st, x);
            LvnFoldV { st: st1, out: pre.out.push(o1) }
        }),
    decreases s.len(),
{
    if s.len() == 0 {
        assert(s.push(x).len() == 1);
        assert(s.push(x)[0] == x);
        assert(s.push(x).drop_first() =~= s);
        let (st1, o1) = lvn_step(acc.st, x);
        assert(lvn_fold(s.push(x), acc) == lvn_fold(s, LvnFoldV { st: st1, out: acc.out.push(o1) }));
        assert(lvn_fold(s, acc) == acc);
    } else {
        assert(s.push(x)[0] == s[0]);
        assert(s.push(x).drop_first() =~= s.drop_first().push(x));
        let (st1, o1) = lvn_step(acc.st, s[0]);
        lemma_lvn_fold_snoc(s.drop_first(), x, LvnFoldV { st: st1, out: acc.out.push(o1) });
        assert(lvn_fold(s.push(x), acc) == lvn_fold(
            s.drop_first().push(x),
            LvnFoldV { st: st1, out: acc.out.push(o1) },
        ));
        assert(lvn_fold(s, acc) == lvn_fold(
            s.drop_first(),
            LvnFoldV { st: st1, out: acc.out.push(o1) },
        ));
    }
}

/// The operation carried by each instruction view.
pub open spec fn op_views(s: Seq<InstrV>) -> Seq<OpV> {
    s.map_values(|x: InstrV| x.as_op())
}

/// Each operation as an instruction view.
pub open spec fn as_instrs(s: Seq<OpV>) -> Seq<InstrV> {
    s.map_values(|o: OpV| InstrV::Instruction(o))
}

/// Every argument read in the block was given a value by an earlier
/// instruction of the same block; this design assumes no block-entry
/// environment.
pub open spec fn args_bound(s: Seq<InstrV>) -> bool {
    forall|i: int, k: int|
        #![trigger s[i].as_op().arg_seq()[k]]
        0 <= i < s.len() && 0 <= k < s[i].as_op().arg_seq().len() ==> exists|j: int|
            0 <= j < i && (#[trigger] s[j]).as_op().dest == Some(s[i].as_op().arg_seq()[k])
}

/// A block value numbering accepts: label-free, well-formed, with all
/// reads bound in the block, and not yet numbered.
pub open spec fn block_lvn_ok(bk: BlockV) -> bool {
    &&& ops_only(bk.instrs)
    &&& instrs_well_formed(bk.instrs)
    &&& args_bound(bk.instrs)
    &&& !bk.numbered
}

// ------------------------------------------------------------------
// Numbering-then-dce soundness
// ------------------------------------------------------------------

/// Two operations that compute the same thing — same non-copy opcode,
/// same literal, identical argument lists — into distinct
/// destinations.
pub open spec fn duplicate_ops(x: OpV, y: OpV) -> bool {
    &&& x.op == y.op
    &&& x.op != Opcode::Id
    &&& x.value == y.value
    &&& x.args == y.args
    &&& x.dest is Some
    &&& y.dest is Some
    &&& x.dest != y.dest
}

/// No two instructions of the sequence are duplicate computations.
pub open spec fn no_duplicate_computations(s: Seq<InstrV>) -> bool {
    forall|p: int, q: int|
        0 <= p < s.len() && 0 <= q < s.len() && p != q ==> !((#[trigger] s[p]) is Instruction
            && (#[trigger] s[q]) is Instruction && duplicate_ops(s[p].as_op(), s[q].as_op()))
}

/// No name is defined twice in the sequence.
pub open spec fn distinct_dests(s: Seq<InstrV>) -> bool {
    forall|i: int, j: int|
        0 <= i < j < s.len() && (#[trigger] s[i]).as_op().dest is Some && (
        #[trigger] s[j]).as_op().dest is Some ==> s[i].as_op().dest != s[j].as_op().dest
}

/// The value number a recorded number dereferences to: itself, or the
/// copied operand's number for a copy tuple.
pub open spec fn deref_num(st: LvnStateV, n: int) -> int {
    if st.num2tuple[n].op == LVNOpcode::Id {
        st.num2tuple[n].args[0]
    } else {
        n
    }
}

/// The coherence invariant the engine state keeps over a block whose
/// instructions all write distinct names: the bound names are exactly
/// the destinations seen so far, the listed tuples are pairwise
/// distinct and agree with the table in both directions, every
/// recorded representative is bound and resolves to its own number's
/// dereference, and every bound number is in range.
pub open spec fn good_state(st: LvnStateV, s: Seq<OpV>, i: int) -> bool {
    &&& st.cur_num == st.num2tuple.len()
    &&& forall|nm: Seq<char>| #[trigger]
        st.var2num.contains_key(nm) ==> exists|j: int|
            0 <= j < i && (#[trigger] s[j]).dest == Some(nm)
    &&& forall|j: int|
        0 <= j < i && (#[trigger] s[j]).dest is Some ==> st.var2num.contains_key(
            s[j].dest->0,
        )
    &&& forall|n1: int, n2: int|
        0 <= n1 < n2 < st.num2tuple.len() ==> #[trigger] st.num2tuple[n1]
            != #[trigger] st.num2tuple[n2]
    &&& forall|n: int|
        0 <= n < st.num2tuple.len() ==> st.table.contains_key(#[trigger] st.num2tuple[n])
            && st.table[st.num2tuple[n]].0 == n
    &&& forall|t: TupleV| #[trigger]
        st.table.contains_key(t) ==> 0 <= st.table[t].0 < st.num2tuple.len()
            && st.num2tuple[st.table[t].0] == t
    &&& forall|n: int|
        0 <= n < st.num2tuple.len() ==> st.var2num.contains_key(
            #[trigger] st.table[st.num2tuple[n]].1,
        ) && resolve_arg_v(st, st.table[st.num2tuple[n]].1) == deref_num(st, n)
    &&& forall|nm: Seq<char>| #[trigger]
        st.var2num.contains_key(nm) ==> 0 <= st.var2num[nm] < st.num2tuple.len()
}

/// What the rewritten output guarantees so far: every emitted
/// non-copy computation reads only bound names and its tuple,
/// recomputed in the current state, is in the table; and no two
/// emitted operations are duplicate computations.
pub open spec fn out_inv(st: LvnStateV, out: Seq<OpV>) -> bool {
    &&& forall|k: int|
        0 <= k < out.len() && (#[trigger] out[k]).op != Opcode::Id && out[k].dest is Some
            ==> (forall|j: int|
            0 <= j < out[k].arg_seq().len() ==> st.var2num.contains_key(
                #[trigger] out[k].arg_seq()[j],
            )) && st.table.contains_key(tuple_of_instr(st, out[k]))
    &&& forall|k1: int, k2: int|
        0 <= k1 < k2 < out.len() ==> !duplicate_ops(
            #[trigger] out[k1],
            #[trigger] out[k2],
        )
}

/// Rewriting an argument reference preserves its resolved number.
proof fn lemma_replace_resolve(st: LvnStateV, s: Seq<OpV>, i: int, a: Seq<char>)
    requires
        good_state(st, s, i),
        st.var2num.contains_key(a),
    ensures
        st.var2num.contains_key(replace_var_v(st, a)),
        resolve_arg_v(st, replace_var_v(st, a)) == resolve_arg_v(st, a),
{
    let n = st.var2num[a];
    let t = st.num2tuple[n];
    assert(st.table.contains_key(t) && st.table[t].0 == n);
    assert(replace_var_v(st, a) == st.table[t].1);
    assert(resolve_arg_v(st, st.table[t].1) == deref_num(st, n));
}

/// The per-operation conditions of the soundness law, stated over the
/// operation views of a block.
pub open spec fn ops_ok(s: Seq<OpV>) -> bool {
    &&& forall|j: int| 0 <= j < s.len() ==> op_well_formed(#[trigger] s[j])
    &&& forall|j: int, k: int|
        #![trigger s[j].arg_seq()[k]]
        0 <= j < s.len() && 0 <= k < s[j].arg_seq().len() ==> exists|j2: int|
            0 <= j2 < j && (#[trigger] s[j2]).dest == Some(s[j].arg_seq()[k])
    &&& forall|j1: int, j2: int|
        0 <= j1 < j2 < s.len() && (#[trigger] s[j1]).dest is Some && (
        #[trigger] s[j2]).dest is Some ==> s[j1].dest != s[j2].dest
}

/// The fold keeps the coherence invariant and never emits two
/// duplicate computations, for a block without redefinitions.
#[verifier::rlimit(100)]
proof fn lemma_lvn_fold_good(s: Seq<OpV>, i: int)
    requires
        0 <= i <= s.len(),
        ops_ok(s),
    ensures
        ({
            let acc = lvn_fold(s.take(i), initial_lvn_fold());
            &&& good_state(acc.st, s, i)
            &&& acc.out.len() == i
            &&& out_inv(acc.st, acc.out)
        }),
    decreases i,
{
    if i == 0 {
        assert(s.take(0) =~= Seq::<OpV>::empty());
        let acc = lvn_fold(s.take(0), initial_lvn_fold());
        assert(acc == initial_lvn_fold());
    } else {
        lemma_lvn_fold_good(s, i - 1);
        let acc0 = lvn_fold(s.take(i - 1), initial_lvn_fold());
        let st = acc0.st;
        let o = s[i - 1];
        assert(s.take(i) =~= s.take(i - 1).push(o));
        lemma_lvn_fold_snoc(s.take(i - 1), o, initial_lvn_fold());
        let acc = lvn_fold(s.take(i), initial_lvn_fold());
        let t = tuple_of_instr(st, o);
        assert(op_well_formed(o));
        // Every argument of o is bound, and none equals o's own
        // destination.
        assert forall|k: int|
            0 <= k < o.arg_seq().len() implies st.var2num.contains_key(
            #[trigger] o.arg_seq()[k],
        ) && (o.dest is Some ==> Some(o.arg_seq()[k]) != o.dest) by {
            assert(s[i - 1].arg_seq()[k] == o.arg_seq()[k]);
            let j2 = choose|j2: int|
                0 <= j2 < i - 1 && (#[trigger] s[j2]).dest == Some(s[i - 1].arg_seq()[k]);
            assert(st.var2num.contains_key(o.arg_seq()[k]));
            if o.dest is Some && Some(o.arg_seq()[k]) == o.dest {
                assert(s[j2].dest == s[i - 1].dest);
                assert(false);
            }
        }
        // o's destination, if any, is not yet bound.
        if o.dest is Some {
            assert(!st.var2num.contains_key(o.dest->0)) by {
                if st.var2num.contains_key(o.dest->0) {
                    let j = choose|j: int|
                        0 <= j < i - 1 && (#[trigger] s[j]).dest == Some(o.dest->0);
                    assert(s[j].dest == s[i - 1].dest);
                    assert(false);
                }
            }
        }
        if st.table.contains_key(t) {
            match o.dest {
                Some(d) => {
                    let n = st.table[t].0;
                    let st1 = LvnStateV { var2num: st.var2num.insert(d, n), ..st };
                    assert(acc.st == st1);
                    assert(acc.out == acc0.out.push(id_op_v(d, st.table[t].1, o.typ)));
                    lemma_state_after_bind(st, s, i, d, n, acc0.out);
                },
                None => {
                    assert(acc.st == st);
                    lemma_state_stutter(st, s, i, acc0.out, rewrite_args_v(st, o));
                },
            }
        } else {
            match o.dest {
                Some(d) => {
                    lemma_state_after_fresh(st, s, i, acc0.out);
                },
                None => {
                    assert(acc.st == st);
                    lemma_state_stutter(st, s, i, acc0.out, rewrite_args_v(st, o));
                },
            }
        }
    }
}

/// A destination-less step leaves the state unchanged; the rewritten
/// instruction has no destination, so the output invariant carries
/// over.
proof fn lemma_state_stutter(st: LvnStateV, s: Seq<OpV>, i: int, out: Seq<OpV>, o1: OpV)
    requires
        1 <= i <= s.len(),
        ops_ok(s),
        good_state(st, s, i - 1),
        out_inv(st, out),
        o1.dest is None,
        s[i - 1].dest is None,
    ensures
        good_state(st, s, i),
        out_inv(st, out.push(o1)),
{
    assert forall|nm: Seq<char>| #[trigger] st.var2num.contains_key(nm) implies exists|j: int|
        0 <= j < i && (#[trigger] s[j]).dest == Some(nm) by {
        let j = choose|j: int| 0 <= j < i - 1 && (#[trigger] s[j]).dest == Some(nm);
        assert(0 <= j < i && s[j].dest == Some(nm));
    }
    let out1 = out.push(o1);
    assert forall|k1: int, k2: int| 0 <= k1 < k2 < out1.len() implies !duplicate_ops(
        #[trigger] out1[k1],
        #[trigger] out1[k2],
    ) by {
        if k2 == out.len() {
            assert(out1[k2].dest is None);
        } else {
            assert(out1[k1] == out[k1] && out1[k2] == out[k2]);
        }
    }
    assert forall|k: int|
        0 <= k < out1.len() && (#[trigger] out1[k]).op != Opcode::Id && out1[k].dest is Some
            implies (forall|j: int|
        0 <= j < out1[k].arg_seq().len() ==> st.var2num.contains_key(
            #[trigger] out1[k].arg_seq()[j],
        )) && st.table.contains_key(tuple_of_instr(st, out1[k])) by {
        assert(out1[k] == out[k]);
    }
}

/// Binding a fresh destination to an existing number preserves the
/// coherence invariant; the emitted copy carries the new destination
/// and the recorded representative.
proof fn lemma_state_after_bind(
    st: LvnStateV,
    s: Seq<OpV>,
    i: int,
    d: Seq<char>,
    n: int,
    out: Seq<OpV>,
)
    requires
        1 <= i <= s.len(),
        ops_ok(s),
        good_state(st, s, i - 1),
        out_inv(st, out),
        s[i - 1].dest == Some(d),
        !st.var2num.contains_key(d),
        st.table.contains_key(tuple_of_instr(st, s[i - 1])),
        n == st.table[tuple_of_instr(st, s[i - 1])].0,
    ensures
        ({
            let st1 = LvnStateV { var2num: st.var2num.insert(d, n), ..st };
            let o1 = id_op_v(d, st.table[tuple_of_instr(st, s[i - 1])].1, s[i - 1].typ);
            &&& good_state(st1, s, i)
            &&& out_inv(st1, out.push(o1))
        }),
{
    let t = tuple_of_instr(st, s[i - 1]);
    let st1 = LvnStateV { var2num: st.var2num.insert(d, n), ..st };
    let o1 = id_op_v(d, st.table[t].1, s[i - 1].typ);
    // Resolution and replacement of names other than d are untouched.
    assert forall|a: Seq<char>| #[trigger]
        st.var2num.contains_key(a) implies st1.var2num.contains_key(a) && resolve_arg_v(
        st1,
        a,
    ) == resolve_arg_v(st, a) by {
        assert(a != d);
        assert(st1.var2num[a] == st.var2num[a]);
    }
    // The coherence invariant.
    assert forall|nm: Seq<char>| #[trigger] st1.var2num.contains_key(nm) implies exists|j: int|
        0 <= j < i && (#[trigger] s[j]).dest == Some(nm) by {
        if nm == d {
            assert(s[i - 1].dest == Some(nm));
        } else {
            let j = choose|j: int| 0 <= j < i - 1 && (#[trigger] s[j]).dest == Some(nm);
            assert(0 <= j < i && s[j].dest == Some(nm));
        }
    }
    assert(good_state(st1, s, i)) by {
        assert forall|nn: int|
            0 <= nn < st1.num2tuple.len() implies st1.var2num.contains_key(
            #[trigger] st1.table[st1.num2tuple[nn]].1,
        ) && resolve_arg_v(st1, st1.table[st1.num2tuple[nn]].1) == deref_num(st1, nn) by {
            assert(st.var2num.contains_key(st.table[st.num2tuple[nn]].1));
            assert(st.table[st.num2tuple[nn]].1 != d);
        }
        assert forall|nm: Seq<char>| #[trigger]
            st1.var2num.contains_key(nm) implies 0 <= st1.var2num[nm]
            < st1.num2tuple.len() by {
            if nm == d {
                assert(0 <= n < st.num2tuple.len());
            }
        }
    }
    // The output invariant: the new instruction is a copy.
    let out1 = out.push(o1);
    assert forall|k1: int, k2: int| 0 <= k1 < k2 < out1.len() implies !duplicate_ops(
        #[trigger] out1[k1],
        #[trigger] out1[k2],
    ) by {
        if k2 == out.len() {
            assert(out1[k2].op == Opcode::Id);
        } else {
            assert(out1[k1] == out[k1] && out1[k2] == out[k2]);
        }
    }
    assert forall|k: int|
        0 <= k < out1.len() && (#[trigger] out1[k]).op != Opcode::Id && out1[k].dest is Some
            implies (forall|j: int|
        0 <= j < out1[k].arg_seq().len() ==> st1.var2num.contains_key(
            #[trigger] out1[k].arg_seq()[j],
        )) && st1.table.contains_key(tuple_of_instr(st1, out1[k])) by {
        assert(out1[k] == out[k]);
        assert forall|j: int|
            0 <= j < out[k].arg_seq().len() implies st1.var2num.contains_key(
            #[trigger] out[k].arg_seq()[j],
        ) by {
            assert(st.var2num.contains_key(out[k].arg_seq()[j]));
        }
        assert(tuple_of_instr(st1, out[k]) =~= tuple_of_instr(st, out[k])) by {
            assert(out[k].arg_seq().map_values(|a: Seq<char>| resolve_arg_v(st1, a))
                =~= out[k].arg_seq().map_values(|a: Seq<char>| resolve_arg_v(st, a))) by {
                assert forall|j: int|
                    0 <= j < out[k].arg_seq().len() implies resolve_arg_v(
                    st1,
                    #[trigger] out[k].arg_seq()[j],
                ) == resolve_arg_v(st, out[k].arg_seq()[j]) by {
                    assert(st.var2num.contains_key(out[k].arg_seq()[j]));
                }
            }
        }
    }
}

/// Recording a fresh computation preserves the coherence invariant,
/// and the emitted rewritten instruction cannot duplicate any earlier
/// one: its tuple was absent from the table, while every earlier
/// surviving computation's tuple is present.
#[verifier::rlimit(100)]
proof fn lemma_state_after_fresh(st: LvnStateV, s: Seq<OpV>, i: int, out: Seq<OpV>)
    requires
        1 <= i <= s.len(),
        ops_ok(s),
        good_state(st, s, i - 1),
        out_inv(st, out),
        s[i - 1].dest is Some,
        !st.var2num.contains_key(s[i - 1].dest->0),
        !st.table.contains_key(tuple_of_instr(st, s[i - 1])),
        forall|k: int|
            0 <= k < s[i - 1].arg_seq().len() ==> st.var2num.contains_key(
                #[trigger] s[i - 1].arg_seq()[k],
            ),
    ensures
        ({
            let o = s[i - 1];
            let t = tuple_of_instr(st, o);
            let d = o.dest->0;
            let rep = if o.op == Opcode::Id {
                o.arg_seq()[0]
            } else {
                d
            };
            let st1 = LvnStateV {
                table: st.table.insert(t, (st.cur_num, rep)),
                var2num: st.var2num.insert(d, st.cur_num),
                num2tuple: st.num2tuple.push(t),
                cur_num: st.cur_num + 1,
            };
            &&& lvn_step(st, o) == (st1, rewrite_args_v(st1, o))
            &&& good_state(st1, s, i)
            &&& out_inv(st1, out.push(rewrite_args_v(st1, o)))
        }),
{
    let o = s[i - 1];
    let t = tuple_of_instr(st, o);
    let d = o.dest->0;
    let n = st.cur_num;
    let rep = if o.op == Opcode::Id {
        o.arg_seq()[0]
    } else {
        d
    };
    let st1 = LvnStateV {
        table: st.table.insert(t, (n, rep)),
        var2num: st.var2num.insert(d, n),
        num2tuple: st.num2tuple.push(t),
        cur_num: n + 1,
    };
    let o1 = rewrite_args_v(st1, o);
    assert(lvn_step(st, o) == (st1, o1));
    // No argument of o equals o's own destination.
    assert forall|k: int| 0 <= k < o.arg_seq().len() implies #[trigger] o.arg_seq()[k]
        != d by {
        assert(s[i - 1].arg_seq()[k] == o.arg_seq()[k]);
        let j2 = choose|j2: int|
            0 <= j2 < i - 1 && (#[trigger] s[j2]).dest == Some(s[i - 1].arg_seq()[k]);
        if o.arg_seq()[k] == d {
            assert(s[j2].dest == s[i - 1].dest);
            assert(false);
        }
    }
    // Stability of the old bindings under the three insertions.
    assert forall|a: Seq<char>| #[trigger]
        st.var2num.contains_key(a) implies a != d && st1.var2num.contains_key(a)
        && st1.var2num[a] == st.var2num[a] && resolve_arg_v(st1, a) == resolve_arg_v(st, a)
        && replace_var_v(st1, a) == replace_var_v(st, a) by {
        assert(a != d);
        let na = st.var2num[a];
        assert(0 <= na < st.num2tuple.len());
        assert(st1.num2tuple[na] == st.num2tuple[na]);
        assert(st.table.contains_key(st.num2tuple[na]));
        assert(st.num2tuple[na] != t);
        assert(st1.table[st.num2tuple[na]] == st.table[st.num2tuple[na]]);
    }
    // The coherence invariant of the extended state.
    assert forall|nm: Seq<char>| #[trigger] st1.var2num.contains_key(nm) implies exists|j: int|
        0 <= j < i && (#[trigger] s[j]).dest == Some(nm) by {
        if nm == d {
            assert(s[i - 1].dest == Some(nm));
        } else {
            let j = choose|j: int| 0 <= j < i - 1 && (#[trigger] s[j]).dest == Some(nm);
            assert(0 <= j < i && s[j].dest == Some(nm));
        }
    }
    assert forall|n1: int, n2: int|
        0 <= n1 < n2 < st1.num2tuple.len() implies #[trigger] st1.num2tuple[n1]
        != #[trigger] st1.num2tuple[n2] by {
        if n2 == st1.num2tuple.len() - 1 {
            assert(st1.num2tuple[n1] == st.num2tuple[n1]);
            assert(st.table.contains_key(st.num2tuple[n1]));
            assert(st1.num2tuple[n2] == t);
        } else {
            assert(st1.num2tuple[n1] == st.num2tuple[n1]);
            assert(st1.num2tuple[n2] == st.num2tuple[n2]);
        }
    }
    assert forall|nn: int|
        0 <= nn < st1.num2tuple.len() implies st1.table.contains_key(
        #[trigger] st1.num2tuple[nn],
    ) && st1.table[st1.num2tuple[nn]].0 == nn by {
        if nn == st1.num2tuple.len() - 1 {
            assert(st1.num2tuple[nn] == t);
        } else {
            assert(st1.num2tuple[nn] == st.num2tuple[nn]);
            assert(st.num2tuple[nn] != t);
        }
    }
    assert forall|t2: TupleV| #[trigger] st1.table.contains_key(t2) implies 0 <= st1.table[t2].0
        < st1.num2tuple.len() && st1.num2tuple[st1.table[t2].0] == t2 by {
        if t2 == t {
            assert(st1.num2tuple[n] == t);
        } else {
            assert(st.table.contains_key(t2));
            assert(st1.num2tuple[st.table[t2].0] == st.num2tuple[st.table[t2].0]);
        }
    }
    // The tuple opcode is a copy exactly when the operation is.
    assert(t.op == LVNOpcode::Id <==> o.op == Opcode::Id) by {
        if o.op != Opcode::Id {
            assert(lvn_opcode_of(o) != LVNOpcode::Id);
        }
    }
    assert forall|nn: int|
        0 <= nn < st1.num2tuple.len() implies st1.var2num.contains_key(
        #[trigger] st1.table[st1.num2tuple[nn]].1,
    ) && resolve_arg_v(st1, st1.table[st1.num2tuple[nn]].1) == deref_num(st1, nn) by {
        if nn == st1.num2tuple.len() - 1 {
            assert(st1.num2tuple[nn] == t);
            assert(st1.table[t] == (n, rep));
            if o.op == Opcode::Id {
                assert(op_well_formed(s[i - 1]));
                assert(o.arg_seq().len() == 1);
                assert(rep == o.arg_seq()[0]);
                assert(st.var2num.contains_key(rep));
                assert(resolve_arg_v(st1, rep) == resolve_arg_v(st, rep));
                assert(t.args == o.arg_seq().map_values(
                    |a: Seq<char>| resolve_arg_v(st, a),
                ));
                assert(t.args[0] == resolve_arg_v(st, o.arg_seq()[0]));
                assert(deref_num(st1, nn) == t.args[0]);
            } else {
                assert(rep == d);
                assert(st1.var2num[d] == n);
                assert(st1.num2tuple[n] == t);
                assert(t.op != LVNOpcode::Id);
                assert(resolve_arg_v(st1, d) == n);
                assert(deref_num(st1, nn) == nn);
            }
        } else {
            assert(st1.num2tuple[nn] == st.num2tuple[nn]);
            assert(st.num2tuple[nn] != t);
            assert(st1.table[st.num2tuple[nn]] == st.table[st.num2tuple[nn]]);
            let r2 = st.table[st.num2tuple[nn]].1;
            assert(st.var2num.contains_key(r2));
            assert(resolve_arg_v(st1, r2) == resolve_arg_v(st, r2));
            assert(deref_num(st1, nn) == deref_num(st, nn));
        }
    }
    assert forall|nm: Seq<char>| #[trigger] st1.var2num.contains_key(nm) implies 0
        <= st1.var2num[nm] < st1.num2tuple.len() by {
        if nm != d {
            assert(st.var2num.contains_key(nm));
        }
    }
    assert(good_state(st1, s, i));
    // The rewritten instruction's tuple, in the new state, is the
    // inserted one.
    assert(o1.args == Some(o.arg_seq().map_values(|a: Seq<char>| replace_var_v(st1, a))));
    let rw = o.arg_seq().map_values(|a: Seq<char>| replace_var_v(st1, a));
    assert(o1.arg_seq() == rw);
    assert forall|j: int| 0 <= j < rw.len() implies st.var2num.contains_key(
        #[trigger] rw[j],
    ) && resolve_arg_v(st, rw[j]) == resolve_arg_v(st, o.arg_seq()[j]) by {
        assert(rw[j] == replace_var_v(st1, o.arg_seq()[j]));
        assert(st.var2num.contains_key(o.arg_seq()[j]));
        assert(replace_var_v(st1, o.arg_seq()[j]) == replace_var_v(st, o.arg_seq()[j]));
        lemma_replace_resolve(st, s, i - 1, o.arg_seq()[j]);
    }
    assert(tuple_of_instr(st1, o1) == t) by {
        assert(lvn_opcode_of(o1) == lvn_opcode_of(o));
        assert forall|j: int| 0 <= j < rw.len() implies resolve_arg_v(st1, #[trigger] rw[j])
            == t.args[j] by {
            assert(st.var2num.contains_key(rw[j]));
            assert(resolve_arg_v(st1, rw[j]) == resolve_arg_v(st, rw[j]));
            assert(t.args[j] == resolve_arg_v(st, o.arg_seq()[j]));
        }
        assert(tuple_of_instr(st1, o1).args =~= t.args);
        assert(tuple_of_instr(st1, o1) =~= t);
    }
    // The output invariant.
    let out1 = out.push(o1);
    assert forall|k: int|
        0 <= k < out1.len() && (#[trigger] out1[k]).op != Opcode::Id && out1[k].dest is Some
            implies (forall|j: int|
        0 <= j < out1[k].arg_seq().len() ==> st1.var2num.contains_key(
            #[trigger] out1[k].arg_seq()[j],
        )) && st1.table.contains_key(tuple_of_instr(st1, out1[k])) by {
        if k == out.len() {
            assert(out1[k] == o1);
            assert forall|j: int|
                0 <= j < o1.arg_seq().len() implies st1.var2num.contains_key(
                #[trigger] o1.arg_seq()[j],
            ) by {
                assert(st.var2num.contains_key(rw[j]));
            }
            assert(st1.table.contains_key(t));
        } else {
            assert(out1[k] == out[k]);
            assert forall|j: int|
                0 <= j < out[k].arg_seq().len() implies st1.var2num.contains_key(
                #[trigger] out[k].arg_seq()[j],
            ) by {
                assert(st.var2num.contains_key(out[k].arg_seq()[j]));
            }
            assert(tuple_of_instr(st1, out[k]) =~= tuple_of_instr(st, out[k])) by {
                assert forall|j: int|
                    0 <= j < out[k].arg_seq().len() implies resolve_arg_v(
                    st1,
                    #[trigger] out[k].arg_seq()[j],
                ) == resolve_arg_v(st, out[k].arg_seq()[j]) by {
                    assert(st.var2num.contains_key(out[k].arg_seq()[j]));
                }
                assert(tuple_of_instr(st1, out[k]).args =~= tuple_of_instr(st, out[k]).args);
            }
            assert(st.table.contains_key(tuple_of_instr(st, out[k])));
            assert(tuple_of_instr(st, out[k]) != t);
        }
    }
    assert forall|k1: int, k2: int| 0 <= k1 < k2 < out1.len() implies !duplicate_ops(
        #[trigger] out1[k1],
        #[trigger] out1[k2],
    ) by {
        if k2 == out.len() {
            assert(out1[k1] == out[k1]);
            assert(out1[k2] == o1);
            if duplicate_ops(out[k1], o1) {
                // The earlier computation's tuple is in the old table,
                // and equals the fresh one's: a contradiction.
                assert(out[k1].op != Opcode::Id && out[k1].dest is Some);
                assert(st.table.contains_key(tuple_of_instr(st, out[k1])));
                assert(tuple_of_instr(st, out[k1]) == t) by {
                    assert(lvn_opcode_of(out[k1]) == lvn_opcode_of(o1));
                    assert(lvn_opcode_of(o1) == lvn_opcode_of(o));
                    assert(out[k1].arg_seq() == o1.arg_seq());
                    assert forall|j: int|
                        0 <= j < out[k1].arg_seq().len() implies resolve_arg_v(
                        st,
                        #[trigger] out[k1].arg_seq()[j],
                    ) == t.args[j] by {
                        assert(out[k1].arg_seq()[j] == rw[j]);
                        assert(resolve_arg_v(st, rw[j]) == resolve_arg_v(
                            st,
                            o.arg_seq()[j],
                        ));
                        assert(t.args[j] == resolve_arg_v(st, o.arg_seq()[j]));
                    }
                    assert(tuple_of_instr(st, out[k1]).args =~= t.args);
                    assert(tuple_of_instr(st, out[k1]) =~= t);
                }
                assert(false);
            }
        } else {
            assert(out1[k1] == out[k1] && out1[k2] == out[k2]);
        }
    }
}

/// Value numbering alone leaves no two duplicate computations in a
/// block without redefinitions.
pub proof fn lemma_lvn_no_duplicates(s: Seq<InstrV>)
    requires
        ops_only(s),
        instrs_well_formed(s),
        args_bound(s),
        distinct_dests(s),
    ensures
        no_duplicate_computations(as_instrs(lvn_block(op_views(s)))),
{
    let ops = op_views(s);
    assert(ops_ok(ops)) by {
        assert(forall|j: int| 0 <= j < ops.len() ==> #[trigger] ops[j] == s[j].as_op());
        assert forall|j: int| 0 <= j < ops.len() implies op_well_formed(#[trigger] ops[j]) by {
            assert(s[j] is Instruction);
        }
        assert forall|j: int, k: int|
            #![trigger ops[j].arg_seq()[k]]
            0 <= j < ops.len() && 0 <= k < ops[j].arg_seq().len() implies exists|j2: int|
            0 <= j2 < j && (#[trigger] ops[j2]).dest == Some(ops[j].arg_seq()[k]) by {
            assert(s[j].as_op().arg_seq()[k] == ops[j].arg_seq()[k]);
            let j2 = choose|j2: int|
                0 <= j2 < j && (#[trigger] s[j2]).as_op().dest == Some(
                    s[j].as_op().arg_seq()[k],
                );
            assert(ops[j2].dest == Some(ops[j].arg_seq()[k]));
        }
        assert forall|j1: int, j2: int|
            0 <= j1 < j2 < ops.len() && (#[trigger] ops[j1]).dest is Some && (
            #[trigger] ops[j2]).dest is Some implies ops[j1].dest != ops[j2].dest by {
            assert(s[j1].as_op().dest is Some && s[j2].as_op().dest is Some);
        }
    }
    lemma_lvn_fold_good(ops, ops.len() as int);
    assert(ops.take(ops.len() as int) =~= ops);
    let out = lvn_block(ops);
    let r = as_instrs(out);
    assert forall|p: int, q: int|
        0 <= p < r.len() && 0 <= q < r.len() && p != q implies !((#[trigger] r[p])
        is Instruction && (#[trigger] r[q]) is Instruction && duplicate_ops(
        r[p].as_op(),
        r[q].as_op(),
    )) by {
        assert(r[p] == InstrV::Instruction(out[p]));
        assert(r[q] == InstrV::Instruction(out[q]));
        if p < q {
            assert(!duplicate_ops(out[p], out[q]));
        } else {
            assert(!duplicate_ops(out[q], out[p]));
        }
    }
}

/// A sequence whose instructions all come from a duplicate-free one is
/// itself duplicate-free.
pub proof fn lemma_subset_no_duplicates(s0: Seq<InstrV>, r: Seq<InstrV>)
    requires
        no_duplicate_computations(s0),
        forall|x: InstrV| #[trigger] r.contains(x) ==> s0.contains(x),
    ensures
        no_duplicate_computations(r),
{
    assert forall|p: int, q: int|
        0 <= p < r.len() && 0 <= q < r.len() && p != q implies !((#[trigger] r[p])
        is Instruction && (#[trigger] r[q]) is Instruction && duplicate_ops(
        r[p].as_op(),
        r[q].as_op(),
    )) by {
        if r[p] is Instruction && r[q] is Instruction && duplicate_ops(
            r[p].as_op(),
            r[q].as_op(),
        ) {
            assert(r.contains(r[p]));
            assert(r.contains(r[q]));
            let p0 = choose|p0: int| 0 <= p0 < s0.len() && s0[p0] == r[p];
            let q0 = choose|q0: int| 0 <= q0 < s0.len() && s0[q0] == r[q];
            assert(r[p] != r[q]) by {
                assert(r[p].as_op().dest != r[q].as_op().dest);
            }
            assert(p0 != q0);
            assert(false);
        }
    }
}

/// Numbering-then-dce soundness: in a block where no name is defined
/// twice, after value numbering and both dead-code passes no two
/// structurally identical, argument-identical non-copy operations with
/// distinct destinations remain.
pub proof fn lemma_numbering_then_dce_sound(s: Seq<InstrV>)
    requires
        ops_only(s),
        instrs_well_formed(s),
        args_bound(s),
        distinct_dests(s),
    ensures
        no_duplicate_computations(
            crate::dce::dce_b_fix(
                crate::dce::dce_a_fix(as_instrs(lvn_block(op_views(s)))),
            ),
        ),
{
    lemma_lvn_no_duplicates(s);
    let l = as_instrs(lvn_block(op_views(s)));
    crate::dce::lemma_dce_a_sound(l);
    lemma_subset_no_duplicates(l, crate::dce::dce_a_fix(l));
    crate::dce::lemma_dce_b_sound(crate::dce::dce_a_fix(l));
    lemma_subset_no_duplicates(
        crate::dce::dce_a_fix(l),
        crate::dce::dce_b_fix(crate::dce::dce_a_fix(l)),
    );
}

// ------------------------------------------------------------------
// The executable engine
// ------------------------------------------------------------------

/// The transient value-numbering tables of one block.
pub struct LVN {
    pub table: Vec<(LVNTuple, usize, String)>,
    pub var2num: Vec<(String, usize)>,
    pub num2tuple: Vec<LVNTuple>,
    pub cur_num: usize,
}

/// Copies a list of value numbers.
fn clone_nums(v: &Vec<usize>) -> (r: Vec<usize>)
    ensures
        r@ == v@,
{
    let mut r: Vec<usize> = Vec::new();
    let n = v.len();
    let mut i: usize = 0;
    while i < n
        invariant
            i <= n,
            n == v@.len(),
            r@ == v@.take(i as int),
        decreases n - i,
    {
        r.push(v[i]);
        proof {
            assert(r@ =~= v@.take(i as int + 1));
        }
        i += 1;
    }
    proof {
        assert(v@.take(n as int) =~= v@);
    }
    r
}

/// Whether two number lists are equal.
fn nums_eq(a: &Vec<usize>, b: &Vec<usize>) -> (r: bool)
    ensures
        r == (a@ == b@),
{
    if a.len() != b.len() {
        proof {
            assert(a@ != b@);
        }
        return false;
    }
    let n = a.len();
    let mut i: usize = 0;
    while i < n
        invariant
            i <= n,
            n == a@.len(),
            n == b@.len(),
            forall|m: int| 0 <= m < i ==> a@[m] == b@[m],
        decreases n - i,
    {
        if a[i] != b[i] {
            return false;
        }
        i += 1;
    }
    proof {
        assert(a@ =~= b@);
    }
    true
}

/// Whether two canonical tuples are equal.
fn tuple_eq(a: &LVNTuple, b: &LVNTuple) -> (r: bool)
    ensures
        r == (a@ == b@),
{
    let ops_equal = a.op == b.op;
    let args_equal = nums_eq(&a.args, &b.args);
    proof {
        if a.args@ == b.args@ {
            assert(a@.args =~= b@.args);
        }
        if a@.args == b@.args {
            assert(a.args@.len() == b.args@.len()) by {
                assert(a@.args.len() == a.args@.len());
                assert(b@.args.len() == b.args@.len());
            }
            assert forall|m: int| 0 <= m < a.args@.len() implies a.args@[m] == b.args@[m] by {
                assert(a@.args[m] == b@.args[m]);
                assert(a@.args[m] == a.args@[m] as int);
                assert(b@.args[m] == b.args@[m] as int);
            }
            assert(a.args@ =~= b.args@);
        }
        if ops_equal && args_equal {
            assert(a@ =~= b@);
        }
    }
    ops_equal && args_equal
}

/// Copies a canonical tuple.
fn clone_tuple(t: &LVNTuple) -> (r: LVNTuple)
    ensures
        r@ == t@,
{
    LVNTuple { op: t.op, args: clone_nums(&t.args) }
}

impl LVN {
    /// View of the congruence table's entries.
    pub open spec fn table_entries(&self) -> Seq<(TupleV, (int, Seq<char>))> {
        self.table@.map_values(
            |e: (LVNTuple, usize, String)| (e.0@, (e.1 as int, e.2@)),
        )
    }

    /// The mathematical state the tables denote.
    pub open spec fn view_state(&self) -> LvnStateV {
        LvnStateV {
            table: assoc_map(self.table_entries()),
            var2num: assoc_map(name_entries(self.var2num@)),
            num2tuple: self.num2tuple.deep_view(),
            cur_num: self.cur_num as int,
        }
    }

    /// The tables' internal invariant: entry keys are distinct, every
    /// recorded value number points into the tuple list, a copy tuple
    /// carries exactly one operand, and every listed tuple is in the
    /// table.
    pub open spec fn wf(&self) -> bool {
        &&& unique_keys(self.table_entries())
        &&& unique_keys(name_entries(self.var2num@))
        &&& forall|m: int|
            0 <= m < self.var2num@.len() ==> (#[trigger] self.var2num@[m]).1
                < self.num2tuple@.len()
        &&& forall|m: int|
            0 <= m < self.table@.len() ==> (#[trigger] self.table@[m]).1
                < self.num2tuple@.len()
        &&& forall|m: int|
            0 <= m < self.num2tuple@.len() ==> ((#[trigger] self.num2tuple@[m])@.op
                == LVNOpcode::Id ==> self.num2tuple@[m]@.args.len() == 1)
        &&& forall|m: int|
            0 <= m < self.num2tuple@.len() ==> self.view_state().table.contains_key(
                (#[trigger] self.num2tuple@[m])@,
            )
    }

    /// Fresh, empty tables.
    pub fn new() -> (r: Self)
        ensures
            r.wf(),
            r.view_state() == initial_lvn_state(),
            r.cur_num == 0,
            r.num2tuple@.len() == 0,
    {
        let r = Self { table: Vec::new(), var2num: Vec::new(), num2tuple: Vec::new(), cur_num: 0 };
        proof {
            assert(r.table_entries() =~= Seq::<(TupleV, (int, Seq<char>))>::empty());
            assert(name_entries(r.var2num@) =~= Seq::<(Seq<char>, int)>::empty());
            assert(assoc_map(r.table_entries()) =~= Map::<TupleV, (int, Seq<char>)>::empty());
            assert(assoc_map(name_entries(r.var2num@)) =~= Map::<Seq<char>, int>::empty());
            assert(r.num2tuple.deep_view() =~= Seq::<TupleV>::empty());
            assert(r.view_state() =~= initial_lvn_state());
        }
        r
    }

    /// Hands out the next fresh value number.
    pub fn next_var_num(&mut self) -> (n: usize)
        requires
            old(self).cur_num < usize::MAX,
        ensures
            n == old(self).cur_num,
            final(self).cur_num == old(self).cur_num + 1,
            final(self).table == old(self).table,
            final(self).var2num == old(self).var2num,
            final(self).num2tuple == old(self).num2tuple,
    {
        let ret = self.cur_num;
        self.cur_num = self.cur_num + 1;
        ret
    }

    /// Finds the table entry of a tuple, if present.
    fn find_table(&self, t: &LVNTuple) -> (r: Option<usize>)
        ensures
            match r {
                Some(idx) => 0 <= idx < self.table@.len() && self.table@[idx as int].0@ == t@,
                None => forall|m: int|
                    0 <= m < self.table@.len() ==> (#[trigger] self.table@[m]).0@ != t@,
            },
    {
        let n = self.table.len();
        let mut m: usize = 0;
        while m < n
            invariant
                m <= n,
                n == self.table@.len(),
                forall|p: int| 0 <= p < m ==> (#[trigger] self.table@[p]).0@ != t@,
            decreases n - m,
        {
            if tuple_eq(&self.table[m].0, t) {
                return Some(m);
            }
            m += 1;
        }
        None
    }

    /// The representative name an argument reference is rewritten to.
    fn replace_var(&self, var: &String) -> (r: String)
        requires
            self.wf(),
        ensures
            r@ == replace_var_v(self.view_state(), var@),
    {
        let ghost st = self.view_state();
        match find_name_entry(&self.var2num, var) {
            Some(idx) => {
                proof {
                    lemma_assoc_map_index(name_entries(self.var2num@), idx as int);
                    assert(st.var2num.contains_key(var@));
                    assert(st.var2num[var@] == self.var2num@[idx as int].1 as int);
                }
                let num = self.var2num[idx].1;
                proof {
                    assert(self.num2tuple.deep_view()[num as int] == self.num2tuple@[num as int]@);
                }
                let t = &self.num2tuple[num];
                match self.find_table(t) {
                    Some(tidx) => {
                        proof {
                            lemma_assoc_map_index(self.table_entries(), tidx as int);
                            assert(self.table_entries()[tidx as int].0 == t@);
                            assert(st.table[t@].1 == self.table@[tidx as int].2@);
                        }
                        self.table[tidx].2.clone()
                    },
                    None => {
                        proof {
                            assert(st.table.contains_key(self.num2tuple@[num as int]@));
                            lemma_assoc_map_dom(self.table_entries(), t@);
                            let m = choose|m: int|
                                0 <= m < self.table_entries().len() && (
                                #[trigger] self.table_entries()[m]).0 == t@;
                            assert(self.table@[m].0@ == t@);
                            assert(false);
                        }
                        var.clone()
                    },
                }
            },
            None => {
                proof {
                    lemma_assoc_map_dom(name_entries(self.var2num@), var@);
                    if st.var2num.contains_key(var@) {
                        let m = choose|m: int|
                            0 <= m < name_entries(self.var2num@).len() && (
                            #[trigger] name_entries(self.var2num@)[m]).0 == var@;
                        assert(self.var2num@[m].0@ == var@);
                        assert(false);
                    }
                }
                var.clone()
            },
        }
    }

    /// The resolved value number of one argument.
    fn resolve_arg(&self, arg: &String) -> (n: usize)
        requires
            self.wf(),
            self.view_state().var2num.contains_key(arg@),
        ensures
            n as int == resolve_arg_v(self.view_state(), arg@),
    {
        let ghost st = self.view_state();
        match find_name_entry(&self.var2num, arg) {
            Some(idx) => {
                proof {
                    lemma_assoc_map_index(name_entries(self.var2num@), idx as int);
                    assert(st.var2num[arg@] == self.var2num@[idx as int].1 as int);
                }
                let num = self.var2num[idx].1;
                proof {
                    assert(self.num2tuple.deep_view()[num as int] == self.num2tuple@[num as int]@);
                }
                let t = &self.num2tuple[num];
                if t.op == LVNOpcode::Id {
                    proof {
                        assert(t@.args.len() == 1);
                        assert(t@.args[0] == t.args@[0] as int);
                    }
                    t.args[0]
                } else {
                    num
                }
            },
            None => {
                proof {
                    lemma_assoc_map_dom(name_entries(self.var2num@), arg@);
                    let m = choose|m: int|
                        0 <= m < name_entries(self.var2num@).len() && (
                        #[trigger] name_entries(self.var2num@)[m]).0 == arg@;
                    assert(self.var2num@[m].0@ == arg@);
                    assert(false);
                }
                0
            },
        }
    }

    /// The canonical tuple of one instruction in the current state.
    pub fn tuple_from_instr(&self, instr: &Instr) -> (t: LVNTuple)
        requires
            self.wf(),
            instr@ is Instruction,
            op_well_formed(instr@.as_op()),
            forall|k: int|
                0 <= k < instr@.as_op().arg_seq().len()
                    ==> self.view_state().var2num.contains_key(
                    #[trigger] instr@.as_op().arg_seq()[k],
                ),
        ensures
            t@ == tuple_of_instr(self.view_state(), instr@.as_op()),
    {
        let ghost st = self.view_state();
        let ghost o = instr@.as_op();
        let op = LVNOpcode::from_instr(instr);
        let mut nums: Vec<usize> = Vec::new();
        match instr {
            Instr::Instruction { args, .. } => {
                match args {
                    Some(a) => {
                        proof {
                            assert(a.deep_view() == o.arg_seq());
                        }
                        let na = a.len();
                        let mut k: usize = 0;
                        while k < na
                            invariant
                                k <= na,
                                na == a@.len(),
                                a.deep_view() == o.arg_seq(),
                                self.wf(),
                                st == self.view_state(),
                                forall|k2: int|
                                    0 <= k2 < o.arg_seq().len() ==> st.var2num.contains_key(
                                        #[trigger] o.arg_seq()[k2],
                                    ),
                                nums@.len() == k,
                                forall|k2: int|
                                    0 <= k2 < k ==> (#[trigger] nums@[k2]) as int
                                        == resolve_arg_v(st, o.arg_seq()[k2]),
                            decreases na - k,
                        {
                            proof {
                                assert(a@[k as int]@ == o.arg_seq()[k as int]);
                            }
                            let n = self.resolve_arg(&a[k]);
                            nums.push(n);
                            k += 1;
                        }
                    },
                    None => {
                        proof {
                            assert(o.arg_seq().len() == 0);
                        }
                    },
                }
            },
            Instr::Label { .. } => {
                proof {
                    assert(false);
                }
            },
        }
        let t = LVNTuple { op, args: nums };
        proof {
            assert(t@ =~= tuple_of_instr(st, o));
        }
        t
    }

    /// Binds a destination name to a value number.
    fn bind_dest(&mut self, dest: &String, n: usize)
        requires
            old(self).wf(),
            n < old(self).num2tuple@.len(),
        ensures
            final(self).wf(),
            final(self).view_state() == (LvnStateV {
                var2num: old(self).view_state().var2num.insert(dest@, n as int),
                ..old(self).view_state()
            }),
            final(self).cur_num == old(self).cur_num,
            final(self).num2tuple == old(self).num2tuple,
            final(self).table == old(self).table,
    {
        let ghost st0 = self.view_state();
        match find_name_entry(&self.var2num, dest) {
            Some(idx) => {
                proof {
                    lemma_assoc_map_remove(name_entries(self.var2num@), idx as int);
                    lemma_unique_keys_remove(name_entries(self.var2num@), idx as int);
                    assert(name_entries(self.var2num@.remove(idx as int)) =~= name_entries(
                        self.var2num@,
                    ).remove(idx as int));
                }
                let ghost pre = self.var2num@;
                self.var2num.remove(idx);
                proof {
                    assert(forall|m: int|
                        0 <= m < name_entries(self.var2num@).len() ==> (#[trigger] name_entries(
                            self.var2num@,
                        )[m]).0 != dest@) by {
                        assert(forall|m: int|
                            0 <= m < self.var2num@.len() ==> #[trigger] self.var2num@[m]
                                == pre.remove(idx as int)[m]);
                        assert(forall|m: int|
                            0 <= m < pre.remove(idx as int).len()
                                ==> #[trigger] pre.remove(idx as int)[m] == (if m < idx {
                                pre[m]
                            } else {
                                pre[m + 1]
                            }));
                    }
                }
            },
            None => {
                proof {
                    lemma_assoc_map_dom(name_entries(self.var2num@), dest@);
                    if st0.var2num.contains_key(dest@) {
                        let m = choose|m: int|
                            0 <= m < name_entries(self.var2num@).len() && (
                            #[trigger] name_entries(self.var2num@)[m]).0 == dest@;
                        assert(self.var2num@[m].0@ == dest@);
                        assert(false);
                    }
                    assert(assoc_map(name_entries(self.var2num@)).remove(dest@) =~= assoc_map(
                        name_entries(self.var2num@),
                    ));
                }
            },
        }
        proof {
            lemma_unique_keys_push(name_entries(self.var2num@), dest@, n as int);
            lemma_assoc_map_push(name_entries(self.var2num@), dest@, n as int);
        }
        let ghost pre2 = name_entries(self.var2num@);
        self.var2num.push((dest.clone(), n));
        proof {
            assert(name_entries(self.var2num@) =~= pre2.push((dest@, n as int)));
            assert(assoc_map(name_entries(self.var2num@)) =~= st0.var2num.insert(
                dest@,
                n as int,
            ));
            assert(self.view_state() =~= (LvnStateV {
                var2num: st0.var2num.insert(dest@, n as int),
                ..st0
            }));
        }
    }

    /// Records a fresh computation: a new value number for the tuple,
    /// the tuple in the table under its representative, and the
    /// destination bound to the number.
    fn insert_mappings(&mut self, tuple: LVNTuple, dest: &String, rep: String)
        requires
            old(self).wf(),
            old(self).cur_num < usize::MAX,
            old(self).cur_num == old(self).num2tuple@.len(),
            !old(self).view_state().table.contains_key(tuple@),
            tuple@.op == LVNOpcode::Id ==> tuple@.args.len() == 1,
        ensures
            final(self).wf(),
            final(self).cur_num == old(self).cur_num + 1,
            final(self).num2tuple@.len() == old(self).num2tuple@.len() + 1,
            final(self).view_state() == (LvnStateV {
                table: old(self).view_state().table.insert(
                    tuple@,
                    (old(self).cur_num as int, rep@),
                ),
                var2num: old(self).view_state().var2num.insert(
                    dest@,
                    old(self).cur_num as int,
                ),
                num2tuple: old(self).view_state().num2tuple.push(tuple@),
                cur_num: old(self).cur_num + 1,
            }),
    {
        let ghost st0 = self.view_state();
        let n = self.next_var_num();
        let t2 = clone_tuple(&tuple);
        proof {
            lemma_assoc_map_dom(self.table_entries(), tuple@);
            assert(forall|m: int|
                0 <= m < self.table_entries().len() ==> (#[trigger] self.table_entries()[m]).0
                    != tuple@);
            lemma_unique_keys_push(self.table_entries(), tuple@, (n as int, rep@));
            lemma_assoc_map_push(self.table_entries(), tuple@, (n as int, rep@));
        }
        let ghost pre_table = self.table_entries();
        let ghost grep = rep;
        self.table.push((t2, n, rep));
        proof {
            assert(self.table_entries() =~= pre_table.push((tuple@, (n as int, grep@))));
            assert(assoc_map(self.table_entries()) =~= st0.table.insert(
                tuple@,
                (n as int, grep@),
            ));
        }
        let ghost gtuple = tuple;
        self.num2tuple.push(tuple);
        proof {
            assert(self.num2tuple.deep_view() =~= st0.num2tuple.push(gtuple@)) by {
                crate::parser::lemma_vec_deep_view_push(
                    old(self).num2tuple,
                    self.num2tuple,
                    gtuple,
                );
            }
        }
        // Bind the destination, keeping the keys distinct.
        match find_name_entry(&self.var2num, dest) {
            Some(idx) => {
                proof {
                    lemma_assoc_map_remove(name_entries(self.var2num@), idx as int);
                    lemma_unique_keys_remove(name_entries(self.var2num@), idx as int);
                    assert(name_entries(self.var2num@.remove(idx as int)) =~= name_entries(
                        self.var2num@,
                    ).remove(idx as int));
                }
                let ghost pre = self.var2num@;
                self.var2num.remove(idx);
                proof {
                    assert(forall|m: int|
                        0 <= m < name_entries(self.var2num@).len() ==> (#[trigger] name_entries(
                            self.var2num@,
                        )[m]).0 != dest@) by {
                        assert(forall|m: int|
                            0 <= m < self.var2num@.len() ==> #[trigger] self.var2num@[m]
                                == pre.remove(idx as int)[m]);
                        assert(forall|m: int|
                            0 <= m < pre.remove(idx as int).len()
                                ==> #[trigger] pre.remove(idx as int)[m] == (if m < idx {
                                pre[m]
                            } else {
                                pre[m + 1]
                            }));
                    }
                }
            },
            None => {
                proof {
                    lemma_assoc_map_dom(name_entries(self.var2num@), dest@);
                    if assoc_map(name_entries(self.var2num@)).contains_key(dest@) {
                        let m = choose|m: int|
                            0 <= m < name_entries(self.var2num@).len() && (
                            #[trigger] name_entries(self.var2num@)[m]).0 == dest@;
                        assert(self.var2num@[m].0@ == dest@);
                        assert(false);
                    }
                    assert(assoc_map(name_entries(self.var2num@)).remove(dest@) =~= assoc_map(
                        name_entries(self.var2num@),
                    ));
                }
            },
        }
        proof {
            lemma_unique_keys_push(name_entries(self.var2num@), dest@, n as int);
            lemma_assoc_map_push(name_entries(self.var2num@), dest@, n as int);
        }
        let ghost pre2 = name_entries(self.var2num@);
        self.var2num.push((dest.clone(), n));
        proof {
            assert(name_entries(self.var2num@) =~= pre2.push((dest@, n as int)));
            assert(assoc_map(name_entries(self.var2num@)) =~= st0.var2num.insert(
                dest@,
                n as int,
            ));
            assert(self.view_state() =~= (LvnStateV {
                table: st0.table.insert(gtuple@, (n as int, grep@)),
                var2num: st0.var2num.insert(dest@, n as int),
                num2tuple: st0.num2tuple.push(gtuple@),
                cur_num: n + 1,
            }));
            // The invariant holds of the extended tables.
            assert forall|m: int|
                0 <= m < self.num2tuple@.len() implies self.view_state().table.contains_key(
                (#[trigger] self.num2tuple@[m])@,
            ) by {
                if m < self.num2tuple@.len() - 1 {
                    assert(self.num2tuple@[m] == old(self).num2tuple@[m]);
                    assert(st0.table.contains_key(self.num2tuple@[m]@));
                } else {
                    assert(self.num2tuple@[m]@ == gtuple@);
                }
            }
        }
    }

    /// The instruction with every argument reference rewritten to its
    /// representative name.
    pub fn rewrite_instr_args(&self, instr: &Instr) -> (r: Instr)
        requires
            self.wf(),
            instr@ is Instruction,
        ensures
            r@ == InstrV::Instruction(rewrite_args_v(self.view_state(), instr@.as_op())),
    {
        let ghost st = self.view_state();
        let ghost o = instr@.as_op();
        match instr {
            Instr::Instruction { op, dest, typ, args, funcs, labels, value } => {
                let mut new_args: Vec<String> = Vec::new();
                match args {
                    Some(a) => {
                        proof {
                            assert(a.deep_view() == o.arg_seq());
                        }
                        let na = a.len();
                        let mut k: usize = 0;
                        while k < na
                            invariant
                                k <= na,
                                na == a@.len(),
                                a.deep_view() == o.arg_seq(),
                                self.wf(),
                                st == self.view_state(),
                                new_args@.len() == k,
                                forall|k2: int|
                                    0 <= k2 < k ==> (#[trigger] new_args@[k2])@
                                        == replace_var_v(st, o.arg_seq()[k2]),
                            decreases na - k,
                        {
                            proof {
                                assert(a@[k as int]@ == o.arg_seq()[k as int]);
                            }
                            let rn = self.replace_var(&a[k]);
                            new_args.push(rn);
                            k += 1;
                        }
                    },
                    None => {
                        proof {
                            assert(o.arg_seq().len() == 0);
                        }
                    },
                }
                let ret = Instr::Instruction {
                    op: *op,
                    dest: crate::parser::clone_opt_string(dest),
                    typ: *typ,
                    args: Some(new_args),
                    funcs: crate::parser::clone_opt_names(funcs),
                    labels: crate::parser::clone_opt_names(labels),
                    value: *value,
                };
                proof {
                    assert(ret@ =~= InstrV::Instruction(rewrite_args_v(st, o)));
                }
                ret
            },
            Instr::Label { .. } => {
                proof {
                    assert(false);
                }
                clone_instr(instr)
            },
        }
    }
}

impl Block {
    /// Value-numbers this block in place: each instruction's canonical
    /// tuple is computed; a recomputation becomes a copy of the
    /// recorded representative; a fresh computation with a destination
    /// is recorded under a fresh number; and argument references are
    /// canonicalized. Must be invoked at most once per block.
    pub fn lvn(&mut self)
        requires
            block_lvn_ok(old(self)@),
        ensures
            final(self).instrs.deep_view() == as_instrs(
                lvn_block(op_views(old(self).instrs.deep_view())),
            ),
            ops_only(final(self).instrs.deep_view()),
            final(self).numbered,
            final(self).name == old(self).name,
            final(self).func == old(self).func,
            final(self).succ == old(self).succ,
    {
        let ghost s = self.instrs.deep_view();
        let ghost ops = op_views(s);
        let mut lvn = LVN::new();
        let mut out: Vec<Instr> = Vec::new();
        let n = self.instrs.len();
        let mut i: usize = 0;
        proof {
            assert(ops.take(0) =~= Seq::<OpV>::empty());
            assert(out.deep_view() =~= Seq::<InstrV>::empty());
            assert(as_instrs(Seq::<OpV>::empty()) =~= Seq::<InstrV>::empty());
        }
        while i < n
            invariant
                i <= n,
                n == self.instrs@.len(),
                s == self.instrs.deep_view(),
                ops == op_views(s),
                ops_only(s),
                instrs_well_formed(s),
                args_bound(s),
                lvn.wf(),
                lvn.cur_num == lvn.num2tuple@.len(),
                lvn.cur_num <= i,
                ({
                    let acc = lvn_fold(ops.take(i as int), initial_lvn_fold());
                    &&& lvn.view_state() == acc.st
                    &&& out.deep_view() == as_instrs(acc.out)
                }),
                forall|j: int|
                    0 <= j < i && (#[trigger] s[j]).as_op().dest is Some
                        ==> lvn.view_state().var2num.contains_key(s[j].as_op().dest->0),
            decreases n - i,
        {
            let ghost acc_i = lvn_fold(ops.take(i as int), initial_lvn_fold());
            let ghost o = s[i as int].as_op();
            proof {
                assert(self.instrs@[i as int].deep_view() == s[i as int]);
                assert(ops[i as int] == o);
                assert(ops.take(i as int + 1) =~= ops.take(i as int).push(o));
                lemma_lvn_fold_snoc(ops.take(i as int), o, initial_lvn_fold());
                assert(op_well_formed(o));
                assert forall|k: int|
                    0 <= k < o.arg_seq().len() implies lvn.view_state().var2num.contains_key(
                    #[trigger] o.arg_seq()[k],
                ) by {
                    assert(s[i as int].as_op().arg_seq()[k] == o.arg_seq()[k]);
                    let j = choose|j: int|
                        0 <= j < i && (#[trigger] s[j]).as_op().dest == Some(
                            s[i as int].as_op().arg_seq()[k],
                        );
                    assert(s[j].as_op().dest is Some);
                }
            }
            let instr = &self.instrs[i];
            let tuple = lvn.tuple_from_instr(instr);
            let ghost tv = tuple@;
            proof {
                assert(tv == tuple_of_instr(acc_i.st, o));
            }
            match lvn.find_table(&tuple) {
                Some(idx) => {
                    proof {
                        lemma_assoc_map_index(lvn.table_entries(), idx as int);
                        assert(acc_i.st.table.contains_key(tv));
                        assert(acc_i.st.table[tv] == (
                            lvn.table@[idx as int].1 as int,
                            lvn.table@[idx as int].2@,
                        ));
                    }
                    let num = lvn.table[idx].1;
                    let var = lvn.table[idx].2.clone();
                    match instr {
                        Instr::Instruction { dest: Some(d), typ, .. } => {
                            let ty = match typ {
                                Some(t) => *t,
                                None => {
                                    proof {
                                        assert(false);
                                    }
                                    crate::parser::Type::Int
                                },
                            };
                            let new_i = Instr::new_id_instr(d.as_str(), var.as_str(), ty);
                            proof {
                                assert(new_i@ == InstrV::Instruction(
                                    id_op_v(d@, acc_i.st.table[tv].1, o.typ),
                                ));
                            }
                            let ghost pre_out = out;
                            let ghost gni = new_i;
                            out.push(new_i);
                            proof {
                                lemma_vec_deep_view_push(pre_out, out, gni);
                                assert(num < lvn.num2tuple@.len());
                            }
                            lvn.bind_dest(d, num);
                        },
                        Instr::Instruction { dest: None, .. } => {
                            let r = lvn.rewrite_instr_args(instr);
                            let ghost pre_out = out;
                            let ghost gr = r;
                            out.push(r);
                            proof {
                                lemma_vec_deep_view_push(pre_out, out, gr);
                            }
                        },
                        Instr::Label { .. } => {
                            proof {
                                assert(false);
                            }
                        },
                    }
                },
                None => {
                    proof {
                        lemma_assoc_map_dom(lvn.table_entries(), tv);
                        if acc_i.st.table.contains_key(tv) {
                            let m = choose|m: int|
                                0 <= m < lvn.table_entries().len() && (
                                #[trigger] lvn.table_entries()[m]).0 == tv;
                            assert(lvn.table@[m].0@ == tv);
                            assert(false);
                        }
                    }
                    match instr {
                        Instr::Instruction { op, dest: Some(d), args, .. } => {
                            let rep: String = if *op == Opcode::Id {
                                match args {
                                    Some(a) => {
                                        proof {
                                            assert(a.deep_view() == o.arg_seq());
                                            assert(a@[0]@ == o.arg_seq()[0]);
                                        }
                                        a[0].clone()
                                    },
                                    None => {
                                        proof {
                                            assert(false);
                                        }
                                        d.clone()
                                    },
                                }
                            } else {
                                d.clone()
                            };
                            proof {
                                assert(lvn.cur_num < usize::MAX);
                                assert(tv.op == LVNOpcode::Id ==> tv.args.len() == 1) by {
                                    if tv.op == LVNOpcode::Id {
                                        assert(o.op == Opcode::Id) by {
                                            if o.op != Opcode::Id {
                                                assert(lvn_opcode_of(o) != LVNOpcode::Id);
                                            }
                                        }
                                    }
                                }
                            }
                            lvn.insert_mappings(tuple, d, rep);
                            let r = lvn.rewrite_instr_args(&self.instrs[i]);
                            let ghost pre_out = out;
                            let ghost gr = r;
                            out.push(r);
                            proof {
                                lemma_vec_deep_view_push(pre_out, out, gr);
                            }
                        },
                        Instr::Instruction { dest: None, .. } => {
                            let r = lvn.rewrite_instr_args(instr);
                            let ghost pre_out = out;
                            let ghost gr = r;
                            out.push(r);
                            proof {
                                lemma_vec_deep_view_push(pre_out, out, gr);
                            }
                        },
                        Instr::Label { .. } => {
                            proof {
                                assert(false);
                            }
                        },
                    }
                },
            }
            proof {
                let acc_n = lvn_fold(ops.take(i as int + 1), initial_lvn_fold());
                assert(lvn.view_state() =~= acc_n.st);
                assert(out.deep_view() =~= as_instrs(acc_n.out));
            }
            i += 1;
        }
        proof {
            assert(ops.take(n as int) =~= ops);
        }
        self.instrs = out;
        self.numbered = true;
    }
}

impl BrilCFG {
    /// Value-numbers every block.
    pub fn lvn(&mut self)
        requires
            forall|i: int|
                0 <= i < old(self).blocks.deep_view().len() ==> block_lvn_ok(
                    #[trigger] old(self).blocks.deep_view()[i],
                ),
        ensures
            final(self).blocks.deep_view().len() == old(self).blocks.deep_view().len(),
            forall|i: int|
                0 <= i < old(self).blocks.deep_view().len()
                    ==> #[trigger] final(self).blocks.deep_view()[i] == (BlockV {
                    instrs: as_instrs(
                        lvn_block(op_views(old(self).blocks.deep_view()[i].instrs)),
                    ),
                    numbered: true,
                    ..old(self).blocks.deep_view()[i]
                }),
            final(self).bril == old(self).bril,
            final(self).unnamed_block_cnt == old(self).unnamed_block_cnt,
            final(self).cur_name == old(self).cur_name,
    {
        let ghost bs0 = self.blocks.deep_view();
        let n = self.blocks.len();
        let mut out: Vec<Block> = Vec::new();
        let mut i: usize = 0;
        while i < n
            invariant
                i <= n,
                n == bs0.len(),
                self.blocks@.len() == n - i,
                self.blocks.deep_view() == bs0.skip(i as int),
                forall|k: int| 0 <= k < bs0.len() ==> block_lvn_ok(#[trigger] bs0[k]),
                out@.len() == i as int,
                forall|k: int|
                    0 <= k < i ==> #[trigger] out.deep_view()[k] == (BlockV {
                        instrs: as_instrs(lvn_block(op_views(bs0[k].instrs))),
                        numbered: true,
                        ..bs0[k]
                    }),
                self.bril == old(self).bril,
                self.unnamed_block_cnt == old(self).unnamed_block_cnt,
                self.cur_name == old(self).cur_name,
            decreases n - i,
        {
            proof {
                assert(self.blocks.deep_view()[0] == self.blocks@[0].deep_view());
                assert(self.blocks.deep_view()[0] == bs0[i as int]);
            }
            let ghost prev = self.blocks@;
            let mut bk = self.blocks.remove(0);
            proof {
                assert(bk.deep_view() == bs0[i as int]);
                assert(forall|k: int| #![auto]
                    0 <= k < self.blocks@.len() ==> self.blocks@[k] == prev[k + 1]);
                assert(forall|k: int| #![auto]
                    0 <= k < self.blocks@.len() ==> self.blocks.deep_view()[k] == prev[k
                        + 1].deep_view());
                assert(forall|m: int| #![auto]
                    0 <= m < prev.len() ==> prev[m].deep_view() == bs0.skip(i as int)[m]);
                assert(forall|k: int|
                    0 <= k < self.blocks@.len() ==> #[trigger] bs0.skip(i as int + 1)[k]
                        == bs0.skip(i as int)[k + 1]);
                assert(self.blocks.deep_view().len() == bs0.skip(i as int + 1).len());
                assert(self.blocks.deep_view() =~= bs0.skip(i as int + 1));
            }
            bk.lvn();
            let ghost pre_out = out;
            let ghost gbk = bk;
            out.push(bk);
            proof {
                lemma_vec_deep_view_push(pre_out, out, gbk);
                assert(gbk.deep_view() =~= (BlockV {
                    instrs: as_instrs(lvn_block(op_views(bs0[i as int].instrs))),
                    numbered: true,
                    ..bs0[i as int]
                }));
            }
            i += 1;
        }
        self.blocks = out;
    }
}

} // verus!
