//! The block builder: partitions each function's flat instruction
//! sequence into named basic blocks, resolves every block's successor
//! set, and re-linearizes optimized blocks back into a program.
//!
//! The executable methods are specified against a small-step
//! mathematical model: `partition_step`/`partition_instrs` fold one
//! function's instructions into a [`PartState`], `resolved_succ` gives
//! each block's successor set, and `relin_step`/`relin_blocks_fold`
//! rebuild a program from a block sequence.

use vstd::prelude::*;

use crate::parser::{
    is_terminator, Bril, BrilV, Function, FunctionV, Instr, InstrV, OpV, Opcode,
};

verus! {

/// A basic block: a maximal label-free straight-line run of operations,
/// owned by one function, with its resolved successor names.
#[derive(Debug)]
pub struct Block {
    pub name: String,
    pub instrs: Vec<Instr>,
    pub succ: Option<Vec<String>>,
    pub func: String,
    /// Whether value numbering already ran on this block; a second run
    /// would mistake the canonical copies of the first for fresh code.
    pub numbered: bool,
}

/// View of a basic block.
#[verifier::ext_equal]
pub struct BlockV {
    pub name: Seq<char>,
    pub instrs: Seq<InstrV>,
    pub succ: Option<Seq<Seq<char>>>,
    pub func: Seq<char>,
    pub numbered: bool,
}

impl View for Block {
    type V = BlockV;

    open spec fn view(&self) -> BlockV {
        BlockV {
            name: self.name@,
            instrs: self.instrs.deep_view(),
            succ: self.succ.deep_view(),
            func: self.func@,
            numbered: self.numbered,
        }
    }
}

impl DeepView for Block {
    type V = BlockV;

    open spec fn deep_view(&self) -> BlockV {
        self.view()
    }
}

/// The block builder: owns the program, the synthesized-name counter,
/// the pending block name, and the blocks built so far.
pub struct BrilCFG {
    pub bril: Bril,
    pub unnamed_block_cnt: usize,
    pub cur_name: Option<String>,
    pub blocks: Vec<Block>,
}

// ------------------------------------------------------------------
// Synthesized block names
// ------------------------------------------------------------------

/// The decimal digit character for `d < 10`.
pub open spec fn digit_char(d: nat) -> char {
    if d == 0 { '0' }
    else if d == 1 { '1' }
    else if d == 2 { '2' }
    else if d == 3 { '3' }
    else if d == 4 { '4' }
    else if d == 5 { '5' }
    else if d == 6 { '6' }
    else if d == 7 { '7' }
    else if d == 8 { '8' }
    else { '9' }
}

/// The decimal digits of `n`, most significant first.
pub open spec fn decimal_chars(n: nat) -> Seq<char>
    decreases n,
{
    if n < 10 {
        seq![digit_char(n)]
    } else {
        decimal_chars(n / 10).push(digit_char(n % 10))
    }
}

/// The name given to the `k`-th block boundary that no label names.
pub open spec fn synth_name(k: nat) -> Seq<char> {
    seq!['t', 'm', 'p'] + decimal_chars(k)
}

/// One decimal digit as a string.
fn digit_string(d: usize) -> (r: String)
    requires
        d < 10,
    ensures
        r@ == seq![digit_char(d as nat)],
{
    let r: String = if d == 0 {
        proof { reveal_strlit("0"); }
        "0".to_owned()
    } else if d == 1 {
        proof { reveal_strlit("1"); }
        "1".to_owned()
    } else if d == 2 {
        proof { reveal_strlit("2"); }
        "2".to_owned()
    } else if d == 3 {
        proof { reveal_strlit("3"); }
        "3".to_owned()
    } else if d == 4 {
        proof { reveal_strlit("4"); }
        "4".to_owned()
    } else if d == 5 {
        proof { reveal_strlit("5"); }
        "5".to_owned()
    } else if d == 6 {
        proof { reveal_strlit("6"); }
        "6".to_owned()
    } else if d == 7 {
        proof { reveal_strlit("7"); }
        "7".to_owned()
    } else if d == 8 {
        proof { reveal_strlit("8"); }
        "8".to_owned()
    } else {
        proof { reveal_strlit("9"); }
        "9".to_owned()
    };
    proof {
        assert(r@ =~= seq![digit_char(d as nat)]);
    }
    r
}

/// The decimal digits of `n` as a string.
fn decimal_string(n: usize) -> (r: String)
    ensures
        r@ == decimal_chars(n as nat),
    decreases n,
{
    if n < 10 {
        digit_string(n)
    } else {
        let mut s = decimal_string(n / 10);
        let d = digit_string(n % 10);
        s.append(d.as_str());
        proof {
            assert(s@ =~= decimal_chars(n as nat));
        }
        s
    }
}

/// The `k`-th synthesized block name as a string.
fn synth_name_string(k: usize) -> (r: String)
    ensures
        r@ == synth_name(k as nat),
{
    proof { reveal_strlit("tmp"); }
    let mut s: String = "tmp".to_owned();
    let d = decimal_string(k);
    s.append(d.as_str());
    proof {
        assert(s@ =~= synth_name(k as nat));
    }
    s
}

// ------------------------------------------------------------------
// The partition model
// ------------------------------------------------------------------

/// The block builder's state while walking a program: blocks closed so
/// far, the pending name for the block being buffered, the buffered
/// operations, and the synthesized-name counter.
#[verifier::ext_equal]
pub struct PartState {
    pub blocks: Seq<BlockV>,
    pub cur_name: Option<Seq<char>>,
    pub buf: Seq<InstrV>,
    pub cnt: nat,
}

/// The name a closing block takes: the pending name if one is set, else
/// the next synthesized name.
pub open spec fn block_name_of(cur_name: Option<Seq<char>>, cnt: nat) -> Seq<char> {
    match cur_name {
        Some(n) => n,
        None => synth_name(cnt),
    }
}

/// Closes the buffered operations as one block of function `func`,
/// consuming the pending name or one synthesized name.
pub open spec fn close_block(st: PartState, func: Seq<char>) -> PartState {
    PartState {
        blocks: st.blocks.push(
            BlockV {
                name: block_name_of(st.cur_name, st.cnt),
                instrs: st.buf,
                succ: None,
                func: func,
                numbered: false,
            },
        ),
        cur_name: None,
        buf: Seq::empty(),
        cnt: if st.cur_name is Some { st.cnt } else { st.cnt + 1 },
    }
}

/// One step of partitioning: an operation is buffered and, if it is a
/// terminator, closes the block; a label closes the block and names the
/// next one.
pub open spec fn partition_step(st: PartState, i: InstrV, func: Seq<char>) -> PartState {
    match i {
        InstrV::Instruction(o) => {
            let st1 = PartState { buf: st.buf.push(InstrV::Instruction(o)), ..st };
            if is_terminator(o.op) {
                close_block(st1, func)
            } else {
                st1
            }
        },
        InstrV::Label(l) => {
            let st1 = close_block(st, func);
            PartState { cur_name: Some(l), ..st1 }
        },
    }
}

/// Folds `partition_step` over an instruction sequence.
pub open spec fn partition_instrs(s: Seq<InstrV>, func: Seq<char>, st: PartState) -> PartState
    decreases s.len(),
{
    if s.len() == 0 {
        st
    } else {
        partition_instrs(s.drop_first(), func, partition_step(st, s[0], func))
    }
}

/// Partitions one function: the pending name starts as the function's
/// own name, and a non-empty remaining buffer closes as a final block.
pub open spec fn partition_function(f: FunctionV, st: PartState) -> PartState {
    let st1 = partition_instrs(
        f.instrs,
        f.name,
        PartState { cur_name: Some(f.name), ..st },
    );
    if st1.buf.len() > 0 {
        close_block(st1, f.name)
    } else {
        st1
    }
}

/// Partitions a sequence of functions, threading the shared state.
pub open spec fn partition_functions(fs: Seq<FunctionV>, st: PartState) -> PartState
    decreases fs.len(),
{
    if fs.len() == 0 {
        st
    } else {
        partition_functions(fs.drop_first(), partition_function(fs[0], st))
    }
}

/// The builder's state before any function is processed, with the
/// synthesized-name counter at `cnt`.
pub open spec fn initial_part_state(cnt: nat) -> PartState {
    PartState { blocks: Seq::empty(), cur_name: None, buf: Seq::empty(), cnt }
}

/// The blocks of a whole program.
pub open spec fn partition_blocks(b: BrilV) -> Seq<BlockV> {
    partition_functions(b.functions, initial_part_state(0)).blocks
}

/// Folding one more instruction is one more step.
pub proof fn lemma_partition_instrs_snoc(s: Seq<InstrV>, x: InstrV, func: Seq<char>, st: PartState)
    ensures
        partition_instrs(s.push(x), func, st) == partition_step(
            partition_instrs(s, func, st),
            x,
            func,
        ),
    decreases s.len(),
{
    if s.len() == 0 {
        assert(s.push(x).len() == 1);
        assert(s.push(x)[0] == x);
        assert(s.push(x).drop_first() =~= s);
        assert(partition_instrs(s.push(x), func, st) == partition_instrs(
            s.push(x).drop_first(),
            func,
            partition_step(st, s.push(x)[0], func),
        ));
        assert(partition_instrs(s, func, partition_step(st, x, func)) == partition_step(
            st,
            x,
            func,
        ));
        assert(partition_instrs(s, func, st) == st);
    } else {
        assert(s.push(x)[0] == s[0]);
        assert(s.push(x).drop_first() =~= s.drop_first().push(x));
        lemma_partition_instrs_snoc(s.drop_first(), x, func, partition_step(st, s[0], func));
        assert(partition_instrs(s.push(x), func, st) == partition_instrs(
            s.drop_first().push(x),
            func,
            partition_step(st, s[0], func),
        ));
        assert(partition_instrs(s, func, st) == partition_instrs(
            s.drop_first(),
            func,
            partition_step(st, s[0], func),
        ));
    }
}

/// Folding one more function is one more `partition_function`.
pub proof fn lemma_partition_functions_snoc(fs: Seq<FunctionV>, f: FunctionV, st: PartState)
    ensures
        partition_functions(fs.push(f), st) == partition_function(
            f,
            partition_functions(fs, st),
        ),
    decreases fs.len(),
{
    if fs.len() == 0 {
        assert(fs.push(f).len() == 1);
        assert(fs.push(f)[0] == f);
        assert(fs.push(f).drop_first() =~= fs);
        assert(partition_functions(fs.push(f), st) == partition_functions(
            fs,
            partition_function(fs.push(f)[0], st),
        ));
        assert(partition_functions(fs, partition_function(f, st)) == partition_function(
            f,
            st,
        ));
        assert(partition_functions(fs, st) == st);
    } else {
        assert(fs.push(f)[0] == fs[0]);
        assert(fs.push(f).drop_first() =~= fs.drop_first().push(f));
        lemma_partition_functions_snoc(fs.drop_first(), f, partition_function(fs[0], st));
        assert(partition_functions(fs.push(f), st) == partition_functions(
            fs.drop_first().push(f),
            partition_function(fs[0], st),
        ));
        assert(partition_functions(fs, st) == partition_functions(
            fs.drop_first(),
            partition_function(fs[0], st),
        ));
    }
}

// ------------------------------------------------------------------
// Well-formedness
// ------------------------------------------------------------------

/// The instruction at `i` is an operation that lets a label follow it:
/// a non-terminator, so the buffer is non-empty when the label closes
/// the block.
pub open spec fn op_allows_label_after(s: Seq<InstrV>, i: int) -> bool {
    s[i] matches InstrV::Instruction(o) && !is_terminator(o.op)
}

/// Every label follows a non-terminator operation. This is exactly the
/// condition under which no block boundary closes an empty buffer,
/// which would be a malformed block.
pub open spec fn blocks_formable(s: Seq<InstrV>) -> bool {
    forall|i: int|
        0 <= i < s.len() && s[i] is Label ==> i >= 1 && op_allows_label_after(s, i - 1)
}

/// The data-model invariants of one operation: a jump or branch always
/// carries a non-empty label list, a destination always comes with a
/// declared type, a constant load always carries a literal, and a copy
/// reads exactly one operand.
pub open spec fn op_well_formed(o: OpV) -> bool {
    &&& (o.op == Opcode::Jmp || o.op == Opcode::Br) ==> (o.labels matches Some(ls)
        && ls.len() > 0)
    &&& o.dest is Some ==> o.typ is Some
    &&& o.op == Opcode::Const ==> o.value is Some
    &&& o.op == Opcode::Id ==> (o.args matches Some(a) && a.len() == 1)
}

/// Every operation of the sequence meets the data-model invariants.
pub open spec fn instrs_well_formed(s: Seq<InstrV>) -> bool {
    forall|i: int|
        0 <= i < s.len() ==> (#[trigger] s[i] matches InstrV::Instruction(o)
            ==> op_well_formed(o))
}

/// The sequence holds operations only, never a label.
pub open spec fn ops_only(s: Seq<InstrV>) -> bool {
    forall|i: int| 0 <= i < s.len() ==> s[i] is Instruction
}

/// The invariant of every block the builder creates: non-empty,
/// label-free, and made of well-formed operations.
pub open spec fn block_wf(bk: BlockV) -> bool {
    &&& bk.instrs.len() > 0
    &&& ops_only(bk.instrs)
    &&& instrs_well_formed(bk.instrs)
}

/// The invariant of a block sequence.
pub open spec fn blocks_wf(blocks: Seq<BlockV>) -> bool {
    forall|i: int| 0 <= i < blocks.len() ==> block_wf(#[trigger] blocks[i])
}

/// A program the block builder accepts: in every function each label
/// follows a non-terminator operation, and every operation meets the
/// data-model invariants.
pub open spec fn program_well_formed(b: BrilV) -> bool {
    forall|i: int|
        0 <= i < b.functions.len() ==> blocks_formable(#[trigger] b.functions[i].instrs)
            && instrs_well_formed(b.functions[i].instrs)
}

/// The number of instructions of the whole program.
pub open spec fn total_instr_count(fs: Seq<FunctionV>) -> nat
    decreases fs.len(),
{
    if fs.len() == 0 {
        0
    } else {
        fs[0].instrs.len() + total_instr_count(fs.drop_first())
    }
}

/// The number of instructions of the first `k` functions.
pub open spec fn prefix_instr_count(fs: Seq<FunctionV>, k: int) -> nat
    decreases k,
{
    if k <= 0 || fs.len() == 0 {
        0
    } else {
        fs[0].instrs.len() + prefix_instr_count(fs.drop_first(), k - 1)
    }
}

/// One more function adds its instruction count to the prefix count.
pub proof fn lemma_prefix_count_step(fs: Seq<FunctionV>, k: int)
    requires
        0 <= k < fs.len(),
    ensures
        prefix_instr_count(fs, k + 1) == prefix_instr_count(fs, k) + fs[k].instrs.len(),
    decreases k,
{
    if k == 0 {
        assert(prefix_instr_count(fs, 1) == fs[0].instrs.len() + prefix_instr_count(
            fs.drop_first(),
            0,
        ));
        assert(prefix_instr_count(fs.drop_first(), 0) == 0);
        assert(prefix_instr_count(fs, 0) == 0);
    } else {
        lemma_prefix_count_step(fs.drop_first(), k - 1);
        assert(fs.drop_first()[k - 1] == fs[k]);
    }
}

/// A prefix never counts more instructions than the whole program.
pub proof fn lemma_prefix_count_le_total(fs: Seq<FunctionV>, k: int)
    requires
        0 <= k <= fs.len(),
    ensures
        prefix_instr_count(fs, k) <= total_instr_count(fs),
    decreases k,
{
    if k > 0 && fs.len() > 0 {
        lemma_prefix_count_le_total(fs.drop_first(), k - 1);
    }
}

// ------------------------------------------------------------------
// Successor resolution
// ------------------------------------------------------------------

/// The successor set of block `i`, read from its last operation: a jump
/// or branch names its targets, a return has none, and anything else
/// falls through to the next block in whole-program order if one
/// exists.
pub open spec fn resolved_succ(blocks: Seq<BlockV>, i: int) -> Option<Seq<Seq<char>>> {
    let o = blocks[i].instrs.last().as_op();
    if o.op == Opcode::Jmp || o.op == Opcode::Br {
        o.labels
    } else if o.op == Opcode::Ret {
        None
    } else if i + 1 < blocks.len() {
        Some(seq![blocks[i + 1].name])
    } else {
        None
    }
}

/// Every block with its successor set filled in.
pub open spec fn with_resolved_succ(blocks: Seq<BlockV>) -> Seq<BlockV> {
    Seq::new(blocks.len(), |i: int| BlockV { succ: resolved_succ(blocks, i), ..blocks[i] })
}

/// Successor determinism: a block's successor set depends on nothing
/// but its last operation's opcode and label list, whether a block
/// follows it, and that following block's name — two blocks that agree
/// on those, in any two block sequences, resolve to the same
/// successors.
pub proof fn lemma_successor_determinism(a: Seq<BlockV>, c: Seq<BlockV>, i: int, j: int)
    requires
        0 <= i < a.len(),
        0 <= j < c.len(),
        a[i].instrs.last().as_op().op == c[j].instrs.last().as_op().op,
        a[i].instrs.last().as_op().labels == c[j].instrs.last().as_op().labels,
        (i + 1 < a.len()) <==> (j + 1 < c.len()),
        i + 1 < a.len() ==> a[i + 1].name == c[j + 1].name,
    ensures
        resolved_succ(a, i) == resolved_succ(c, j),
{
}

/// A block ending in a return has no successors.
pub proof fn lemma_ret_no_successors(blocks: Seq<BlockV>, i: int)
    requires
        0 <= i < blocks.len(),
        blocks[i].instrs.last().as_op().op == Opcode::Ret,
    ensures
        resolved_succ(blocks, i) is None,
{
}

/// A fallthrough block has a successor exactly when a block follows it
/// in whole-program order, and then exactly the next block's name.
pub proof fn lemma_fallthrough_successor(blocks: Seq<BlockV>, i: int)
    requires
        0 <= i < blocks.len(),
        !is_terminator(blocks[i].instrs.last().as_op().op),
    ensures
        (resolved_succ(blocks, i) is Some) <==> i + 1 < blocks.len(),
        i + 1 < blocks.len() ==> resolved_succ(blocks, i) == Some(seq![blocks[i + 1].name]),
{
}

// ------------------------------------------------------------------
// Re-linearization model
// ------------------------------------------------------------------

/// The state of re-linearization: finished functions, the function
/// being assembled, and the name of the function the blocks currently
/// belong to.
#[verifier::ext_equal]
pub struct RelinState {
    pub funcs: Seq<FunctionV>,
    pub cur: Option<FunctionV>,
    pub cur_name: Option<Seq<char>>,
}

/// The header (name, arguments, return type) of the first function
/// named `name`, with an empty instruction sequence.
pub open spec fn func_header(fs: Seq<FunctionV>, name: Seq<char>) -> Option<FunctionV>
    decreases fs.len(),
{
    if fs.len() == 0 {
        None
    } else if fs[0].name == name {
        Some(FunctionV { instrs: Seq::empty(), ..fs[0] })
    } else {
        func_header(fs.drop_first(), name)
    }
}

/// Appends the function being assembled, if any, to the finished ones.
pub open spec fn flush_cur(st: RelinState) -> Seq<FunctionV> {
    match st.cur {
        Some(f) => st.funcs.push(f),
        None => st.funcs,
    }
}

/// One step of re-linearization: on a function change the assembled
/// function is flushed and a fresh header looked up; then the block's
/// name is emitted as a label unless it is the function's own name, and
/// the block's operations follow.
pub open spec fn relin_step(st: RelinState, bk: BlockV, b: BrilV) -> RelinState {
    let st1 = if st.cur_name != Some(bk.func) {
        RelinState {
            funcs: flush_cur(st),
            cur: func_header(b.functions, bk.func),
            cur_name: Some(bk.func),
        }
    } else {
        st
    };
    match st1.cur {
        Some(f) => {
            let prefix = if bk.name != bk.func {
                f.instrs.push(InstrV::Label(bk.name))
            } else {
                f.instrs
            };
            RelinState {
                cur: Some(FunctionV { instrs: prefix + bk.instrs, ..f }),
                ..st1
            }
        },
        None => st1,
    }
}

/// Folds `relin_step` over a block sequence.
pub open spec fn relin_blocks_fold(blocks: Seq<BlockV>, st: RelinState, b: BrilV) -> RelinState
    decreases blocks.len(),
{
    if blocks.len() == 0 {
        st
    } else {
        relin_blocks_fold(blocks.drop_first(), relin_step(st, blocks[0], b), b)
    }
}

/// Folding one more block is one more `relin_step`.
pub proof fn lemma_relin_fold_snoc(blocks: Seq<BlockV>, bk: BlockV, st: RelinState, b: BrilV)
    ensures
        relin_blocks_fold(blocks.push(bk), st, b) == relin_step(
            relin_blocks_fold(blocks, st, b),
            bk,
            b,
        ),
    decreases blocks.len(),
{
    if blocks.len() == 0 {
        assert(blocks.push(bk).len() == 1);
        assert(blocks.push(bk)[0] == bk);
        assert(blocks.push(bk).drop_first() =~= blocks);
        assert(relin_blocks_fold(blocks.push(bk), st, b) == relin_blocks_fold(
            blocks,
            relin_step(st, bk, b),
            b,
        ));
        assert(relin_blocks_fold(blocks, relin_step(st, bk, b), b) == relin_step(st, bk, b));
        assert(relin_blocks_fold(blocks, st, b) == st);
    } else {
        assert(blocks.push(bk)[0] == blocks[0]);
        assert(blocks.push(bk).drop_first() =~= blocks.drop_first().push(bk));
        lemma_relin_fold_snoc(blocks.drop_first(), bk, relin_step(st, blocks[0], b), b);
        assert(relin_blocks_fold(blocks.push(bk), st, b) == relin_blocks_fold(
            blocks.drop_first().push(bk),
            relin_step(st, blocks[0], b),
            b,
        ));
        assert(relin_blocks_fold(blocks, st, b) == relin_blocks_fold(
            blocks.drop_first(),
            relin_step(st, blocks[0], b),
            b,
        ));
    }
}

/// The empty re-linearization state.
pub open spec fn initial_relin_state() -> RelinState {
    RelinState { funcs: Seq::empty(), cur: None, cur_name: None }
}

/// The program a block sequence re-linearizes to, with function headers
/// taken from `b`.
pub open spec fn relinearize(blocks: Seq<BlockV>, b: BrilV) -> BrilV {
    BrilV { functions: flush_cur(relin_blocks_fold(blocks, initial_relin_state(), b)) }
}

// ------------------------------------------------------------------
// The round-trip law
// ------------------------------------------------------------------

/// What re-linearizing a partition reproduces: the input instruction
/// sequence itself, with one synthesized label inserted after each
/// terminator that neither ends the function nor is followed by a
/// label. `cnt` is the synthesized-name counter at the function's
/// start.
pub open spec fn with_boundary_labels(s: Seq<InstrV>, cnt: nat) -> Seq<InstrV>
    decreases s.len(),
{
    if s.len() == 0 {
        Seq::empty()
    } else {
        match s[0] {
            InstrV::Label(l) => seq![s[0]] + with_boundary_labels(s.drop_first(), cnt),
            InstrV::Instruction(o) => {
                if is_terminator(o.op) && s.len() > 1 && !(s[1] is Label) {
                    seq![s[0], InstrV::Label(synth_name(cnt))] + with_boundary_labels(
                        s.drop_first(),
                        cnt + 1,
                    )
                } else {
                    seq![s[0]] + with_boundary_labels(s.drop_first(), cnt)
                }
            },
        }
    }
}

/// The operation sequence, with every label removed.
pub open spec fn drop_labels(s: Seq<InstrV>) -> Seq<InstrV>
    decreases s.len(),
{
    if s.len() == 0 {
        Seq::empty()
    } else if s[0] is Label {
        drop_labels(s.drop_first())
    } else {
        seq![s[0]] + drop_labels(s.drop_first())
    }
}

/// Inserting boundary labels never touches the operations: erasing all
/// labels recovers exactly the erased input.
pub proof fn lemma_with_boundary_labels_ops(s: Seq<InstrV>, cnt: nat)
    ensures
        drop_labels(with_boundary_labels(s, cnt)) == drop_labels(s),
    decreases s.len(),
{
    if s.len() == 0 {
    } else {
        match s[0] {
            InstrV::Label(l) => {
                lemma_with_boundary_labels_ops(s.drop_first(), cnt);
                let t = with_boundary_labels(s.drop_first(), cnt);
                assert((seq![s[0]] + t)[0] == s[0]);
                assert((seq![s[0]] + t).drop_first() =~= t);
                assert(drop_labels(seq![s[0]] + t) == drop_labels(t));
                assert(drop_labels(s) == drop_labels(s.drop_first()));
            },
            InstrV::Instruction(o) => {
                if is_terminator(o.op) && s.len() > 1 && !(s[1] is Label) {
                    lemma_with_boundary_labels_ops(s.drop_first(), cnt + 1);
                    let t = with_boundary_labels(s.drop_first(), cnt + 1);
                    let two = seq![s[0], InstrV::Label(synth_name(cnt))];
                    assert((two + t)[0] == s[0]);
                    assert((two + t).drop_first() =~= seq![InstrV::Label(synth_name(cnt))] + t);
                    assert((seq![InstrV::Label(synth_name(cnt))] + t)[0] is Label);
                    assert((seq![InstrV::Label(synth_name(cnt))] + t).drop_first() =~= t);
                    assert(drop_labels(seq![InstrV::Label(synth_name(cnt))] + t) == drop_labels(
                        t,
                    ));
                    assert(drop_labels(two + t) == seq![s[0]] + drop_labels(t));
                    assert(drop_labels(s) == seq![s[0]] + drop_labels(s.drop_first()));
                } else {
                    lemma_with_boundary_labels_ops(s.drop_first(), cnt);
                    let t = with_boundary_labels(s.drop_first(), cnt);
                    assert((seq![s[0]] + t)[0] == s[0]);
                    assert((seq![s[0]] + t).drop_first() =~= t);
                    assert(drop_labels(seq![s[0]] + t) == seq![s[0]] + drop_labels(t));
                    assert(drop_labels(s) == seq![s[0]] + drop_labels(s.drop_first()));
                }
            },
        }
    }
}

/// What one block contributes to its function's re-linearized
/// instruction sequence.
pub open spec fn relin_block_instrs(bk: BlockV, fname: Seq<char>) -> Seq<InstrV> {
    if bk.name != fname {
        seq![InstrV::Label(bk.name)] + bk.instrs
    } else {
        bk.instrs
    }
}

/// What a block sequence contributes to its function's re-linearized
/// instruction sequence.
pub open spec fn relin_blocks_instrs(bs: Seq<BlockV>, fname: Seq<char>) -> Seq<InstrV>
    decreases bs.len(),
{
    if bs.len() == 0 {
        Seq::empty()
    } else {
        relin_block_instrs(bs[0], fname) + relin_blocks_instrs(bs.drop_first(), fname)
    }
}

/// The remaining instructions and the builder state that the round-trip
/// induction walks over: the pending name and buffer determine what the
/// still-open block will contribute.
pub open spec fn pending_contribution(s: Seq<InstrV>, st: PartState, fname: Seq<char>) -> Seq<
    InstrV,
> {
    if s.len() == 0 && st.buf.len() == 0 {
        Seq::empty()
    } else {
        match st.cur_name {
            Some(n) => (if n == fname {
                Seq::empty()
            } else {
                seq![InstrV::Label(n)]
            }) + st.buf + with_boundary_labels(s, st.cnt),
            None => seq![InstrV::Label(synth_name(st.cnt))] + st.buf + with_boundary_labels(
                s,
                st.cnt + 1,
            ),
        }
    }
}

/// The labels of `s` never name the function itself.
pub open spec fn labels_avoid_name(s: Seq<InstrV>, fname: Seq<char>) -> bool {
    forall|i: int|
        0 <= i < s.len() ==> (#[trigger] s[i] matches InstrV::Label(l) ==> l != fname)
}

/// The function's name is no synthesized name.
pub open spec fn name_not_synthetic(fname: Seq<char>) -> bool {
    forall|k: nat| synth_name(k) != fname
}

/// A label may stand at position `i` of the remaining instructions:
/// after a non-terminator operation, or first while the buffer is
/// non-empty.
pub open spec fn labels_placed_ok(s: Seq<InstrV>, st: PartState) -> bool {
    forall|i: int|
        0 <= i < s.len() && s[i] is Label ==> (i >= 1 && op_allows_label_after(s, i - 1)) || (i
            == 0 && st.buf.len() > 0)
}

/// Closing the remaining buffer if it is non-empty, as the builder does
/// at function end.
pub open spec fn close_trailing(st: PartState, fname: Seq<char>) -> PartState {
    if st.buf.len() > 0 {
        close_block(st, fname)
    } else {
        st
    }
}

/// The round-trip induction: folding the remaining instructions and
/// closing the trailing buffer extends the block sequence by blocks of
/// this function only, and those blocks re-linearize to exactly the
/// pending contribution.
#[verifier::rlimit(100)]
pub proof fn lemma_roundtrip_instrs(s: Seq<InstrV>, fname: Seq<char>, st: PartState)
    requires
        labels_placed_ok(s, st),
        s.len() > 0 ==> s.last() is Instruction,
        labels_avoid_name(s, fname),
        name_not_synthetic(fname),
    ensures
        ({
            let fin = close_trailing(partition_instrs(s, fname, st), fname);
            &&& fin.blocks.len() >= st.blocks.len()
            &&& fin.blocks.take(st.blocks.len() as int) == st.blocks
            &&& forall|j: int|
                st.blocks.len() <= j < fin.blocks.len() ==> (#[trigger] fin.blocks[j]).func
                    == fname
            &&& relin_blocks_instrs(fin.blocks.skip(st.blocks.len() as int), fname)
                == pending_contribution(s, st, fname)
            &&& fin.buf.len() == 0
            &&& (s.len() > 0 || st.buf.len() > 0) ==> (fin.cur_name is None
                && fin.blocks.len() > st.blocks.len())
            &&& (s.len() == 0 && st.buf.len() == 0) ==> fin == st
        }),
    decreases s.len(),
{
    if s.len() == 0 {
        if st.buf.len() == 0 {
            assert(st.blocks.take(st.blocks.len() as int) =~= st.blocks);
            assert(st.blocks.skip(st.blocks.len() as int) =~= Seq::<BlockV>::empty());
        } else {
            let fin = close_block(st, fname);
            let bk = BlockV {
                name: block_name_of(st.cur_name, st.cnt),
                instrs: st.buf,
                succ: None,
                func: fname,
                numbered: false,
            };
            assert(fin.blocks == st.blocks.push(bk));
            assert(fin.blocks.take(st.blocks.len() as int) =~= st.blocks);
            assert(fin.blocks.skip(st.blocks.len() as int) =~= seq![bk]);
            assert(relin_blocks_instrs(seq![bk], fname) == relin_block_instrs(bk, fname)
                + relin_blocks_instrs(seq![bk].drop_first(), fname)) by {
                assert(seq![bk][0] == bk);
            }
            assert(seq![bk].drop_first() =~= Seq::<BlockV>::empty());
            assert(relin_blocks_instrs(seq![bk], fname) =~= relin_block_instrs(bk, fname));
            match st.cur_name {
                Some(n) => {
                    assert(bk.name == n);
                    if n == fname {
                        assert(relin_block_instrs(bk, fname) =~= pending_contribution(
                            s,
                            st,
                            fname,
                        ));
                    } else {
                        assert(relin_block_instrs(bk, fname) =~= pending_contribution(
                            s,
                            st,
                            fname,
                        ));
                    }
                },
                None => {
                    assert(bk.name == synth_name(st.cnt));
                    assert(bk.name != fname);
                    assert(relin_block_instrs(bk, fname) =~= pending_contribution(s, st, fname));
                },
            }
        }
    } else {
        let x = s[0];
        let s1 = s.drop_first();
        let st1 = partition_step(st, x, fname);
        assert(partition_instrs(s, fname, st) == partition_instrs(s1, fname, st1));
        // Conditions for the inductive call.
        assert forall|i: int|
            0 <= i < s1.len() && s1[i] is Label implies (i >= 1 && op_allows_label_after(
            s1,
            i - 1,
        )) || (i == 0 && st1.buf.len() > 0) by {
            assert(s1[i] == s[i + 1]);
            assert(s[i + 1] is Label);
            assert(i + 1 >= 1 && op_allows_label_after(s, i));
            if i >= 1 {
                assert(s1[i - 1] == s[i]);
            } else {
                assert(s[0] matches InstrV::Instruction(o) && !is_terminator(o.op));
                assert(st1.buf.len() > 0);
            }
        }
        assert(s1.len() > 0 ==> s1.last() is Instruction) by {
            if s1.len() > 0 {
                assert(s1.last() == s.last());
            }
        }
        assert(labels_avoid_name(s1, fname)) by {
            assert(forall|i: int|
                0 <= i < s1.len() ==> #[trigger] s1[i] == s[i + 1]);
        }
        lemma_roundtrip_instrs(s1, fname, st1);
        let fin = close_trailing(partition_instrs(s, fname, st), fname);
        match x {
            InstrV::Label(l) => {
                assert(st.buf.len() > 0) by {
                    assert(s[0] is Label);
                }
                let bk = BlockV {
                    name: block_name_of(st.cur_name, st.cnt),
                    instrs: st.buf,
                    succ: None,
                    func: fname,
                    numbered: false,
                };
                assert(st1.blocks == st.blocks.push(bk));
                assert(st1.cur_name == Some(l));
                assert(st1.buf.len() == 0);
                assert(s1.len() > 0) by {
                    assert(s.last() is Instruction);
                    if s.len() == 1 {
                        assert(s.last() == s[0]);
                    }
                }
                // Decompose the new block range.
                assert(fin.blocks.take(st1.blocks.len() as int) == st1.blocks);
                assert(fin.blocks.take(st.blocks.len() as int) =~= st.blocks) by {
                    assert(forall|m: int|
                        0 <= m < st.blocks.len() ==> #[trigger] fin.blocks.take(
                            st1.blocks.len() as int,
                        )[m] == fin.blocks[m]);
                }
                assert(fin.blocks[st.blocks.len() as int] == bk) by {
                    assert(fin.blocks.take(st1.blocks.len() as int)[st.blocks.len() as int]
                        == st1.blocks[st.blocks.len() as int]);
                }
                assert(fin.blocks.skip(st.blocks.len() as int) =~= seq![bk] + fin.blocks.skip(
                    st1.blocks.len() as int,
                ));
                let rest = fin.blocks.skip(st1.blocks.len() as int);
                assert(relin_blocks_instrs(seq![bk] + rest, fname) == relin_block_instrs(
                    bk,
                    fname,
                ) + relin_blocks_instrs(rest, fname)) by {
                    assert((seq![bk] + rest)[0] == bk);
                    assert((seq![bk] + rest).drop_first() =~= rest);
                }
                assert(relin_blocks_instrs(rest, fname) == pending_contribution(s1, st1, fname));
                assert(pending_contribution(s1, st1, fname) == seq![InstrV::Label(l)]
                    + with_boundary_labels(s1, st1.cnt)) by {
                    assert(l != fname);
                    assert(Seq::<InstrV>::empty() + with_boundary_labels(s1, st1.cnt)
                        =~= with_boundary_labels(s1, st1.cnt));
                    assert(seq![InstrV::Label(l)] + Seq::<InstrV>::empty() + with_boundary_labels(
                        s1,
                        st1.cnt,
                    ) =~= seq![InstrV::Label(l)] + with_boundary_labels(s1, st1.cnt));
                }
                assert(with_boundary_labels(s, st.cnt) == seq![x] + with_boundary_labels(
                    s1,
                    st.cnt,
                ));
                match st.cur_name {
                    Some(n) => {
                        assert(st1.cnt == st.cnt);
                        assert(relin_block_instrs(bk, fname) + (seq![InstrV::Label(l)]
                            + with_boundary_labels(s1, st.cnt)) =~= pending_contribution(
                            s,
                            st,
                            fname,
                        ));
                    },
                    None => {
                        assert(st1.cnt == st.cnt + 1);
                        assert(bk.name == synth_name(st.cnt));
                        assert(bk.name != fname);
                        assert(relin_block_instrs(bk, fname) + (seq![InstrV::Label(l)]
                            + with_boundary_labels(s1, st.cnt + 1)) =~= pending_contribution(
                            s,
                            st,
                            fname,
                        ));
                    },
                }
            },
            InstrV::Instruction(o) => {
                if is_terminator(o.op) {
                    let stp = PartState { buf: st.buf.push(x), ..st };
                    let bk = BlockV {
                        name: block_name_of(st.cur_name, st.cnt),
                        instrs: st.buf.push(x),
                        succ: None,
                        func: fname,
                        numbered: false,
                    };
                    assert(st1 == close_block(stp, fname));
                    assert(st1.blocks == st.blocks.push(bk));
                    assert(st1.cur_name is None);
                    assert(st1.buf.len() == 0);
                    assert(fin.blocks.take(st1.blocks.len() as int) == st1.blocks);
                    assert(fin.blocks.take(st.blocks.len() as int) =~= st.blocks) by {
                        assert(forall|m: int|
                            0 <= m < st.blocks.len() ==> #[trigger] fin.blocks.take(
                                st1.blocks.len() as int,
                            )[m] == fin.blocks[m]);
                    }
                    assert(fin.blocks[st.blocks.len() as int] == bk) by {
                        assert(fin.blocks.take(st1.blocks.len() as int)[st.blocks.len() as int]
                            == st1.blocks[st.blocks.len() as int]);
                    }
                    assert(fin.blocks.skip(st.blocks.len() as int) =~= seq![bk]
                        + fin.blocks.skip(st1.blocks.len() as int));
                    let rest = fin.blocks.skip(st1.blocks.len() as int);
                    assert(relin_blocks_instrs(seq![bk] + rest, fname) == relin_block_instrs(
                        bk,
                        fname,
                    ) + relin_blocks_instrs(rest, fname)) by {
                        assert((seq![bk] + rest)[0] == bk);
                        assert((seq![bk] + rest).drop_first() =~= rest);
                    }
                    assert(relin_blocks_instrs(rest, fname) == pending_contribution(
                        s1,
                        st1,
                        fname,
                    ));
                    if s1.len() == 0 {
                        assert(pending_contribution(s1, st1, fname) =~= Seq::<InstrV>::empty());
                        assert(with_boundary_labels(s1, st.cnt) =~= Seq::<InstrV>::empty());
                        assert(with_boundary_labels(s, st.cnt) == seq![s[0]]
                            + with_boundary_labels(s1, st.cnt));
                        assert(with_boundary_labels(s, st.cnt) =~= seq![x]);
                        assert(relin_block_instrs(bk, fname) + Seq::<InstrV>::empty()
                            =~= relin_block_instrs(bk, fname));
                        assert(relin_block_instrs(bk, fname) =~= pending_contribution(
                            s,
                            st,
                            fname,
                        ));
                    } else {
                        assert(!(s1[0] is Label)) by {
                            if s1[0] is Label {
                                assert(s[1] is Label);
                                assert(op_allows_label_after(s, 0));
                            }
                        }
                        assert(!(s[1] is Label)) by {
                            assert(s[1] == s1[0]);
                        }
                        assert(with_boundary_labels(s, st.cnt) == seq![
                            x,
                            InstrV::Label(synth_name(st.cnt)),
                        ] + with_boundary_labels(s1, st.cnt + 1));
                        assert(pending_contribution(s1, st1, fname) == seq![
                            InstrV::Label(synth_name(st1.cnt)),
                        ] + with_boundary_labels(s1, st1.cnt + 1)) by {
                            assert(seq![InstrV::Label(synth_name(st1.cnt))] + st1.buf
                                + with_boundary_labels(s1, st1.cnt + 1) =~= seq![
                                InstrV::Label(synth_name(st1.cnt)),
                            ] + with_boundary_labels(s1, st1.cnt + 1));
                        }
                        match st.cur_name {
                            Some(n) => {
                                assert(st1.cnt == st.cnt);
                                assert(relin_block_instrs(bk, fname) + (seq![
                                    InstrV::Label(synth_name(st.cnt)),
                                ] + with_boundary_labels(s1, st.cnt + 1))
                                    =~= pending_contribution(s, st, fname));
                            },
                            None => {
                                assert(st1.cnt == st.cnt + 1);
                                assert(bk.name == synth_name(st.cnt));
                                assert(bk.name != fname);
                                assert(relin_block_instrs(bk, fname) + (seq![
                                    InstrV::Label(synth_name(st.cnt + 1)),
                                ] + with_boundary_labels(s1, st.cnt + 2))
                                    =~= pending_contribution(s, st, fname));
                            },
                        }
                    }
                } else {
                    assert(st1.blocks == st.blocks);
                    assert(st1.cur_name == st.cur_name);
                    assert(st1.cnt == st.cnt);
                    assert(st1.buf == st.buf.push(x));
                    assert(fin.blocks.take(st.blocks.len() as int) == st.blocks);
                    assert(relin_blocks_instrs(fin.blocks.skip(st.blocks.len() as int), fname)
                        == pending_contribution(s1, st1, fname));
                    assert(with_boundary_labels(s, st.cnt) == seq![x] + with_boundary_labels(
                        s1,
                        st.cnt,
                    ));
                    match st.cur_name {
                        Some(n) => {
                            assert(pending_contribution(s1, st1, fname) =~= pending_contribution(
                                s,
                                st,
                                fname,
                            ));
                        },
                        None => {
                            assert(pending_contribution(s1, st1, fname) =~= pending_contribution(
                                s,
                                st,
                                fname,
                            ));
                        },
                    }
                }
            },
        }
    }
}

/// Partitioning one whole function appends at least one block, all
/// owned by that function, and those blocks re-linearize to exactly
/// the function's instructions with boundary labels inserted.
pub proof fn lemma_roundtrip_function(f: FunctionV, st: PartState)
    requires
        blocks_formable(f.instrs),
        f.instrs.len() > 0,
        f.instrs.last() is Instruction,
        labels_avoid_name(f.instrs, f.name),
        name_not_synthetic(f.name),
        st.buf.len() == 0,
    ensures
        ({
            let fin = partition_function(f, st);
            &&& fin.blocks.len() > st.blocks.len()
            &&& fin.blocks.take(st.blocks.len() as int) == st.blocks
            &&& forall|j: int|
                st.blocks.len() <= j < fin.blocks.len() ==> (#[trigger] fin.blocks[j]).func
                    == f.name
            &&& relin_blocks_instrs(fin.blocks.skip(st.blocks.len() as int), f.name)
                == with_boundary_labels(f.instrs, st.cnt)
            &&& fin.buf.len() == 0
            &&& fin.cur_name is None
        }),
{
    let st1 = PartState { cur_name: Some(f.name), ..st };
    assert(labels_placed_ok(f.instrs, st1));
    lemma_roundtrip_instrs(f.instrs, f.name, st1);
    assert(partition_function(f, st) == close_trailing(
        partition_instrs(f.instrs, f.name, st1),
        f.name,
    ));
    assert(pending_contribution(f.instrs, st1, f.name) =~= with_boundary_labels(
        f.instrs,
        st.cnt,
    ));
}

/// Function names are pairwise distinct.
pub open spec fn unique_names(fs: Seq<FunctionV>) -> bool {
    forall|a: int, b: int| 0 <= a < b < fs.len() ==> fs[a].name != fs[b].name
}

/// Under unique names, the header found for the `j`-th function's name
/// is the `j`-th function itself, with its instructions cleared.
pub proof fn lemma_func_header_at(fs: Seq<FunctionV>, j: int)
    requires
        0 <= j < fs.len(),
        unique_names(fs),
    ensures
        func_header(fs, fs[j].name) == Some(FunctionV { instrs: Seq::empty(), ..fs[j] }),
    decreases j,
{
    if j > 0 {
        assert(fs[0].name != fs[j].name);
        assert(unique_names(fs.drop_first())) by {
            assert forall|a: int, c: int|
                #![trigger fs.drop_first()[a], fs.drop_first()[c]]
                0 <= a < c < fs.drop_first().len() implies fs.drop_first()[a].name
                != fs.drop_first()[c].name by {
                assert(fs.drop_first()[a] == fs[a + 1]);
                assert(fs.drop_first()[c] == fs[c + 1]);
            }
        }
        lemma_func_header_at(fs.drop_first(), j - 1);
        assert(fs.drop_first()[j - 1] == fs[j]);
    }
}

/// Folding a concatenation of block sequences folds them in order.
pub proof fn lemma_relin_fold_concat(a: Seq<BlockV>, c: Seq<BlockV>, st: RelinState, b: BrilV)
    ensures
        relin_blocks_fold(a + c, st, b) == relin_blocks_fold(c, relin_blocks_fold(a, st, b), b),
    decreases a.len(),
{
    if a.len() == 0 {
        assert(a + c =~= c);
    } else {
        assert((a + c)[0] == a[0]);
        assert((a + c).drop_first() =~= a.drop_first() + c);
        lemma_relin_fold_concat(a.drop_first(), c, relin_step(st, a[0], b), b);
    }
}

/// Two block sequences that agree on names, owners and instructions
/// re-linearize identically; the successor sets are display-only.
pub proof fn lemma_relin_fold_equiv(a: Seq<BlockV>, c: Seq<BlockV>, st: RelinState, b: BrilV)
    requires
        a.len() == c.len(),
        forall|i: int|
            0 <= i < a.len() ==> (#[trigger] a[i]).name == c[i].name && a[i].func == c[i].func
                && a[i].instrs == c[i].instrs,
    ensures
        relin_blocks_fold(a, st, b) == relin_blocks_fold(c, st, b),
    decreases a.len(),
{
    if a.len() > 0 {
        assert(relin_step(st, a[0], b) == relin_step(st, c[0], b));
        assert(forall|i: int|
            0 <= i < a.drop_first().len() ==> #[trigger] a.drop_first()[i] == a[i + 1]);
        assert(forall|i: int|
            0 <= i < c.drop_first().len() ==> #[trigger] c.drop_first()[i] == c[i + 1]);
        lemma_relin_fold_equiv(a.drop_first(), c.drop_first(), relin_step(st, a[0], b), b);
    }
}

/// Folding blocks that all belong to the currently open function
/// appends their contributions to it and changes nothing else.
pub proof fn lemma_relin_fold_segment(
    seg: Seq<BlockV>,
    st: RelinState,
    b: BrilV,
    fname: Seq<char>,
    f0: FunctionV,
)
    requires
        forall|i: int| 0 <= i < seg.len() ==> (#[trigger] seg[i]).func == fname,
        st.cur_name == Some(fname),
        st.cur == Some(f0),
    ensures
        relin_blocks_fold(seg, st, b) == (RelinState {
            funcs: st.funcs,
            cur: Some(FunctionV { instrs: f0.instrs + relin_blocks_instrs(seg, fname), ..f0 }),
            cur_name: Some(fname),
        }),
    decreases seg.len(),
{
    if seg.len() == 0 {
        assert(f0.instrs + relin_blocks_instrs(seg, fname) =~= f0.instrs);
        assert((RelinState {
            funcs: st.funcs,
            cur: Some(FunctionV { instrs: f0.instrs + relin_blocks_instrs(seg, fname), ..f0 }),
            cur_name: Some(fname),
        }) =~= st);
    } else {
        let bk = seg[0];
        let st1 = relin_step(st, bk, b);
        let f1 = FunctionV { instrs: f0.instrs + relin_block_instrs(bk, fname), ..f0 };
        assert(st1 == (RelinState { cur: Some(f1), ..st })) by {
            if bk.name != bk.func {
                assert(f0.instrs.push(InstrV::Label(bk.name)) + bk.instrs =~= f0.instrs + (seq![
                    InstrV::Label(bk.name),
                ] + bk.instrs));
                assert(st1 =~= (RelinState { cur: Some(f1), ..st }));
            } else {
                assert(st1 =~= (RelinState { cur: Some(f1), ..st }));
            }
        }
        assert(forall|i: int|
            0 <= i < seg.drop_first().len() ==> #[trigger] seg.drop_first()[i] == seg[i + 1]);
        lemma_relin_fold_segment(seg.drop_first(), st1, b, fname, f1);
        assert(f1.instrs + relin_blocks_instrs(seg.drop_first(), fname) =~= f0.instrs
            + relin_blocks_instrs(seg, fname));
        assert(relin_blocks_fold(seg, st, b) =~= (RelinState {
            funcs: st.funcs,
            cur: Some(FunctionV { instrs: f0.instrs + relin_blocks_instrs(seg, fname), ..f0 }),
            cur_name: Some(fname),
        }));
    }
}

/// Folding a non-empty segment of blocks that all belong to one not
/// yet open function flushes the previous function and assembles the
/// new one from its header and the segment's contributions.
pub proof fn lemma_relin_fold_fresh_segment(
    seg: Seq<BlockV>,
    st: RelinState,
    b: BrilV,
    fname: Seq<char>,
    hdr: FunctionV,
)
    requires
        seg.len() > 0,
        forall|i: int| 0 <= i < seg.len() ==> (#[trigger] seg[i]).func == fname,
        st.cur_name != Some(fname),
        func_header(b.functions, fname) == Some(hdr),
        hdr.instrs.len() == 0,
    ensures
        relin_blocks_fold(seg, st, b) == (RelinState {
            funcs: flush_cur(st),
            cur: Some(FunctionV { instrs: relin_blocks_instrs(seg, fname), ..hdr }),
            cur_name: Some(fname),
        }),
{
    let bk = seg[0];
    let st1 = relin_step(st, bk, b);
    let f1 = FunctionV { instrs: relin_block_instrs(bk, fname), ..hdr };
    assert(st1 == (RelinState { funcs: flush_cur(st), cur: Some(f1), cur_name: Some(fname) }))
        by {
        if bk.name != bk.func {
            assert(hdr.instrs.push(InstrV::Label(bk.name)) + bk.instrs =~= seq![
                InstrV::Label(bk.name),
            ] + bk.instrs);
            assert(st1 =~= (RelinState {
                funcs: flush_cur(st),
                cur: Some(f1),
                cur_name: Some(fname),
            }));
        } else {
            assert(hdr.instrs + bk.instrs =~= bk.instrs);
            assert(st1 =~= (RelinState {
                funcs: flush_cur(st),
                cur: Some(f1),
                cur_name: Some(fname),
            }));
        }
    }
    assert(forall|i: int|
        0 <= i < seg.drop_first().len() ==> #[trigger] seg.drop_first()[i] == seg[i + 1]);
    lemma_relin_fold_segment(seg.drop_first(), st1, b, fname, f1);
    assert(f1.instrs + relin_blocks_instrs(seg.drop_first(), fname) =~= relin_blocks_instrs(
        seg,
        fname,
    ));
    assert(relin_blocks_fold(seg, st, b) =~= (RelinState {
        funcs: flush_cur(st),
        cur: Some(FunctionV { instrs: relin_blocks_instrs(seg, fname), ..hdr }),
        cur_name: Some(fname),
    }));
}

/// The synthesized-name counter before the `j`-th function is
/// partitioned.
pub open spec fn counter_before(b: BrilV, j: int) -> nat {
    partition_functions(b.functions.take(j), initial_part_state(0)).cnt
}

/// The function that the round trip reproduces for input function `f`:
/// `f` itself, with boundary labels inserted starting at counter
/// `cnt`.
pub open spec fn expected_function(f: FunctionV, cnt: nat) -> FunctionV {
    FunctionV { instrs: with_boundary_labels(f.instrs, cnt), ..f }
}

/// The first `k` functions that the round trip reproduces.
pub open spec fn expected_functions(b: BrilV, k: int) -> Seq<FunctionV> {
    Seq::new(
        if k >= 0 { k as nat } else { 0 },
        |m: int| expected_function(b.functions[m], counter_before(b, m)),
    )
}

/// A function the round-trip law covers: its labels follow
/// non-terminator operations, it is non-empty, it does not end on a
/// label, and no label and no synthesized name equals its own name.
pub open spec fn roundtrip_func_ok(f: FunctionV) -> bool {
    &&& blocks_formable(f.instrs)
    &&& f.instrs.len() > 0
    &&& f.instrs.last() is Instruction
    &&& labels_avoid_name(f.instrs, f.name)
    &&& name_not_synthetic(f.name)
}

/// The inductive composition across functions: after partitioning the
/// first `j` functions, re-linearizing the built blocks has emitted the
/// first `j - 1` expected functions and holds the `j`-th as current.
pub proof fn lemma_roundtrip_compose(b: BrilV, j: int)
    requires
        0 <= j <= b.functions.len(),
        forall|m: int|
            0 <= m < b.functions.len() ==> roundtrip_func_ok(#[trigger] b.functions[m]),
        unique_names(b.functions),
    ensures
        ({
            let stp = partition_functions(b.functions.take(j), initial_part_state(0));
            &&& stp.buf.len() == 0
            &&& relin_blocks_fold(stp.blocks, initial_relin_state(), b) == (if j == 0 {
                initial_relin_state()
            } else {
                RelinState {
                    funcs: expected_functions(b, j - 1),
                    cur: Some(
                        expected_function(b.functions[j - 1], counter_before(b, j - 1)),
                    ),
                    cur_name: Some(b.functions[j - 1].name),
                }
            })
        }),
    decreases j,
{
    if j == 0 {
        assert(b.functions.take(0) =~= Seq::<FunctionV>::empty());
        assert(partition_functions(b.functions.take(0), initial_part_state(0))
            == initial_part_state(0));
        assert(relin_blocks_fold(Seq::<BlockV>::empty(), initial_relin_state(), b)
            == initial_relin_state());
    } else {
        lemma_roundtrip_compose(b, j - 1);
        let stp0 = partition_functions(b.functions.take(j - 1), initial_part_state(0));
        let f = b.functions[j - 1];
        assert(b.functions.take(j) =~= b.functions.take(j - 1).push(f));
        lemma_partition_functions_snoc(b.functions.take(j - 1), f, initial_part_state(0));
        let stp = partition_function(f, stp0);
        assert(partition_functions(b.functions.take(j), initial_part_state(0)) == stp);
        assert(roundtrip_func_ok(f));
        lemma_roundtrip_function(f, stp0);
        let seg = stp.blocks.skip(stp0.blocks.len() as int);
        assert(stp.blocks =~= stp0.blocks + seg) by {
            assert(stp.blocks.take(stp0.blocks.len() as int) == stp0.blocks);
            assert(forall|m: int|
                0 <= m < stp0.blocks.len() ==> #[trigger] stp.blocks[m] == stp.blocks.take(
                    stp0.blocks.len() as int,
                )[m]);
        }
        lemma_relin_fold_concat(stp0.blocks, seg, initial_relin_state(), b);
        let st_before = relin_blocks_fold(stp0.blocks, initial_relin_state(), b);
        // The previous function's name differs from this one's, so the
        // segment starts fresh.
        assert(st_before.cur_name != Some(f.name)) by {
            if j >= 2 {
                assert(b.functions[j - 2].name != b.functions[j - 1].name);
            }
        }
        lemma_func_header_at(b.functions, j - 1);
        let hdr = FunctionV { instrs: Seq::<InstrV>::empty(), ..f };
        assert(seg.len() > 0);
        assert(forall|i: int| 0 <= i < seg.len() ==> (#[trigger] seg[i]).func == f.name) by {
            assert(forall|i: int|
                0 <= i < seg.len() ==> #[trigger] seg[i] == stp.blocks[stp0.blocks.len() + i]);
        }
        lemma_relin_fold_fresh_segment(seg, st_before, b, f.name, hdr);
        // The assembled function is the expected one.
        assert(FunctionV { instrs: relin_blocks_instrs(seg, f.name), ..hdr }
            =~= expected_function(f, counter_before(b, j - 1)));
        // Flushing the previous function extends the expected prefix.
        if j == 1 {
            assert(flush_cur(st_before) =~= expected_functions(b, 0));
        } else {
            assert(flush_cur(st_before) =~= expected_functions(b, j - 1));
        }
    }
}

/// The round-trip law: re-linearizing the partition of a well-formed
/// program (with successors resolved) reproduces the program itself —
/// every function keeps its name, arguments and return type, and its
/// instruction sequence is reproduced exactly, except that each
/// originally unlabeled block boundary gains one synthesized label.
/// Erasing all labels recovers every function's operation sequence
/// exactly.
pub proof fn lemma_partition_relinearize_roundtrip(b: BrilV)
    requires
        forall|m: int|
            0 <= m < b.functions.len() ==> roundtrip_func_ok(#[trigger] b.functions[m]),
        unique_names(b.functions),
    ensures
        ({
            let out = relinearize(with_resolved_succ(partition_blocks(b)), b);
            &&& out.functions.len() == b.functions.len()
            &&& forall|j: int|
                0 <= j < b.functions.len() ==> #[trigger] out.functions[j]
                    == expected_function(b.functions[j], counter_before(b, j))
            &&& forall|j: int|
                0 <= j < b.functions.len() ==> drop_labels(
                    #[trigger] out.functions[j].instrs,
                ) == drop_labels(b.functions[j].instrs)
        }),
{
    let n = b.functions.len() as int;
    lemma_roundtrip_compose(b, n);
    assert(b.functions.take(n) =~= b.functions);
    let stp = partition_functions(b.functions, initial_part_state(0));
    let bs = stp.blocks;
    assert(bs == partition_blocks(b));
    // Successor sets play no role in re-linearization.
    assert(forall|i: int|
        0 <= i < bs.len() ==> (#[trigger] with_resolved_succ(bs)[i]).name == bs[i].name
            && with_resolved_succ(bs)[i].func == bs[i].func && with_resolved_succ(bs)[i].instrs
            == bs[i].instrs);
    lemma_relin_fold_equiv(with_resolved_succ(bs), bs, initial_relin_state(), b);
    let st_end = relin_blocks_fold(bs, initial_relin_state(), b);
    let out = relinearize(with_resolved_succ(bs), b);
    if n == 0 {
        assert(out.functions =~= expected_functions(b, 0));
    } else {
        assert(out.functions =~= expected_functions(b, n));
    }
    assert(forall|j: int|
        0 <= j < n ==> #[trigger] out.functions[j] == expected_function(
            b.functions[j],
            counter_before(b, j),
        ));
    assert forall|j: int| 0 <= j < n implies drop_labels(#[trigger] out.functions[j].instrs)
        == drop_labels(b.functions[j].instrs) by {
        lemma_with_boundary_labels_ops(b.functions[j].instrs, counter_before(b, j));
    }
}

// ------------------------------------------------------------------
// The builder's executable methods
// ------------------------------------------------------------------

/// Decides whether the block builder accepts a program: every label
/// follows a non-terminator operation, every operation meets the
/// data-model invariants, and the program's instruction count fits the
/// machine.
pub fn check_program(bril: &Bril) -> (b: bool)
    ensures
        b == (program_well_formed(bril@) && total_instr_count(bril@.functions)
            <= usize::MAX),
{
    let ghost fs = bril@.functions;
    let n_funcs = bril.functions.len();
    let mut total: usize = 0;
    let mut fi: usize = 0;
    while fi < n_funcs
        invariant
            fi <= n_funcs,
            n_funcs == fs.len(),
            fs == bril@.functions,
            total as nat == prefix_instr_count(fs, fi as int),
            forall|m: int|
                0 <= m < fi ==> blocks_formable(#[trigger] fs[m].instrs)
                    && instrs_well_formed(fs[m].instrs),
        decreases n_funcs - fi,
    {
        proof {
            assert(bril.functions@[fi as int].deep_view() == fs[fi as int]);
        }
        let ghost f = fs[fi as int];
        let func = &bril.functions[fi];
        let n_instrs = func.instrs.len();
        let mut i: usize = 0;
        while i < n_instrs
            invariant
                i <= n_instrs,
                n_instrs == func.instrs@.len(),
                func.deep_view() == f,
                fi < n_funcs,
                n_funcs == fs.len(),
                fs == bril@.functions,
                f == fs[fi as int],
                forall|m: int|
                    0 <= m < i && (#[trigger] f.instrs[m]) is Label ==> m >= 1
                        && op_allows_label_after(f.instrs, m - 1),
                forall|m: int|
                    0 <= m < i ==> (#[trigger] f.instrs[m] matches InstrV::Instruction(o)
                        ==> op_well_formed(o)),
            decreases n_instrs - i,
        {
            proof {
                assert(func.instrs@[i as int].deep_view() == f.instrs[i as int]);
            }
            match &func.instrs[i] {
                Instr::Label { .. } => {
                    if i == 0 {
                        proof {
                            assert(!blocks_formable(f.instrs));
                            assert(!program_well_formed(bril@));
                        }
                        return false;
                    }
                    proof {
                        assert(func.instrs@[i as int - 1].deep_view() == f.instrs[i as int
                            - 1]);
                    }
                    match &func.instrs[i - 1] {
                        Instr::Instruction { op, .. } => {
                            if *op == Opcode::Jmp || *op == Opcode::Br || *op == Opcode::Ret {
                                proof {
                                    assert(!op_allows_label_after(f.instrs, i as int - 1));
                                    assert(!blocks_formable(f.instrs));
                                    assert(!program_well_formed(bril@));
                                }
                                return false;
                            }
                        },
                        Instr::Label { .. } => {
                            proof {
                                assert(!op_allows_label_after(f.instrs, i as int - 1));
                                assert(!blocks_formable(f.instrs));
                                assert(!program_well_formed(bril@));
                            }
                            return false;
                        },
                    }
                },
                Instr::Instruction { op, dest, typ, args, labels, value, .. } => {
                    let ghost o = f.instrs[i as int].as_op();
                    if *op == Opcode::Jmp || *op == Opcode::Br {
                        match labels {
                            Some(ls) => {
                                if ls.len() == 0 {
                                    proof {
                                        assert(o.labels matches Some(l2) && l2.len() == 0);
                                        assert(!op_well_formed(o));
                                        assert(!instrs_well_formed(f.instrs));
                                        assert(!program_well_formed(bril@));
                                    }
                                    return false;
                                }
                            },
                            None => {
                                proof {
                                    assert(o.labels is None);
                                    assert(!op_well_formed(o));
                                    assert(!instrs_well_formed(f.instrs));
                                    assert(!program_well_formed(bril@));
                                }
                                return false;
                            },
                        }
                    }
                    if dest.is_some() && typ.is_none() {
                        proof {
                            assert(o.dest is Some && o.typ is None);
                            assert(!op_well_formed(o));
                            assert(!instrs_well_formed(f.instrs));
                            assert(!program_well_formed(bril@));
                        }
                        return false;
                    }
                    if *op == Opcode::Const && value.is_none() {
                        proof {
                            assert(o.op == Opcode::Const && o.value is None);
                            assert(!op_well_formed(o));
                            assert(!instrs_well_formed(f.instrs));
                            assert(!program_well_formed(bril@));
                        }
                        return false;
                    }
                    if *op == Opcode::Id {
                        match args {
                            Some(a) => {
                                if a.len() != 1 {
                                    proof {
                                        assert(o.args matches Some(a2) && a2.len() != 1);
                                        assert(!op_well_formed(o));
                                        assert(!instrs_well_formed(f.instrs));
                                        assert(!program_well_formed(bril@));
                                    }
                                    return false;
                                }
                            },
                            None => {
                                proof {
                                    assert(o.args is None);
                                    assert(!op_well_formed(o));
                                    assert(!instrs_well_formed(f.instrs));
                                    assert(!program_well_formed(bril@));
                                }
                                return false;
                            },
                        }
                    }
                    proof {
                        assert(op_well_formed(o));
                    }
                },
            }
            i += 1;
        }
        match total.checked_add(n_instrs) {
            Some(t) => {
                total = t;
            },
            None => {
                proof {
                    lemma_prefix_count_step(fs, fi as int);
                    lemma_prefix_count_le_total(fs, fi as int + 1);
                    assert(total_instr_count(fs) > usize::MAX);
                }
                return false;
            },
        }
        proof {
            lemma_prefix_count_step(fs, fi as int);
        }
        fi += 1;
    }
    proof {
        assert(fs.take(n_funcs as int) =~= fs);
        assert(prefix_instr_count(fs, n_funcs as int) == total_instr_count(fs)) by {
            lemma_prefix_total_eq(fs);
        }
    }
    true
}

/// The full prefix counts the whole program.
proof fn lemma_prefix_total_eq(fs: Seq<FunctionV>)
    ensures
        prefix_instr_count(fs, fs.len() as int) == total_instr_count(fs),
    decreases fs.len(),
{
    if fs.len() > 0 {
        lemma_prefix_total_eq(fs.drop_first());
    }
}

impl BrilCFG {
    /// A fresh builder over `bril`: no blocks, no pending name, and the
    /// synthesized-name counter at zero.
    pub fn new(bril: Bril) -> (r: Self)
        ensures
            r.bril@ == bril@,
            r.unnamed_block_cnt == 0,
            r.cur_name is None,
            r.blocks@.len() == 0,
    {
        Self { bril, unnamed_block_cnt: 0, cur_name: None, blocks: vec![] }
    }

    /// Sets the pending name for the next block to close.
    fn set_cur_block_name(&mut self, name: &str)
        ensures
            final(self).cur_name.deep_view() == Some(name@),
            final(self).bril == old(self).bril,
            final(self).unnamed_block_cnt == old(self).unnamed_block_cnt,
            final(self).blocks == old(self).blocks,
    {
        self.cur_name = Some(name.to_owned());
    }

    /// Partitions the program into basic blocks and resolves every
    /// block's successor set.
    ///
    /// Walks each function's instructions, buffering operations; a
    /// label or a terminator closes the buffer as a block, named by the
    /// pending label (or the function's name for its first block) or by
    /// the next synthesized name; a non-empty buffer at function end
    /// closes as a final block.
    pub fn parse_blocks(&mut self)
        requires
            program_well_formed(old(self).bril@),
            old(self).blocks@.len() == 0,
            old(self).cur_name is None,
            old(self).unnamed_block_cnt == 0,
            total_instr_count(old(self).bril@.functions) <= usize::MAX,
        ensures
            final(self).bril == old(self).bril,
            ({
                let st = partition_functions(old(self).bril@.functions, initial_part_state(0));
                &&& final(self).blocks.deep_view() == with_resolved_succ(st.blocks)
                &&& final(self).unnamed_block_cnt as nat == st.cnt
                &&& final(self).cur_name.deep_view() == st.cur_name
            }),
            blocks_wf(final(self).blocks.deep_view()),
    {
        let ghost fs = self.bril@.functions;
        let ghost total = total_instr_count(fs);
        proof {
            assert(fs.take(0) =~= Seq::<FunctionV>::empty());
            assert(self.blocks.deep_view() =~= Seq::<BlockV>::empty());
        }
        let n_funcs = self.bril.functions.len();
        let mut fi: usize = 0;
        while fi < n_funcs
            invariant
                fi <= n_funcs,
                n_funcs == fs.len(),
                self.bril == old(self).bril,
                fs == self.bril@.functions,
                total == total_instr_count(fs),
                total <= usize::MAX,
                program_well_formed(self.bril@),
                ({
                    let st = partition_functions(fs.take(fi as int), initial_part_state(0));
                    &&& self.blocks.deep_view() == st.blocks
                    &&& self.unnamed_block_cnt as nat == st.cnt
                    &&& self.cur_name.deep_view() == st.cur_name
                    &&& st.buf.len() == 0
                }),
                blocks_wf(self.blocks.deep_view()),
                self.unnamed_block_cnt as nat <= self.blocks@.len(),
                self.blocks@.len() <= prefix_instr_count(fs, fi as int),
            decreases n_funcs - fi,
        {
            let ghost st_prev = partition_functions(fs.take(fi as int), initial_part_state(0));
            let ghost f = fs[fi as int];
            proof {
                assert(self.bril@.functions[fi as int] == f);
                assert(self.bril.functions@[fi as int].deep_view() == f);
            }
            let fname = self.bril.functions[fi].name.clone();
            proof {
                assert(fname@ == f.name);
            }
            self.set_cur_block_name(fname.as_str());
            let mut buf: Vec<Instr> = Vec::new();
            let n_instrs = self.bril.functions[fi].instrs.len();
            let ghost st_f0 = PartState { cur_name: Some(f.name), ..st_prev };
            proof {
                assert(f.instrs.take(0) =~= Seq::<InstrV>::empty());
                assert(blocks_formable(f.instrs));
                assert(instrs_well_formed(f.instrs));
            }
            let mut i: usize = 0;
            while i < n_instrs
                invariant
                    i <= n_instrs,
                    fi < n_funcs,
                    n_funcs == fs.len(),
                    self.bril == old(self).bril,
                    fs == self.bril@.functions,
                    f == fs[fi as int],
                    fname@ == f.name,
                    n_instrs == f.instrs.len(),
                    total == total_instr_count(fs),
                    total <= usize::MAX,
                    program_well_formed(self.bril@),
                    blocks_formable(f.instrs),
                    instrs_well_formed(f.instrs),
                    st_f0 == (PartState {
                        cur_name: Some(f.name),
                        ..partition_functions(fs.take(fi as int), initial_part_state(0))
                    }),
                    ({
                        let st = partition_instrs(f.instrs.take(i as int), f.name, st_f0);
                        &&& self.blocks.deep_view() == st.blocks
                        &&& self.unnamed_block_cnt as nat == st.cnt
                        &&& self.cur_name.deep_view() == st.cur_name
                        &&& buf.deep_view() == st.buf
                    }),
                    blocks_wf(self.blocks.deep_view()),
                    ops_only(buf.deep_view()),
                    instrs_well_formed(buf.deep_view()),
                    self.unnamed_block_cnt as nat <= self.blocks@.len(),
                    self.blocks@.len() + buf@.len() <= prefix_instr_count(fs, fi as int)
                        + i as nat,
                    i > 0 && op_allows_label_after(f.instrs, i as int - 1) ==> buf@.len() > 0,
                decreases n_instrs - i,
            {
                let ghost st_i = partition_instrs(f.instrs.take(i as int), f.name, st_f0);
                proof {
                    assert(self.bril.functions@[fi as int].deep_view() == f);
                    assert(self.bril.functions@[fi as int].instrs.deep_view()[i as int]
                        == f.instrs[i as int]);
                    assert(f.instrs.take(i as int + 1) =~= f.instrs.take(i as int).push(
                        f.instrs[i as int],
                    ));
                    lemma_partition_instrs_snoc(
                        f.instrs.take(i as int),
                        f.instrs[i as int],
                        f.name,
                        st_f0,
                    );
                    lemma_prefix_count_step(fs, fi as int);
                    lemma_prefix_count_le_total(fs, fi as int + 1);
                }
                let ins = crate::parser::clone_instr(&self.bril.functions[fi].instrs[i]);
                proof {
                    assert(ins@ == f.instrs[i as int]);
                }
                match &ins {
                    Instr::Instruction { op, .. } => {
                        let opc: Opcode = *op;
                        let ghost pre_buf = buf;
                        let ghost gins = ins;
                        buf.push(ins);
                        proof {
                            crate::parser::lemma_vec_deep_view_push(pre_buf, buf, gins);
                        }
                        if opc == Opcode::Jmp || opc == Opcode::Br || opc == Opcode::Ret {
                            proof {
                                assert(buf@.len() > 0);
                                assert(self.blocks@.len() < total);
                            }
                            let name = self.cur_block_name();
                            let done = buf;
                            buf = Vec::new();
                            let ghost pre_blocks = self.blocks;
                            let block = Block {
                                name,
                                instrs: done,
                                succ: None,
                                func: fname.clone(),
                                numbered: false,
                            };
                            proof {
                                assert(block.deep_view() == (BlockV {
                                    name: block_name_of(st_i.cur_name, st_i.cnt),
                                    instrs: st_i.buf.push(f.instrs[i as int]),
                                    succ: None,
                                    func: f.name,
                                    numbered: false,
                                }));
                            }
                            self.blocks.push(block);
                            proof {
                                crate::parser::lemma_vec_deep_view_push(
                                    pre_blocks,
                                    self.blocks,
                                    block,
                                );
                            }
                        }
                    },
                    Instr::Label { label } => {
                        proof {
                            assert(f.instrs[i as int] is Label);
                            assert(i >= 1 && op_allows_label_after(f.instrs, i as int - 1));
                            assert(buf@.len() > 0);
                            assert(self.blocks@.len() + buf@.len() <= prefix_instr_count(
                                fs,
                                fi as int,
                            ) + i as nat);
                            assert(prefix_instr_count(fs, fi as int) + f.instrs.len()
                                <= total);
                            assert(self.blocks@.len() < total);
                        }
                        let name = self.cur_block_name();
                        let done = buf;
                        buf = Vec::new();
                        let ghost pre_blocks = self.blocks;
                        let block = Block {
                            name,
                            instrs: done,
                            succ: None,
                            func: fname.clone(),
                            numbered: false,
                        };
                        proof {
                            assert(block.deep_view() == (BlockV {
                                name: block_name_of(st_i.cur_name, st_i.cnt),
                                instrs: st_i.buf,
                                succ: None,
                                func: f.name,
                                numbered: false,
                            }));
                        }
                        self.blocks.push(block);
                        proof {
                            crate::parser::lemma_vec_deep_view_push(
                                pre_blocks,
                                self.blocks,
                                block,
                            );
                        }
                        self.set_cur_block_name(label.as_str());
                    },
                }
                proof {
                    let st_n = partition_instrs(f.instrs.take(i as int + 1), f.name, st_f0);
                    assert(self.blocks.deep_view() == st_n.blocks);
                    assert(self.unnamed_block_cnt as nat == st_n.cnt);
                    assert(self.cur_name.deep_view() == st_n.cur_name);
                    assert(buf.deep_view() == st_n.buf);
                }
                i += 1;
            }
            proof {
                assert(f.instrs.take(n_instrs as int) =~= f.instrs);
            }
            if buf.len() > 0 {
                proof {
                    lemma_prefix_count_step(fs, fi as int);
                    lemma_prefix_count_le_total(fs, fi as int + 1);
                    assert(self.blocks@.len() + buf@.len() <= prefix_instr_count(fs, fi as int)
                        + n_instrs as nat);
                    assert(self.blocks@.len() < total);
                }
                let name = self.cur_block_name();
                let ghost pre_blocks = self.blocks;
                let block = Block {
                    name,
                    instrs: buf,
                    succ: None,
                    func: fname.clone(),
                    numbered: false,
                };
                self.blocks.push(block);
                proof {
                    crate::parser::lemma_vec_deep_view_push(pre_blocks, self.blocks, block);
                }
            }
            proof {
                assert(fs.take(fi as int + 1) =~= fs.take(fi as int).push(f));
                lemma_partition_functions_snoc(fs.take(fi as int), f, initial_part_state(0));
                let st_next = partition_functions(fs.take(fi as int + 1), initial_part_state(0));
                assert(self.blocks.deep_view() == st_next.blocks);
                assert(self.unnamed_block_cnt as nat == st_next.cnt);
                assert(self.cur_name.deep_view() == st_next.cur_name);
                lemma_prefix_count_step(fs, fi as int);
            }
            fi += 1;
        }
        proof {
            assert(fs.take(n_funcs as int) =~= fs);
        }
        let ghost bs_unresolved = self.blocks.deep_view();
        self.resolve_cfg();
        proof {
            assert(forall|k: int|
                0 <= k < with_resolved_succ(bs_unresolved).len() ==> block_wf(
                    #[trigger] with_resolved_succ(bs_unresolved)[k],
                ));
        }
    }

    /// Fills in every block's successor set, reading each block's last
    /// operation: a jump or branch names its targets, a return has
    /// none, and anything else falls through to the next block in
    /// whole-program order if one exists.
    ///
    /// An immutable read phase computes every successor set first; an
    /// isolated write phase then applies them.
    pub fn resolve_cfg(&mut self)
        requires
            blocks_wf(old(self).blocks.deep_view()),
        ensures
            final(self).blocks.deep_view() == with_resolved_succ(old(self).blocks.deep_view()),
            final(self).bril == old(self).bril,
            final(self).unnamed_block_cnt == old(self).unnamed_block_cnt,
            final(self).cur_name == old(self).cur_name,
    {
        let ghost bs0 = self.blocks.deep_view();
        let n = self.blocks.len();
        let mut succs: Vec<Option<Vec<String>>> = Vec::new();
        let mut i: usize = 0;
        while i < n
            invariant
                i <= n,
                n == self.blocks@.len(),
                *self == *old(self),
                blocks_wf(bs0),
                bs0 == self.blocks.deep_view(),
                succs@.len() == i as int,
                forall|j: int| #![auto]
                    0 <= j < i ==> succs@[j].deep_view() == resolved_succ(bs0, j),
            decreases n - i,
        {
            proof {
                assert(block_wf(bs0[i as int]));
            }
            let bk = &self.blocks[i];
            let last_idx = bk.instrs.len() - 1;
            let last = &bk.instrs[last_idx];
            proof {
                assert(last@ == bs0[i as int].instrs.last());
            }
            let s: Option<Vec<String>> = match last {
                Instr::Instruction { op, labels, .. } => {
                    if *op == Opcode::Jmp || *op == Opcode::Br {
                        match labels {
                            Some(ls) => Some(crate::parser::clone_names(ls)),
                            None => {
                                proof {
                                    assert(false);
                                }
                                None
                            },
                        }
                    } else if *op == Opcode::Ret {
                        None
                    } else if i + 1 < n {
                        Some(vec![self.blocks[i + 1].name.clone()])
                    } else {
                        None
                    }
                },
                Instr::Label { .. } => {
                    proof {
                        assert(false);
                    }
                    None
                },
            };
            proof {
                assert(s.deep_view() == resolved_succ(bs0, i as int));
            }
            succs.push(s);
            i += 1;
        }
        let mut out: Vec<Block> = Vec::new();
        let mut j: usize = 0;
        while j < n
            invariant
                j <= n,
                n == bs0.len(),
                self.bril == old(self).bril,
                self.unnamed_block_cnt == old(self).unnamed_block_cnt,
                self.cur_name == old(self).cur_name,
                self.blocks@.len() == n - j,
                self.blocks.deep_view() == bs0.skip(j as int),
                succs@.len() == n - j,
                forall|k: int| #![auto]
                    0 <= k < n - j ==> succs@[k].deep_view() == resolved_succ(bs0, k + j),
                out@.len() == j as int,
                forall|k: int| #![auto]
                    0 <= k < j ==> out.deep_view()[k] == with_resolved_succ(bs0)[k],
            decreases n - j,
        {
            proof {
                assert(self.blocks.deep_view()[0] == self.blocks@[0].deep_view());
            }
            let ghost prev = self.blocks@;
            let mut bk = self.blocks.remove(0);
            let s = succs.remove(0);
            proof {
                assert(bk.deep_view() == bs0[j as int]);
                assert(forall|k: int| #![auto]
                    0 <= k < self.blocks@.len() ==> self.blocks@[k] == prev[k + 1]);
                assert(forall|k: int| #![auto]
                    0 <= k < self.blocks@.len() ==> self.blocks.deep_view()[k]
                        == prev[k + 1].deep_view());
                assert(forall|m: int| #![auto]
                    0 <= m < prev.len() ==> prev[m].deep_view() == bs0.skip(j as int)[m]);
                assert(forall|k: int|
                    0 <= k < self.blocks@.len() ==> #[trigger] bs0.skip(j as int + 1)[k]
                        == bs0.skip(j as int)[k + 1]);
                assert(self.blocks.deep_view().len() == bs0.skip(j as int + 1).len());
                assert(self.blocks.deep_view() =~= bs0.skip(j as int + 1));
            }
            bk.succ = s;
            out.push(bk);
            j += 1;
        }
        self.blocks = out;
        proof {
            assert(self.blocks.deep_view() =~= with_resolved_succ(bs0));
        }
    }

    /// Re-linearizes the built blocks back into a program: blocks are
    /// grouped by owning function in block order; a block whose name is
    /// not the function's own name is announced by a label; function
    /// headers are taken from the owned program.
    pub fn to_bril(&self) -> (r: Bril)
        ensures
            r@ == relinearize(self.blocks.deep_view(), self.bril@),
    {
        let ghost bs = self.blocks.deep_view();
        let ghost b = self.bril@;
        let mut cur_name: Option<String> = None;
        let mut cur_func: Option<Function> = None;
        let mut funcs: Vec<Function> = Vec::new();
        let n = self.blocks.len();
        let mut i: usize = 0;
        proof {
            assert(bs.take(0) =~= Seq::<BlockV>::empty());
            assert(funcs.deep_view() =~= Seq::<FunctionV>::empty());
        }
        while i < n
            invariant
                i <= n,
                n == self.blocks@.len(),
                bs == self.blocks.deep_view(),
                b == self.bril@,
                ({
                    let st = relin_blocks_fold(bs.take(i as int), initial_relin_state(), b);
                    &&& funcs.deep_view() == st.funcs
                    &&& cur_func.deep_view() == st.cur
                    &&& cur_name.deep_view() == st.cur_name
                }),
            decreases n - i,
        {
            let ghost st_i = relin_blocks_fold(bs.take(i as int), initial_relin_state(), b);
            proof {
                assert(bs.take(i as int + 1) =~= bs.take(i as int).push(bs[i as int]));
                lemma_relin_fold_snoc(bs.take(i as int), bs[i as int], initial_relin_state(), b);
                assert(self.blocks@[i as int].deep_view() == bs[i as int]);
            }
            let bk = &self.blocks[i];
            let ghost bkv = bs[i as int];
            let changed: bool = match &cur_name {
                Some(cn) => !(*cn == bk.func),
                None => true,
            };
            if changed {
                match cur_func.take() {
                    Some(fdone) => {
                        let ghost pre_funcs = funcs;
                        funcs.push(fdone);
                        proof {
                            crate::parser::lemma_vec_deep_view_push(pre_funcs, funcs, fdone);
                        }
                    },
                    None => {},
                }
                cur_func = self.get_func_by_name(&bk.func);
                cur_name = Some(bk.func.clone());
            }
            let ghost st1 = if st_i.cur_name != Some(bkv.func) {
                RelinState {
                    funcs: flush_cur(st_i),
                    cur: func_header(b.functions, bkv.func),
                    cur_name: Some(bkv.func),
                }
            } else {
                st_i
            };
            proof {
                assert(funcs.deep_view() == st1.funcs);
                assert(cur_func.deep_view() == st1.cur);
                assert(cur_name.deep_view() == st1.cur_name);
            }
            match cur_func.take() {
                Some(mut fcur) => {
                    let ghost fv = fcur.deep_view();
                    if !(bk.name == bk.func) {
                        let ghost pre = fcur.instrs;
                        let lab = Instr::Label { label: bk.name.clone() };
                        let ghost glab = lab;
                        fcur.instrs.push(lab);
                        proof {
                            crate::parser::lemma_vec_deep_view_push(pre, fcur.instrs, glab);
                        }
                    }
                    let ghost prefix = fcur.instrs.deep_view();
                    let m = bk.instrs.len();
                    let mut k: usize = 0;
                    proof {
                        assert(prefix + bkv.instrs.take(0) =~= prefix);
                    }
                    while k < m
                        invariant
                            k <= m,
                            m == bk.instrs@.len(),
                            bkv == bk.deep_view(),
                            fcur.instrs.deep_view() == prefix + bkv.instrs.take(k as int),
                            fcur.name@ == fv.name,
                            fcur.args.deep_view() == fv.args,
                            fcur.typ == fv.typ,
                        decreases m - k,
                    {
                        proof {
                            assert(bk.instrs@[k as int].deep_view() == bkv.instrs[k as int]);
                        }
                        let ghost pre = fcur.instrs;
                        let cloned = crate::parser::clone_instr(&bk.instrs[k]);
                        let ghost gcl = cloned;
                        fcur.instrs.push(cloned);
                        proof {
                            crate::parser::lemma_vec_deep_view_push(pre, fcur.instrs, gcl);
                            assert(prefix + bkv.instrs.take(k as int + 1) =~= (prefix
                                + bkv.instrs.take(k as int)).push(bkv.instrs[k as int]));
                        }
                        k += 1;
                    }
                    proof {
                        assert(bkv.instrs.take(m as int) =~= bkv.instrs);
                    }
                    cur_func = Some(fcur);
                },
                None => {},
            }
            proof {
                let st_n = relin_blocks_fold(bs.take(i as int + 1), initial_relin_state(), b);
                assert(funcs.deep_view() == st_n.funcs);
                assert(cur_func.deep_view() =~= st_n.cur);
                assert(cur_name.deep_view() == st_n.cur_name);
            }
            i += 1;
        }
        proof {
            assert(bs.take(n as int) =~= bs);
        }
        match cur_func {
            Some(fdone) => {
                let ghost pre_funcs = funcs;
                funcs.push(fdone);
                proof {
                    crate::parser::lemma_vec_deep_view_push(pre_funcs, funcs, fdone);
                }
            },
            None => {},
        }
        let r = Bril { functions: funcs };
        proof {
            assert(r@ =~= relinearize(bs, b));
        }
        r
    }

    /// Looks up a function header by name: the first function so
    /// named, with its instruction sequence cleared.
    fn get_func_by_name(&self, name: &str) -> (r: Option<Function>)
        ensures
            r.deep_view() == func_header(self.bril@.functions, name@),
    {
        let ghost fs = self.bril@.functions;
        let owned: String = name.to_owned();
        let n = self.bril.functions.len();
        let mut i: usize = 0;
        proof {
            assert(fs.skip(0) =~= fs);
        }
        while i < n
            invariant
                i <= n,
                n == fs.len(),
                fs == self.bril@.functions,
                owned@ == name@,
                func_header(fs, name@) == func_header(fs.skip(i as int), name@),
            decreases n - i,
        {
            proof {
                assert(fs.skip(i as int)[0] == fs[i as int]);
                assert(fs.skip(i as int).drop_first() =~= fs.skip(i as int + 1));
                assert(self.bril.functions@[i as int].deep_view() == fs[i as int]);
            }
            if self.bril.functions[i].name == owned {
                let func = &self.bril.functions[i];
                let header = Function {
                    name: func.name.clone(),
                    args: crate::parser::clone_opt_args(&func.args),
                    typ: func.typ,
                    instrs: Vec::new(),
                };
                proof {
                    assert(header.deep_view() =~= (FunctionV {
                        instrs: Seq::<InstrV>::empty(),
                        ..fs[i as int]
                    }));
                }
                return Some(header);
            }
            i += 1;
        }
        proof {
            assert(fs.skip(n as int) =~= Seq::<FunctionV>::empty());
        }
        None
    }

    /// Takes the name for the block that is closing: the pending name
    /// if one is set, else the next synthesized name.
    fn cur_block_name(&mut self) -> (name: String)
        requires
            old(self).cur_name is None ==> old(self).unnamed_block_cnt < usize::MAX,
        ensures
            name@ == block_name_of(
                old(self).cur_name.deep_view(),
                old(self).unnamed_block_cnt as nat,
            ),
            final(self).cur_name is None,
            final(self).unnamed_block_cnt == if old(self).cur_name is Some {
                old(self).unnamed_block_cnt as int
            } else {
                old(self).unnamed_block_cnt + 1
            },
            final(self).bril == old(self).bril,
            final(self).blocks == old(self).blocks,
    {
        let pending = self.cur_name.take();
        match pending {
            Some(name) => name,
            None => {
                let tmp_name = synth_name_string(self.unnamed_block_cnt);
                self.unnamed_block_cnt = self.unnamed_block_cnt + 1;
                tmp_name
            },
        }
    }
}

} // verus!
