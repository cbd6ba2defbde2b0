//! Dead code elimination: two intra-block fixpoint passes. The first
//! deletes every instruction whose result no instruction of the block
//! reads; the second deletes every store that a later store to the
//! same name overwrites before any read. Each pass is specified as a
//! fixpoint of a one-iteration spec function, and each carries a
//! soundness law: a deleted instruction always had a destination, and
//! what made it dead is visible in the remaining instructions.

use vstd::prelude::*;

use crate::cfg::{ops_only, Block, BlockV, BrilCFG};
use crate::parser::{clone_instr, lemma_vec_deep_view_push, Instr, InstrV};
use crate::table::{
    assoc_map, lemma_assoc_map_dom, lemma_assoc_map_index, lemma_assoc_map_push,
    lemma_assoc_map_remove, lemma_unique_keys_push, lemma_unique_keys_remove, unique_keys,
};

verus! {

// ------------------------------------------------------------------
// Pass A: unused-result elimination
// ------------------------------------------------------------------

/// The set of names that some instruction of the block reads as an
/// argument.
pub open spec fn used_names(s: Seq<InstrV>) -> Set<Seq<char>> {
    Set::new(
        |n: Seq<char>|
            exists|i: int, k: int|
                #![trigger s[i].as_op().arg_seq()[k]]
                0 <= i < s.len() && 0 <= k < s[i].as_op().arg_seq().len()
                    && s[i].as_op().arg_seq()[k] == n,
    )
}

/// One pass keeps an instruction exactly when it has no destination or
/// its destination is read somewhere in the block.
pub open spec fn keeps_instr(s: Seq<InstrV>, ins: InstrV) -> bool {
    match ins.as_op().dest {
        Some(d) => used_names(s).contains(d),
        None => true,
    }
}

/// One iteration of unused-result elimination.
pub open spec fn dce_a_step(s: Seq<InstrV>) -> Seq<InstrV> {
    s.filter(|ins: InstrV| keeps_instr(s, ins))
}

/// A filtered sequence of undiminished length is the sequence itself.
proof fn lemma_filter_full<A>(s: Seq<A>, pred: spec_fn(A) -> bool)
    requires
        s.filter(pred).len() == s.len(),
    ensures
        s.filter(pred) == s,
    decreases s.len(),
{
    reveal(Seq::filter);
    if s.len() > 0 {
        s.drop_last().lemma_filter_len(pred);
        if pred(s.last()) {
            lemma_filter_full(s.drop_last(), pred);
            assert(s.filter(pred) =~= s);
        } else {
            assert(false);
        }
    } else {
        assert(s.filter(pred) =~= s);
    }
}

/// An iteration that deletes something shrinks the block.
proof fn lemma_dce_a_step_shrinks(s: Seq<InstrV>)
    requires
        dce_a_step(s) != s,
    ensures
        dce_a_step(s).len() < s.len(),
{
    s.lemma_filter_len(|ins: InstrV| keeps_instr(s, ins));
    if dce_a_step(s).len() == s.len() {
        lemma_filter_full(s, |ins: InstrV| keeps_instr(s, ins));
    }
}

/// Unused-result elimination run to its fixpoint.
pub open spec fn dce_a_fix(s: Seq<InstrV>) -> Seq<InstrV>
    decreases s.len(),
    via dce_a_fix_decreases
{
    if dce_a_step(s) == s {
        s
    } else {
        dce_a_fix(dce_a_step(s))
    }
}

#[via_fn]
proof fn dce_a_fix_decreases(s: Seq<InstrV>) {
    if dce_a_step(s) != s {
        lemma_dce_a_step_shrinks(s);
    }
}

/// Every instruction surviving the fixpoint was in the input.
pub proof fn lemma_dce_a_fix_contains(s: Seq<InstrV>, x: InstrV)
    requires
        dce_a_fix(s).contains(x),
    ensures
        s.contains(x),
    decreases s.len(),
{
    if dce_a_step(s) == s {
    } else {
        lemma_dce_a_step_shrinks(s);
        lemma_dce_a_fix_contains(dce_a_step(s), x);
        s.lemma_filter_contains_rev(|ins: InstrV| keeps_instr(s, ins), x);
    }
}

/// Every name read in the fixpoint's result was read in the input.
proof fn lemma_dce_a_fix_used(s: Seq<InstrV>, n: Seq<char>)
    requires
        used_names(dce_a_fix(s)).contains(n),
    ensures
        used_names(s).contains(n),
{
    let r = dce_a_fix(s);
    let (i, k) = choose|i: int, k: int|
        #![trigger r[i].as_op().arg_seq()[k]]
        0 <= i < r.len() && 0 <= k < r[i].as_op().arg_seq().len() && r[i].as_op().arg_seq()[k]
            == n;
    assert(r.contains(r[i]));
    lemma_dce_a_fix_contains(s, r[i]);
    let j = choose|j: int| 0 <= j < s.len() && s[j] == r[i];
    assert(s[j].as_op().arg_seq()[k] == n);
}

/// Dead-code soundness for unused-result elimination: the fixpoint
/// invents nothing, a destination-less instruction is never deleted,
/// and every deleted instruction's destination is unread by the
/// remaining instructions.
pub proof fn lemma_dce_a_sound(s: Seq<InstrV>)
    ensures
        forall|x: InstrV| #[trigger] dce_a_fix(s).contains(x) ==> s.contains(x),
        forall|i: int|
            0 <= i < s.len() && !dce_a_fix(s).contains(#[trigger] s[i]) ==> s[i].as_op().dest
                is Some,
        forall|i: int|
            0 <= i < s.len() && !dce_a_fix(s).contains(#[trigger] s[i]) ==> !used_names(
                dce_a_fix(s),
            ).contains(s[i].as_op().dest->0),
    decreases s.len(),
{
    let r = dce_a_fix(s);
    assert forall|x: InstrV| #[trigger] r.contains(x) implies s.contains(x) by {
        lemma_dce_a_fix_contains(s, x);
    }
    if dce_a_step(s) == s {
        assert forall|i: int| 0 <= i < s.len() implies r.contains(#[trigger] s[i]) by {
            assert(r[i] == s[i]);
        }
    } else {
        let t = dce_a_step(s);
        lemma_dce_a_step_shrinks(s);
        lemma_dce_a_sound(t);
        assert(r == dce_a_fix(t));
        assert forall|i: int|
            0 <= i < s.len() && !r.contains(#[trigger] s[i]) implies s[i].as_op().dest is Some
            && !used_names(r).contains(s[i].as_op().dest->0) by {
            if t.contains(s[i]) {
                let j = choose|j: int| 0 <= j < t.len() && t[j] == s[i];
                assert(!r.contains(t[j]));
            } else {
                // Deleted in this iteration: it failed the keep test.
                if keeps_instr(s, s[i]) {
                    s.lemma_filter_contains(|ins: InstrV| keeps_instr(s, ins), i);
                    assert(false);
                }
                assert(s[i].as_op().dest is Some);
                let d = s[i].as_op().dest->0;
                assert(!used_names(s).contains(d));
                if used_names(r).contains(d) {
                    // Reads only shrink across iterations.
                    assert(used_names(dce_a_fix(t)).contains(d));
                    lemma_dce_a_fix_used(t, d);
                    let (i2, k2) = choose|i2: int, k2: int|
                        #![trigger t[i2].as_op().arg_seq()[k2]]
                        0 <= i2 < t.len() && 0 <= k2 < t[i2].as_op().arg_seq().len()
                            && t[i2].as_op().arg_seq()[k2] == d;
                    assert(t.contains(t[i2]));
                    s.lemma_filter_contains_rev(|ins: InstrV| keeps_instr(s, ins), t[i2]);
                    let j2 = choose|j2: int| 0 <= j2 < s.len() && s[j2] == t[i2];
                    assert(s[j2].as_op().arg_seq()[k2] == d);
                    assert(used_names(s).contains(d));
                    assert(false);
                }
            }
        }
    }
}

// ------------------------------------------------------------------
// Pass B: dead-store elimination
// ------------------------------------------------------------------

/// Whether the operation reads the name as one of its arguments.
pub open spec fn reads_name(ins: InstrV, n: Seq<char>) -> bool {
    ins.as_op().arg_seq().contains(n)
}

/// The dead-store scan's state: for each name, the position of its
/// most recent not-yet-read definition, and the positions marked for
/// deletion.
#[verifier::ext_equal]
pub struct DceBState {
    pub last_defs: Map<Seq<char>, int>,
    pub marked: Set<int>,
}

/// Reading a name retires its pending definition.
pub open spec fn remove_args(ld: Map<Seq<char>, int>, args: Seq<Seq<char>>) -> Map<
    Seq<char>,
    int,
>
    decreases args.len(),
{
    if args.len() == 0 {
        ld
    } else {
        remove_args(ld.remove(args[0]), args.drop_first())
    }
}

/// A name survives the reads exactly when it had a pending definition
/// and was not read, and it keeps its position.
proof fn lemma_remove_args(ld: Map<Seq<char>, int>, args: Seq<Seq<char>>, k: Seq<char>)
    ensures
        remove_args(ld, args).contains_key(k) <==> (ld.contains_key(k) && !args.contains(k)),
        remove_args(ld, args).contains_key(k) ==> remove_args(ld, args)[k] == ld[k],
    decreases args.len(),
{
    if args.len() > 0 {
        lemma_remove_args(ld.remove(args[0]), args.drop_first(), k);
        if args.contains(k) {
            let m = choose|m: int| 0 <= m < args.len() && args[m] == k;
            if m == 0 {
            } else {
                assert(args.drop_first()[m - 1] == k);
                assert(args.drop_first().contains(k));
            }
        } else {
            assert(args[0] != k);
            if args.drop_first().contains(k) {
                let m = choose|m: int|
                    0 <= m < args.drop_first().len() && args.drop_first()[m] == k;
                assert(args[m + 1] == k);
            }
        }
    }
}

/// Reading one more name retires that definition afterwards.
proof fn lemma_remove_args_snoc(ld: Map<Seq<char>, int>, args: Seq<Seq<char>>, a: Seq<char>)
    ensures
        remove_args(ld, args.push(a)) == remove_args(ld, args).remove(a),
    decreases args.len(),
{
    if args.len() == 0 {
        assert(args.push(a).len() == 1);
        assert(args.push(a)[0] == a);
        assert(args.push(a).drop_first() =~= args);
        assert(remove_args(ld, args.push(a)) == remove_args(ld.remove(a), args));
        assert(remove_args(ld.remove(a), args) == ld.remove(a));
        assert(remove_args(ld, args) == ld);
    } else {
        assert(args.push(a)[0] == args[0]);
        assert(args.push(a).drop_first() =~= args.drop_first().push(a));
        lemma_remove_args_snoc(ld.remove(args[0]), args.drop_first(), a);
        assert(remove_args(ld, args.push(a)) == remove_args(
            ld.remove(args[0]),
            args.drop_first().push(a),
        ));
        assert(remove_args(ld, args) == remove_args(ld.remove(args[0]), args.drop_first()));
    }
}

/// One scan step: each argument read retires its pending definition;
/// a destination whose previous definition is still pending marks that
/// earlier position as a dead store, and the destination's pending
/// definition becomes this instruction.
pub open spec fn dce_b_scan_step(st: DceBState, ins: InstrV, i: int) -> DceBState {
    let ld1 = remove_args(st.last_defs, ins.as_op().arg_seq());
    match ins.as_op().dest {
        Some(d) => if ld1.contains_key(d) {
            DceBState { last_defs: ld1.insert(d, i), marked: st.marked.insert(ld1[d]) }
        } else {
            DceBState { last_defs: ld1.insert(d, i), marked: st.marked }
        },
        None => DceBState { last_defs: ld1, marked: st.marked },
    }
}

/// The scan from position `i` to the end of the block.
pub open spec fn dce_b_scan_from(s: Seq<InstrV>, i: int, st: DceBState) -> DceBState
    decreases s.len() - i,
    when i <= s.len()
{
    if i >= s.len() {
        st
    } else {
        dce_b_scan_from(s, i + 1, dce_b_scan_step(st, s[i], i))
    }
}

/// The scan's initial state: nothing pending, nothing marked.
pub open spec fn initial_dce_b_state() -> DceBState {
    DceBState { last_defs: Map::empty(), marked: Set::empty() }
}

/// One whole scan of the block.
pub open spec fn dce_b_scan(s: Seq<InstrV>) -> DceBState {
    dce_b_scan_from(s, 0, initial_dce_b_state())
}

/// The block with the marked positions deleted, from position `i` on.
pub open spec fn keep_unmarked_from(s: Seq<InstrV>, m: Set<int>, i: int) -> Seq<InstrV>
    decreases s.len() - i,
    when i <= s.len()
{
    if i >= s.len() {
        Seq::empty()
    } else if m.contains(i) {
        keep_unmarked_from(s, m, i + 1)
    } else {
        seq![s[i]] + keep_unmarked_from(s, m, i + 1)
    }
}

/// One iteration of dead-store elimination.
pub open spec fn dce_b_step(s: Seq<InstrV>) -> Seq<InstrV> {
    keep_unmarked_from(s, dce_b_scan(s).marked, 0)
}

/// Deleting marked positions never lengthens the block, and deleting
/// at least one in-range position shortens it.
proof fn lemma_keep_unmarked_len(s: Seq<InstrV>, m: Set<int>, i: int)
    requires
        0 <= i <= s.len(),
    ensures
        keep_unmarked_from(s, m, i).len() <= s.len() - i,
        (exists|p: int| i <= p < s.len() && #[trigger] m.contains(p))
            ==> keep_unmarked_from(s, m, i).len() < s.len() - i,
    decreases s.len() - i,
{
    if i < s.len() {
        lemma_keep_unmarked_len(s, m, i + 1);
        if exists|p: int| i <= p < s.len() && #[trigger] m.contains(p) {
            let p = choose|p: int| i <= p < s.len() && #[trigger] m.contains(p);
            if p == i {
            } else {
                assert(i + 1 <= p < s.len() && m.contains(p));
            }
        }
    }
}

/// Every kept instruction stands somewhere in the block.
proof fn lemma_keep_unmarked_contains(s: Seq<InstrV>, m: Set<int>, i: int, x: InstrV)
    requires
        0 <= i <= s.len(),
        keep_unmarked_from(s, m, i).contains(x),
    ensures
        s.contains(x),
    decreases s.len() - i,
{
    if i < s.len() {
        if m.contains(i) {
            lemma_keep_unmarked_contains(s, m, i + 1, x);
        } else {
            let t = keep_unmarked_from(s, m, i + 1);
            if x == s[i] {
                assert(s.contains(x));
            } else {
                let q = choose|q: int|
                    0 <= q < (seq![s[i]] + t).len() && (seq![s[i]] + t)[q] == x;
                assert(t[q - 1] == x);
                assert(t.contains(x));
                lemma_keep_unmarked_contains(s, m, i + 1, x);
            }
        }
    }
}

/// Every unmarked position's instruction is kept.
proof fn lemma_keep_unmarked_keeps(s: Seq<InstrV>, m: Set<int>, i: int, j: int)
    requires
        0 <= i <= j < s.len(),
        !m.contains(j),
    ensures
        keep_unmarked_from(s, m, i).contains(s[j]),
    decreases s.len() - i,
{
    if i == j {
        assert((seq![s[i]] + keep_unmarked_from(s, m, i + 1))[0] == s[i]);
    } else {
        lemma_keep_unmarked_keeps(s, m, i + 1, j);
        if !m.contains(i) {
            let t = keep_unmarked_from(s, m, i + 1);
            let q = choose|q: int| 0 <= q < t.len() && t[q] == s[j];
            assert((seq![s[i]] + t)[q + 1] == s[j]);
        }
    }
}

/// Dead-store elimination run to its fixpoint.
pub open spec fn dce_b_fix(s: Seq<InstrV>) -> Seq<InstrV>
    decreases s.len(),
    via dce_b_fix_decreases
{
    if dce_b_scan(s).marked == Set::<int>::empty() {
        s
    } else {
        dce_b_fix(dce_b_step(s))
    }
}

/// The scan only marks in-range positions of instructions that have a
/// destination.
proof fn lemma_dce_b_scan_from_range(s: Seq<InstrV>, i: int, st: DceBState)
    requires
        0 <= i <= s.len(),
        forall|k: Seq<char>| #[trigger]
            st.last_defs.contains_key(k) ==> 0 <= st.last_defs[k] < i,
        forall|p: int| #[trigger] st.marked.contains(p) ==> 0 <= p < i,
    ensures
        forall|p: int| #[trigger]
            dce_b_scan_from(s, i, st).marked.contains(p) ==> 0 <= p < s.len(),
    decreases s.len() - i,
{
    if i < s.len() {
        let st1 = dce_b_scan_step(st, s[i], i);
        let ld1 = remove_args(st.last_defs, s[i].as_op().arg_seq());
        assert forall|k: Seq<char>| #[trigger] ld1.contains_key(k) implies 0 <= ld1[k] < i by {
            lemma_remove_args(st.last_defs, s[i].as_op().arg_seq(), k);
        }
        assert forall|k: Seq<char>| #[trigger] st1.last_defs.contains_key(k) implies 0
            <= st1.last_defs[k] < i + 1 by {
            match s[i].as_op().dest {
                Some(d) => {
                    if k != d {
                        assert(ld1.contains_key(k));
                    }
                },
                None => {},
            }
        }
        assert forall|p: int| #[trigger] st1.marked.contains(p) implies 0 <= p < i + 1 by {
            if !st.marked.contains(p) {
                assert(s[i].as_op().dest matches Some(d) && ld1.contains_key(d) && p == ld1[d]);
            }
        }
        lemma_dce_b_scan_from_range(s, i + 1, st1);
        assert(dce_b_scan_from(s, i, st) == dce_b_scan_from(s, i + 1, st1));
    }
}

#[via_fn]
proof fn dce_b_fix_decreases(s: Seq<InstrV>) {
    if dce_b_scan(s).marked != Set::<int>::empty() {
        let m = dce_b_scan(s).marked;
        lemma_dce_b_scan_from_range(s, 0, initial_dce_b_state());
        assert(exists|p: int| #[trigger] m.contains(p)) by {
            if forall|p: int| !(#[trigger] m.contains(p)) {
                assert(m =~= Set::<int>::empty());
            }
        }
        let p = choose|p: int| #[trigger] m.contains(p);
        lemma_keep_unmarked_len(s, m, 0);
    }
}

/// Position `q` overwrites the definition at `p`: same destination,
/// and between the two the destination is neither read nor redefined.
pub open spec fn overwrites(s: Seq<InstrV>, p: int, q: int) -> bool {
    &&& p < q < s.len()
    &&& s[q].as_op().dest == s[p].as_op().dest
    &&& forall|m: int|
        p < m < q ==> !reads_name(#[trigger] s[m], s[p].as_op().dest->0) && s[m].as_op().dest
            != s[p].as_op().dest
}

/// The definition at `p` is a dead store: it has a destination, and a
/// later instruction overwrites it before any read.
pub open spec fn dead_store_at(s: Seq<InstrV>, p: int) -> bool {
    &&& 0 <= p < s.len()
    &&& s[p].as_op().dest is Some
    &&& exists|q: int| #[trigger] overwrites(s, p, q)
}

/// The scan invariant carried over the suffix: every marked position
/// is a dead store.
proof fn lemma_dce_b_scan_from_sound(s: Seq<InstrV>, i: int, st: DceBState)
    requires
        0 <= i <= s.len(),
        forall|k: Seq<char>| #[trigger]
            st.last_defs.contains_key(k) ==> {
                let p = st.last_defs[k];
                &&& 0 <= p < i
                &&& s[p].as_op().dest == Some(k)
                &&& forall|m: int|
                    p < m < i ==> !reads_name(#[trigger] s[m], k) && s[m].as_op().dest != Some(
                        k,
                    )
            },
        forall|p: int| #[trigger] st.marked.contains(p) ==> dead_store_at(s, p),
    ensures
        forall|p: int| #[trigger]
            dce_b_scan_from(s, i, st).marked.contains(p) ==> dead_store_at(s, p),
    decreases s.len() - i,
{
    if i < s.len() {
        let ins = s[i];
        let args = ins.as_op().arg_seq();
        let ld = st.last_defs;
        let ld1 = remove_args(ld, args);
        let st1 = dce_b_scan_step(st, ins, i);
        assert forall|k: Seq<char>| #[trigger] ld1.contains_key(k) implies ld.contains_key(k)
            && ld1[k] == ld[k] && !args.contains(k) by {
            lemma_remove_args(ld, args, k);
        }
        assert forall|k: Seq<char>| #[trigger] st1.last_defs.contains_key(k) implies {
            let p = st1.last_defs[k];
            &&& 0 <= p < i + 1
            &&& s[p].as_op().dest == Some(k)
            &&& forall|m: int|
                p < m < i + 1 ==> !reads_name(#[trigger] s[m], k) && s[m].as_op().dest != Some(
                    k,
                )
        } by {
            match ins.as_op().dest {
                Some(d) => {
                    if k == d {
                        assert(st1.last_defs[k] == i);
                    } else {
                        assert(ld1.contains_key(k));
                        assert(st1.last_defs[k] == ld1[k]);
                        let p = ld1[k];
                        assert forall|m: int|
                            p < m < i + 1 implies !reads_name(#[trigger] s[m], k)
                            && s[m].as_op().dest != Some(k) by {
                            if m == i {
                                assert(!reads_name(ins, k));
                            }
                        }
                    }
                },
                None => {
                    assert(st1.last_defs == ld1);
                    let p = ld1[k];
                    assert forall|m: int|
                        p < m < i + 1 implies !reads_name(#[trigger] s[m], k)
                        && s[m].as_op().dest != Some(k) by {
                        if m == i {
                            assert(!reads_name(ins, k));
                        }
                    }
                },
            }
        }
        assert forall|p: int| #[trigger] st1.marked.contains(p) implies dead_store_at(s, p) by {
            if !st.marked.contains(p) {
                match ins.as_op().dest {
                    Some(d) => {
                        assert(ld1.contains_key(d) && p == ld1[d]);
                        assert(ld.contains_key(d));
                        assert(s[p].as_op().dest == Some(d));
                        assert(overwrites(s, p, i)) by {
                            assert forall|m: int|
                                p < m < i implies !reads_name(
                                #[trigger] s[m],
                                s[p].as_op().dest->0,
                            ) && s[m].as_op().dest != s[p].as_op().dest by {
                                assert(!reads_name(s[m], d) && s[m].as_op().dest != Some(d));
                            }
                        }
                    },
                    None => {
                        assert(false);
                    },
                }
            }
        }
        lemma_dce_b_scan_from_sound(s, i + 1, st1);
        assert(dce_b_scan_from(s, i, st) == dce_b_scan_from(s, i + 1, st1));
    }
}

/// Dead-store soundness: every position the scan marks is a dead
/// store — its instruction has a destination that a later instruction
/// redefines with no intervening read or redefinition — and a
/// destination-less instruction is never marked.
pub proof fn lemma_dce_b_scan_sound(s: Seq<InstrV>)
    ensures
        forall|p: int| #[trigger] dce_b_scan(s).marked.contains(p) ==> dead_store_at(s, p),
        forall|p: int| #[trigger]
            dce_b_scan(s).marked.contains(p) ==> s[p].as_op().dest is Some,
{
    lemma_dce_b_scan_from_sound(s, 0, initial_dce_b_state());
}

/// Nothing the dead-store fixpoint returns was invented, and an
/// instruction without a destination is never deleted.
pub proof fn lemma_dce_b_sound(s: Seq<InstrV>)
    ensures
        forall|x: InstrV| #[trigger] dce_b_fix(s).contains(x) ==> s.contains(x),
        forall|i: int|
            0 <= i < s.len() && (#[trigger] s[i]).as_op().dest is None ==> dce_b_fix(
                s,
            ).contains(s[i]),
    decreases s.len(),
{
    let r = dce_b_fix(s);
    if dce_b_scan(s).marked == Set::<int>::empty() {
        assert forall|i: int| 0 <= i < s.len() implies r.contains(#[trigger] s[i]) by {
            assert(r[i] == s[i]);
        }
    } else {
        let t = dce_b_step(s);
        lemma_dce_b_scan_sound(s);
        lemma_dce_b_scan_from_range(s, 0, initial_dce_b_state());
        assert(exists|p: int| #[trigger] dce_b_scan(s).marked.contains(p)) by {
            if forall|p: int| !(#[trigger] dce_b_scan(s).marked.contains(p)) {
                assert(dce_b_scan(s).marked =~= Set::<int>::empty());
            }
        }
        lemma_keep_unmarked_len(s, dce_b_scan(s).marked, 0);
        lemma_dce_b_sound(t);
        assert(r == dce_b_fix(t));
        assert forall|x: InstrV| #[trigger] r.contains(x) implies s.contains(x) by {
            assert(t.contains(x));
            lemma_keep_unmarked_contains(s, dce_b_scan(s).marked, 0, x);
        }
        assert forall|i: int|
            0 <= i < s.len() && (#[trigger] s[i]).as_op().dest is None implies r.contains(
            s[i],
        ) by {
            assert(!dce_b_scan(s).marked.contains(i));
            lemma_keep_unmarked_keeps(s, dce_b_scan(s).marked, 0, i);
            let q = choose|q: int| 0 <= q < t.len() && t[q] == s[i];
            assert(t[q].as_op().dest is None);
            assert(r.contains(t[q]));
        }
    }
}

/// View of a pending-definition entry list: each name as characters,
/// each position as an integer.
pub open spec fn name_entries(v: Seq<(String, usize)>) -> Seq<(Seq<char>, int)> {
    v.map_values(|e: (String, usize)| (e.0@, e.1 as int))
}

/// The set of positions a mark list denotes.
pub open spec fn marked_set(v: Seq<usize>) -> Set<int> {
    Set::new(|p: int| exists|m: int| 0 <= m < v.len() && (#[trigger] v[m]) as int == p)
}

/// Recording one more position inserts it into the denoted set.
proof fn lemma_marked_set_push(v: Seq<usize>, x: usize)
    ensures
        marked_set(v.push(x)) == marked_set(v).insert(x as int),
{
    assert forall|p: int| #[trigger]
        marked_set(v.push(x)).contains(p) implies marked_set(v).insert(x as int).contains(
        p,
    ) by {
        let m = choose|m: int| 0 <= m < v.push(x).len() && (#[trigger] v.push(x)[m]) as int == p;
        if m < v.len() {
            assert(v[m] as int == p);
        }
    }
    assert forall|p: int| #[trigger]
        marked_set(v).insert(x as int).contains(p) implies marked_set(v.push(x)).contains(
        p,
    ) by {
        if p == x as int {
            assert(v.push(x)[v.len() as int] as int == p);
        } else {
            let m = choose|m: int| 0 <= m < v.len() && (#[trigger] v[m]) as int == p;
            assert(v.push(x)[m] as int == p);
        }
    }
    assert(marked_set(v.push(x)) =~= marked_set(v).insert(x as int));
}

/// Finds the entry holding the name `x`, if any.
pub(crate) fn find_name_entry(entries: &Vec<(String, usize)>, x: &String) -> (r: Option<usize>)
    ensures
        match r {
            Some(idx) => 0 <= idx < entries@.len() && entries@[idx as int].0@ == x@,
            None => forall|m: int|
                0 <= m < entries@.len() ==> (#[trigger] entries@[m]).0@ != x@,
        },
{
    let n = entries.len();
    let mut m: usize = 0;
    while m < n
        invariant
            m <= n,
            n == entries@.len(),
            forall|p: int| 0 <= p < m ==> (#[trigger] entries@[p]).0@ != x@,
        decreases n - m,
    {
        if entries[m].0 == *x {
            return Some(m);
        }
        m += 1;
    }
    None
}

/// Whether position `j` is marked.
fn contains_pos(marked: &Vec<usize>, j: usize) -> (r: bool)
    ensures
        r == marked_set(marked@).contains(j as int),
{
    let n = marked.len();
    let mut m: usize = 0;
    while m < n
        invariant
            m <= n,
            n == marked@.len(),
            forall|p: int| 0 <= p < m ==> (#[trigger] marked@[p]) != j,
        decreases n - m,
    {
        if marked[m] == j {
            proof {
                assert(marked@[m as int] as int == j as int);
            }
            return true;
        }
        m += 1;
    }
    proof {
        if marked_set(marked@).contains(j as int) {
            let p = choose|p: int|
                0 <= p < marked@.len() && (#[trigger] marked@[p]) as int == j as int;
            assert(false);
        }
    }
    false
}

/// Whether any instruction of the block reads the name `x` as an
/// argument.
fn block_uses_name(instrs: &Vec<Instr>, x: &String) -> (r: bool)
    requires
        ops_only(instrs.deep_view()),
    ensures
        r == used_names(instrs.deep_view()).contains(x@),
{
    let ghost cur = instrs.deep_view();
    let n = instrs.len();
    let mut i: usize = 0;
    while i < n
        invariant
            i <= n,
            n == instrs@.len(),
            cur == instrs.deep_view(),
            ops_only(cur),
            forall|i2: int, k2: int|
                #![trigger cur[i2].as_op().arg_seq()[k2]]
                0 <= i2 < i && 0 <= k2 < cur[i2].as_op().arg_seq().len() ==> cur[i2
                ].as_op().arg_seq()[k2] != x@,
        decreases n - i,
    {
        proof {
            assert(instrs@[i as int].deep_view() == cur[i as int]);
        }
        match &instrs[i] {
            Instr::Instruction { args, .. } => {
                match args {
                    Some(a) => {
                        proof {
                            assert(a.deep_view() == cur[i as int].as_op().arg_seq());
                        }
                        let na = a.len();
                        let mut k: usize = 0;
                        while k < na
                            invariant
                                k <= na,
                                i < n,
                                n == instrs@.len(),
                                cur == instrs.deep_view(),
                                na == a@.len(),
                                a.deep_view() == cur[i as int].as_op().arg_seq(),
                                forall|k2: int|
                                    #![trigger a.deep_view()[k2]]
                                    0 <= k2 < k ==> a.deep_view()[k2] != x@,
                            decreases na - k,
                        {
                            if a[k] == *x {
                                proof {
                                    let ii = i as int;
                                    let kk = k as int;
                                    assert(cur[ii].as_op().arg_seq()[kk] == x@);
                                    assert(used_names(cur).contains(x@));
                                }
                                return true;
                            }
                            proof {
                                assert(a.deep_view()[k as int] == a@[k as int]@);
                            }
                            k += 1;
                        }
                    },
                    None => {
                        proof {
                            assert(cur[i as int].as_op().arg_seq().len() == 0);
                        }
                    },
                }
            },
            Instr::Label { .. } => {
                proof {
                    assert(false);
                }
            },
        }
        i += 1;
    }
    proof {
        if used_names(cur).contains(x@) {
            let (i2, k2) = choose|i2: int, k2: int|
                #![trigger cur[i2].as_op().arg_seq()[k2]]
                0 <= i2 < cur.len() && 0 <= k2 < cur[i2].as_op().arg_seq().len() && cur[i2
                ].as_op().arg_seq()[k2] == x@;
            assert(false);
        }
    }
    false
}

impl Block {
    /// Unused-result elimination, iterated to its fixpoint: compute
    /// the names read anywhere in the block, delete every instruction
    /// whose destination is not among them, and repeat until an
    /// iteration deletes nothing.
    pub fn trivial_dce(&mut self)
        requires
            ops_only(old(self).instrs.deep_view()),
        ensures
            final(self).instrs.deep_view() == dce_a_fix(old(self).instrs.deep_view()),
            ops_only(final(self).instrs.deep_view()),
            final(self).name == old(self).name,
            final(self).func == old(self).func,
            final(self).succ == old(self).succ,
            final(self).numbered == old(self).numbered,
    {
        let ghost orig = self.instrs.deep_view();
        loop
            invariant
                ops_only(self.instrs.deep_view()),
                dce_a_fix(self.instrs.deep_view()) == dce_a_fix(orig),
                self.name == old(self).name,
                self.func == old(self).func,
                self.succ == old(self).succ,
                self.numbered == old(self).numbered,
            ensures
                self.instrs.deep_view() == dce_a_fix(orig),
                ops_only(self.instrs.deep_view()),
                self.name == old(self).name,
                self.func == old(self).func,
                self.succ == old(self).succ,
                self.numbered == old(self).numbered,
            decreases self.instrs@.len(),
        {
            broadcast use vstd::seq_lib::group_seq_properties;

            let ghost cur = self.instrs.deep_view();
            let n = self.instrs.len();
            let ghost pred = |ins: InstrV| keeps_instr(cur, ins);
            let mut kept: Vec<Instr> = Vec::new();
            let mut deleted = false;
            let mut j: usize = 0;
            proof {
                assert(cur.take(0) =~= Seq::<InstrV>::empty());
                reveal(Seq::filter);
            }
            while j < n
                invariant
                    j <= n,
                    n == self.instrs@.len(),
                    cur == self.instrs.deep_view(),
                    ops_only(cur),
                    pred == (|ins: InstrV| keeps_instr(cur, ins)),
                    kept.deep_view() == cur.take(j as int).filter(pred),
                    !deleted ==> kept@.len() == j,
                    deleted ==> kept@.len() < j,
                decreases n - j,
            {
                proof {
                    assert(self.instrs@[j as int].deep_view() == cur[j as int]);
                    assert(cur.take(j as int + 1) =~= cur.take(j as int).push(cur[j as int]));
                    cur.take(j as int).lemma_filter_push(cur[j as int], pred);
                }
                let keep: bool = match &self.instrs[j] {
                    Instr::Instruction { dest, .. } => {
                        match dest {
                            Some(d) => {
                                let c = block_uses_name(&self.instrs, d);
                                proof {
                                    assert(cur[j as int].as_op().dest == Some(d@));
                                    assert(c == keeps_instr(cur, cur[j as int]));
                                }
                                c
                            },
                            None => {
                                proof {
                                    assert(cur[j as int].as_op().dest is None);
                                    assert(keeps_instr(cur, cur[j as int]));
                                }
                                true
                            },
                        }
                    },
                    Instr::Label { .. } => {
                        proof {
                            assert(false);
                        }
                        true
                    },
                };
                if keep {
                    let ghost pre = kept;
                    let cl = clone_instr(&self.instrs[j]);
                    let ghost gcl = cl;
                    kept.push(cl);
                    proof {
                        lemma_vec_deep_view_push(pre, kept, gcl);
                    }
                } else {
                    deleted = true;
                }
                j += 1;
            }
            proof {
                assert(cur.take(n as int) =~= cur);
            }
            if !deleted {
                proof {
                    assert(dce_a_step(cur).len() == cur.len());
                    lemma_filter_full(cur, pred);
                    assert(dce_a_step(cur) == cur);
                    assert(dce_a_fix(cur) == cur);
                }
                break;
            }
            proof {
                assert(kept.deep_view() == dce_a_step(cur));
                assert(dce_a_step(cur) != cur) by {
                    assert(kept@.len() < cur.len());
                }
                assert(dce_a_fix(dce_a_step(cur)) == dce_a_fix(cur));
                assert(ops_only(kept.deep_view())) by {
                    assert forall|m: int| 0 <= m < kept.deep_view().len() implies kept.deep_view()[m]
                        is Instruction by {
                        cur.lemma_filter_pred(pred, m);
                        cur.lemma_filter_contains_rev(pred, kept.deep_view()[m]);
                        let q = choose|q: int|
                            0 <= q < cur.len() && cur[q] == kept.deep_view()[m];
                        assert(cur[q] is Instruction);
                    }
                }
            }
            self.instrs = kept;
        }
    }

    /// Dead-store elimination, iterated to its fixpoint: scan forward
    /// keeping, per name, its most recent not-yet-read definition;
    /// a read retires the definition, a redefinition while one is
    /// pending marks the earlier one as a dead store; delete all
    /// marked instructions and repeat until a scan marks nothing.
    pub fn trivial_dce2(&mut self)
        requires
            ops_only(old(self).instrs.deep_view()),
        ensures
            final(self).instrs.deep_view() == dce_b_fix(old(self).instrs.deep_view()),
            ops_only(final(self).instrs.deep_view()),
            final(self).name == old(self).name,
            final(self).func == old(self).func,
            final(self).succ == old(self).succ,
            final(self).numbered == old(self).numbered,
    {
        let ghost orig = self.instrs.deep_view();
        loop
            invariant
                ops_only(self.instrs.deep_view()),
                dce_b_fix(self.instrs.deep_view()) == dce_b_fix(orig),
                self.name == old(self).name,
                self.func == old(self).func,
                self.succ == old(self).succ,
                self.numbered == old(self).numbered,
            ensures
                self.instrs.deep_view() == dce_b_fix(orig),
                ops_only(self.instrs.deep_view()),
                self.name == old(self).name,
                self.func == old(self).func,
                self.succ == old(self).succ,
                self.numbered == old(self).numbered,
            decreases self.instrs@.len(),
        {
            let ghost cur = self.instrs.deep_view();
            let n = self.instrs.len();
            let mut last_defs: Vec<(String, usize)> = Vec::new();
            let mut marked: Vec<usize> = Vec::new();
            let mut i: usize = 0;
            proof {
                assert(name_entries(last_defs@) =~= Seq::<(Seq<char>, int)>::empty());
                assert(assoc_map(name_entries(last_defs@)) =~= Map::<Seq<char>, int>::empty());
                assert(marked_set(marked@) =~= Set::<int>::empty());
                assert((DceBState {
                    last_defs: assoc_map(name_entries(last_defs@)),
                    marked: marked_set(marked@),
                }) =~= initial_dce_b_state());
            }
            while i < n
                invariant
                    i <= n,
                    n == self.instrs@.len(),
                    cur == self.instrs.deep_view(),
                    ops_only(cur),
                    unique_keys(name_entries(last_defs@)),
                    forall|m: int|
                        0 <= m < last_defs@.len() ==> (#[trigger] last_defs@[m]).1 < i,
                    forall|m: int| 0 <= m < marked@.len() ==> (#[trigger] marked@[m]) < n,
                    dce_b_scan_from(
                        cur,
                        i as int,
                        DceBState {
                            last_defs: assoc_map(name_entries(last_defs@)),
                            marked: marked_set(marked@),
                        },
                    ) == dce_b_scan(cur),
                decreases n - i,
            {
                let ghost st_i = DceBState {
                    last_defs: assoc_map(name_entries(last_defs@)),
                    marked: marked_set(marked@),
                };
                let ghost ins_v = cur[i as int];
                proof {
                    assert(self.instrs@[i as int].deep_view() == ins_v);
                }
                match &self.instrs[i] {
                    Instr::Instruction { args, dest, .. } => {
                        let ghost aseq = ins_v.as_op().arg_seq();
                        match args {
                            Some(a) => {
                                proof {
                                    assert(a.deep_view() == aseq);
                                }
                                let na = a.len();
                                let mut k: usize = 0;
                                proof {
                                    assert(aseq.take(0) =~= Seq::<Seq<char>>::empty());
                                }
                                while k < na
                                    invariant
                                        k <= na,
                                        na == a@.len(),
                                        i < n,
                                        a.deep_view() == aseq,
                                        unique_keys(name_entries(last_defs@)),
                                        forall|m: int|
                                            0 <= m < last_defs@.len() ==> (
                                            #[trigger] last_defs@[m]).1 < i,
                                        assoc_map(name_entries(last_defs@)) == remove_args(
                                            st_i.last_defs,
                                            aseq.take(k as int),
                                        ),
                                    decreases na - k,
                                {
                                    proof {
                                        assert(aseq.take(k as int + 1) =~= aseq.take(
                                            k as int,
                                        ).push(aseq[k as int]));
                                        lemma_remove_args_snoc(
                                            st_i.last_defs,
                                            aseq.take(k as int),
                                            aseq[k as int],
                                        );
                                        assert(a@[k as int]@ == aseq[k as int]);
                                    }
                                    match find_name_entry(&last_defs, &a[k]) {
                                        Some(idx) => {
                                            proof {
                                                assert(name_entries(last_defs@)[idx as int].0
                                                    == aseq[k as int]);
                                                crate::table::lemma_assoc_map_remove(
                                                    name_entries(last_defs@),
                                                    idx as int,
                                                );
                                                crate::table::lemma_unique_keys_remove(
                                                    name_entries(last_defs@),
                                                    idx as int,
                                                );
                                                assert(name_entries(last_defs@.remove(idx as int))
                                                    =~= name_entries(last_defs@).remove(
                                                    idx as int,
                                                ));
                                            }
                                            last_defs.remove(idx);
                                        },
                                        None => {
                                            proof {
                                                lemma_assoc_map_dom(
                                                    name_entries(last_defs@),
                                                    aseq[k as int],
                                                );
                                                if assoc_map(name_entries(last_defs@)).contains_key(
                                                    aseq[k as int],
                                                ) {
                                                    let m = choose|m: int|
                                                        0 <= m < name_entries(last_defs@).len()
                                                            && (#[trigger] name_entries(
                                                            last_defs@,
                                                        )[m]).0 == aseq[k as int];
                                                    assert((last_defs@[m]).0@ == aseq[k as int]);
                                                    assert(false);
                                                }
                                                assert(assoc_map(name_entries(last_defs@)).remove(
                                                    aseq[k as int],
                                                ) =~= assoc_map(name_entries(last_defs@)));
                                            }
                                        },
                                    }
                                    k += 1;
                                }
                                proof {
                                    assert(aseq.take(na as int) =~= aseq);
                                }
                            },
                            None => {
                                proof {
                                    assert(aseq.len() == 0);
                                    assert(remove_args(st_i.last_defs, aseq)
                                        == st_i.last_defs);
                                }
                            },
                        }
                        let ghost ld1 = remove_args(st_i.last_defs, aseq);
                        proof {
                            assert(assoc_map(name_entries(last_defs@)) == ld1);
                            assert(marked_set(marked@) == st_i.marked);
                        }
                        match dest {
                            Some(d) => {
                                proof {
                                    assert(ins_v.as_op().dest == Some(d@));
                                }
                                match find_name_entry(&last_defs, d) {
                                    Some(idx) => {
                                        let pos = last_defs[idx].1;
                                        proof {
                                            crate::table::lemma_assoc_map_index(
                                                name_entries(last_defs@),
                                                idx as int,
                                            );
                                            assert(ld1.contains_key(d@));
                                            assert(ld1[d@] == pos as int);
                                        }
                                        let ghost pre_marked = marked@;
                                        marked.push(pos);
                                        proof {
                                            lemma_marked_set_push(pre_marked, pos);
                                        }
                                        let ghost pre_entries = name_entries(last_defs@);
                                        proof {
                                            crate::table::lemma_assoc_map_remove(
                                                pre_entries,
                                                idx as int,
                                            );
                                            crate::table::lemma_unique_keys_remove(
                                                pre_entries,
                                                idx as int,
                                            );
                                        }
                                        last_defs.remove(idx);
                                        proof {
                                            assert(name_entries(last_defs@) =~= pre_entries.remove(
                                                idx as int,
                                            ));
                                            assert(forall|m: int|
                                                0 <= m < name_entries(last_defs@).len() ==> (
                                                #[trigger] name_entries(last_defs@)[m]).0
                                                    != d@);
                                            crate::table::lemma_unique_keys_push(
                                                name_entries(last_defs@),
                                                d@,
                                                i as int,
                                            );
                                            crate::table::lemma_assoc_map_push(
                                                name_entries(last_defs@),
                                                d@,
                                                i as int,
                                            );
                                        }
                                        let ghost pre2 = name_entries(last_defs@);
                                        last_defs.push((d.clone(), i));
                                        proof {
                                            assert(name_entries(last_defs@) =~= pre2.push(
                                                (d@, i as int),
                                            ));
                                            assert(assoc_map(name_entries(last_defs@))
                                                =~= ld1.insert(d@, i as int));
                                        }
                                    },
                                    None => {
                                        proof {
                                            lemma_assoc_map_dom(name_entries(last_defs@), d@);
                                            if ld1.contains_key(d@) {
                                                let m = choose|m: int|
                                                    0 <= m < name_entries(last_defs@).len() && (
                                                    #[trigger] name_entries(last_defs@)[m]).0
                                                        == d@;
                                                assert((last_defs@[m]).0@ == d@);
                                                assert(false);
                                            }
                                            crate::table::lemma_unique_keys_push(
                                                name_entries(last_defs@),
                                                d@,
                                                i as int,
                                            );
                                            crate::table::lemma_assoc_map_push(
                                                name_entries(last_defs@),
                                                d@,
                                                i as int,
                                            );
                                        }
                                        let ghost pre2 = name_entries(last_defs@);
                                        last_defs.push((d.clone(), i));
                                        proof {
                                            assert(name_entries(last_defs@) =~= pre2.push(
                                                (d@, i as int),
                                            ));
                                            assert(assoc_map(name_entries(last_defs@))
                                                =~= ld1.insert(d@, i as int));
                                        }
                                    },
                                }
                            },
                            None => {
                                proof {
                                    assert(ins_v.as_op().dest is None);
                                }
                            },
                        }
                        proof {
                            let st_n = dce_b_scan_step(st_i, ins_v, i as int);
                            assert((DceBState {
                                last_defs: assoc_map(name_entries(last_defs@)),
                                marked: marked_set(marked@),
                            }) =~= st_n);
                            assert(dce_b_scan_from(cur, i as int, st_i) == dce_b_scan_from(
                                cur,
                                i as int + 1,
                                st_n,
                            ));
                        }
                    },
                    Instr::Label { .. } => {
                        proof {
                            assert(false);
                        }
                    },
                }
                i += 1;
            }
            proof {
                assert(dce_b_scan(cur) == (DceBState {
                    last_defs: assoc_map(name_entries(last_defs@)),
                    marked: marked_set(marked@),
                }));
            }
            if marked.len() == 0 {
                proof {
                    assert(marked_set(marked@) =~= Set::<int>::empty()) by {
                        if exists|p: int| #[trigger] marked_set(marked@).contains(p) {
                            let p = choose|p: int| #[trigger] marked_set(marked@).contains(p);
                            let m = choose|m: int|
                                0 <= m < marked@.len() && (#[trigger] marked@[m]) as int == p;
                            assert(false);
                        }
                    }
                    assert(dce_b_fix(cur) == cur);
                }
                break;
            }
            let ghost mset = marked_set(marked@);
            let mut kept: Vec<Instr> = Vec::new();
            let mut j: usize = 0;
            proof {
                assert(kept.deep_view() =~= Seq::<InstrV>::empty());
                assert(keep_unmarked_from(cur, mset, 0) =~= kept.deep_view()
                    + keep_unmarked_from(cur, mset, 0));
            }
            while j < n
                invariant
                    j <= n,
                    n == self.instrs@.len(),
                    cur == self.instrs.deep_view(),
                    ops_only(cur),
                    mset == marked_set(marked@),
                    keep_unmarked_from(cur, mset, 0) == kept.deep_view() + keep_unmarked_from(
                        cur,
                        mset,
                        j as int,
                    ),
                    ops_only(kept.deep_view()),
                decreases n - j,
            {
                let c = contains_pos(&marked, j);
                if !c {
                    proof {
                        assert(self.instrs@[j as int].deep_view() == cur[j as int]);
                    }
                    let ghost pre = kept;
                    let cl = clone_instr(&self.instrs[j]);
                    let ghost gcl = cl;
                    kept.push(cl);
                    proof {
                        lemma_vec_deep_view_push(pre, kept, gcl);
                        assert(keep_unmarked_from(cur, mset, j as int) == seq![cur[j as int]]
                            + keep_unmarked_from(cur, mset, j as int + 1));
                        assert(kept.deep_view() + keep_unmarked_from(cur, mset, j as int + 1)
                            =~= pre.deep_view() + keep_unmarked_from(cur, mset, j as int));
                    }
                } else {
                    proof {
                        assert(keep_unmarked_from(cur, mset, j as int) == keep_unmarked_from(
                            cur,
                            mset,
                            j as int + 1,
                        ));
                    }
                }
                j += 1;
            }
            proof {
                assert(keep_unmarked_from(cur, mset, n as int) =~= Seq::<InstrV>::empty());
                assert(kept.deep_view() + Seq::<InstrV>::empty() =~= kept.deep_view());
                assert(kept.deep_view() == dce_b_step(cur));
                assert(mset.contains(marked@[0] as int)) by {
                    assert(0 <= 0 < marked@.len());
                }
                assert(dce_b_scan(cur).marked != Set::<int>::empty());
                assert(dce_b_fix(dce_b_step(cur)) == dce_b_fix(cur));
                lemma_keep_unmarked_len(cur, mset, 0);
                assert(kept@.len() < n);
            }
            self.instrs = kept;
        }
    }
}

impl BrilCFG {
    /// Runs both dead-code passes, in order, on every block: first
    /// unused-result elimination to its fixpoint, then dead-store
    /// elimination to its fixpoint.
    pub fn trivial_dce(&mut self)
        requires
            forall|i: int|
                0 <= i < old(self).blocks.deep_view().len() ==> ops_only(
                    (#[trigger] old(self).blocks.deep_view()[i]).instrs,
                ),
        ensures
            final(self).blocks.deep_view().len() == old(self).blocks.deep_view().len(),
            forall|i: int|
                0 <= i < old(self).blocks.deep_view().len()
                    ==> #[trigger] final(self).blocks.deep_view()[i] == (BlockV {
                    instrs: dce_b_fix(dce_a_fix(old(self).blocks.deep_view()[i].instrs)),
                    ..old(self).blocks.deep_view()[i]
                }),
            final(self).bril == old(self).bril,
            final(self).unnamed_block_cnt == old(self).unnamed_block_cnt,
            final(self).cur_name == old(self).cur_name,
    {
        let ghost bs0 = self.blocks.deep_view();
        let n = self.blocks.len();
        let mut out: Vec<Block> = Vec::new();
        let mut i: usize = 0;
        while i < n
            invariant
                i <= n,
                n == bs0.len(),
                self.blocks@.len() == n - i,
                self.blocks.deep_view() == bs0.skip(i as int),
                forall|k: int| 0 <= k < bs0.len() ==> ops_only((#[trigger] bs0[k]).instrs),
                out@.len() == i as int,
                forall|k: int|
                    0 <= k < i ==> #[trigger] out.deep_view()[k] == (BlockV {
                        instrs: dce_b_fix(dce_a_fix(bs0[k].instrs)),
                        ..bs0[k]
                    }),
                self.bril == old(self).bril,
                self.unnamed_block_cnt == old(self).unnamed_block_cnt,
                self.cur_name == old(self).cur_name,
            decreases n - i,
        {
            proof {
                assert(self.blocks.deep_view()[0] == self.blocks@[0].deep_view());
                assert(self.blocks.deep_view()[0] == bs0[i as int]);
            }
            let ghost prev = self.blocks@;
            let mut bk = self.blocks.remove(0);
            proof {
                assert(bk.deep_view() == bs0[i as int]);
                assert(forall|k: int| #![auto]
                    0 <= k < self.blocks@.len() ==> self.blocks@[k] == prev[k + 1]);
                assert(forall|k: int| #![auto]
                    0 <= k < self.blocks@.len() ==> self.blocks.deep_view()[k] == prev[k
                        + 1].deep_view());
                assert(forall|m: int| #![auto]
                    0 <= m < prev.len() ==> prev[m].deep_view() == bs0.skip(i as int)[m]);
                assert(forall|k: int|
                    0 <= k < self.blocks@.len() ==> #[trigger] bs0.skip(i as int + 1)[k]
                        == bs0.skip(i as int)[k + 1]);
                assert(self.blocks.deep_view().len() == bs0.skip(i as int + 1).len());
                assert(self.blocks.deep_view() =~= bs0.skip(i as int + 1));
            }
            bk.trivial_dce();
            bk.trivial_dce2();
            let ghost pre_out = out;
            let ghost gbk = bk;
            out.push(bk);
            proof {
                lemma_vec_deep_view_push(pre_out, out, gbk);
                assert(gbk.deep_view() =~= (BlockV {
                    instrs: dce_b_fix(dce_a_fix(bs0[i as int].instrs)),
                    ..bs0[i as int]
                }));
            }
            i += 1;
        }
        self.blocks = out;
    }
}

} // verus!
