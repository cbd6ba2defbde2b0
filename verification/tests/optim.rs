//! Value numbering and dead code elimination, run through the whole
//! pipeline.

use brilopt::cfg::BrilCFG;
use brilopt::lvn::{LVNOpcode, LVNTuple, LVN};
use brilopt::parser::{Bril, Function, Instr, Literal, Opcode, Type};

fn op_const(dest: &str, val: usize) -> Instr {
    Instr::Instruction {
        op: Opcode::Const,
        dest: Some(dest.to_string()),
        typ: Some(Type::Int),
        args: None,
        funcs: None,
        labels: None,
        value: Some(Literal::Number(val)),
    }
}

fn op_bin(opc: Opcode, dest: &str, a: &str, b: &str) -> Instr {
    Instr::Instruction {
        op: opc,
        dest: Some(dest.to_string()),
        typ: Some(Type::Int),
        args: Some(vec![a.to_string(), b.to_string()]),
        funcs: None,
        labels: None,
        value: None,
    }
}

fn op_id(dest: &str, src: &str) -> Instr {
    Instr::Instruction {
        op: Opcode::Id,
        dest: Some(dest.to_string()),
        typ: Some(Type::Int),
        args: Some(vec![src.to_string()]),
        funcs: None,
        labels: None,
        value: None,
    }
}

fn op_print(arg: &str) -> Instr {
    Instr::Instruction {
        op: Opcode::Print,
        dest: None,
        typ: None,
        args: Some(vec![arg.to_string()]),
        funcs: None,
        labels: None,
        value: None,
    }
}

fn main_fn(instrs: Vec<Instr>) -> Bril {
    Bril {
        functions: vec![Function {
            name: "main".to_string(),
            args: None,
            typ: None,
            instrs,
        }],
    }
}

fn dest_of(i: &Instr) -> Option<&str> {
    match i {
        Instr::Instruction { dest, .. } => dest.as_deref(),
        Instr::Label { .. } => None,
    }
}

fn args_of(i: &Instr) -> Vec<String> {
    match i {
        Instr::Instruction { args: Some(a), .. } => a.clone(),
        _ => vec![],
    }
}

fn value_of(i: &Instr) -> Option<&Literal> {
    match i {
        Instr::Instruction { value, .. } => value.as_ref(),
        Instr::Label { .. } => None,
    }
}

fn opcode_of(i: &Instr) -> Option<Opcode> {
    match i {
        Instr::Instruction { op, .. } => Some(*op),
        Instr::Label { .. } => None,
    }
}

fn defines(out: &Bril, name: &str) -> usize {
    out.functions
        .iter()
        .flat_map(|f| f.instrs.iter())
        .filter(|i| dest_of(i) == Some(name))
        .count()
}

/// Unused results and dead stores are deleted: the unread constant and
/// the store that a later store overwrites both disappear.
#[test]
fn trivial_dce() {
    let bril = main_fn(vec![
        op_const("a", 4),
        op_const("b", 2),
        op_const("c", 1),
        op_const("a", 8),
        op_bin(Opcode::Add, "d", "a", "b"),
        op_print("d"),
    ]);
    let mut cfg = BrilCFG::new(bril);
    cfg.parse_blocks();
    cfg.trivial_dce();
    let out = cfg.to_bril();

    assert!(defines(&out, "c") == 0);
    assert!(!out.functions[0].instrs.iter().any(|i| {
        dest_of(i) == Some("a") && value_of(i) == Some(&Literal::Number(4))
    }));
}

/// Common-subexpression elimination: the second identical addition is
/// rewritten into a copy and then deleted.
#[test]
fn lvn() {
    let bril = main_fn(vec![
        op_const("a", 4),
        op_const("b", 2),
        op_bin(Opcode::Add, "sum1", "a", "b"),
        op_bin(Opcode::Add, "sum2", "a", "b"),
        op_bin(Opcode::Mul, "prod", "sum1", "sum2"),
        op_print("prod"),
    ]);
    let mut cfg = BrilCFG::new(bril);
    cfg.parse_blocks();
    cfg.lvn();
    cfg.trivial_dce();
    let out = cfg.to_bril();

    assert!(defines(&out, "sum2") == 0);
}

/// The product reads the surviving representative on both sides once
/// the redundant sum is gone.
#[test]
fn cse_canonicalizes_operands() {
    let bril = main_fn(vec![
        op_const("a", 4),
        op_const("b", 2),
        op_bin(Opcode::Add, "sum1", "a", "b"),
        op_bin(Opcode::Add, "sum2", "a", "b"),
        op_bin(Opcode::Mul, "prod", "sum1", "sum2"),
        op_print("prod"),
    ]);
    let mut cfg = BrilCFG::new(bril);
    cfg.parse_blocks();
    cfg.lvn();
    cfg.trivial_dce();
    let out = cfg.to_bril();

    let prod = out.functions[0]
        .instrs
        .iter()
        .find(|i| dest_of(i) == Some("prod"))
        .expect("the product must survive");
    assert_eq!(args_of(prod), vec!["sum1".to_string(), "sum1".to_string()]);
}

/// Copy propagation: a chain of copies collapses and disappears.
#[test]
fn copy_propagation() {
    let bril = main_fn(vec![
        op_const("x", 4),
        op_id("copy1", "x"),
        op_id("copy2", "copy1"),
        op_id("copy3", "copy2"),
        op_print("copy3"),
    ]);
    let mut cfg = BrilCFG::new(bril);
    cfg.parse_blocks();
    cfg.lvn();
    cfg.trivial_dce();
    let out = cfg.to_bril();

    assert!(defines(&out, "copy1") == 0);
    assert!(defines(&out, "copy2") == 0);
    assert!(defines(&out, "copy3") == 0);
}

/// After collapsing the copy chain, the print reads the ultimate
/// source directly.
#[test]
fn copies_collapse_to_source() {
    let bril = main_fn(vec![
        op_const("x", 4),
        op_id("copy1", "x"),
        op_id("copy2", "copy1"),
        op_id("copy3", "copy2"),
        op_print("copy3"),
    ]);
    let mut cfg = BrilCFG::new(bril);
    cfg.parse_blocks();
    cfg.lvn();
    cfg.trivial_dce();
    let out = cfg.to_bril();

    let f = &out.functions[0];
    assert_eq!(f.instrs.len(), 2);
    assert_eq!(dest_of(&f.instrs[0]), Some("x"));
    assert_eq!(opcode_of(&f.instrs[1]), Some(Opcode::Print));
    assert_eq!(args_of(&f.instrs[1]), vec!["x".to_string()]);
}

/// A store overwritten before any read is removed: exactly one
/// definition remains, the later one.
#[test]
fn dead_store_keeps_last_definition() {
    let bril = main_fn(vec![op_const("a", 4), op_const("a", 8), op_print("a")]);
    let mut cfg = BrilCFG::new(bril);
    cfg.parse_blocks();
    cfg.trivial_dce();
    let out = cfg.to_bril();

    assert_eq!(defines(&out, "a"), 1);
    let def = out.functions[0]
        .instrs
        .iter()
        .find(|i| dest_of(i) == Some("a"))
        .expect("one definition remains");
    assert_eq!(value_of(def), Some(&Literal::Number(8)));
    assert_eq!(out.functions[0].instrs.len(), 2);
}

/// Destination-less instructions are never deleted.
#[test]
fn prints_survive_dce() {
    let bril = main_fn(vec![op_const("a", 4), op_print("a"), op_print("a")]);
    let mut cfg = BrilCFG::new(bril);
    cfg.parse_blocks();
    cfg.trivial_dce();
    let out = cfg.to_bril();

    let prints = out.functions[0]
        .instrs
        .iter()
        .filter(|i| opcode_of(i) == Some(Opcode::Print))
        .count();
    assert_eq!(prints, 2);
}

/// Equal constants are congruent: the second load becomes a copy of
/// the first.
#[test]
fn equal_constants_share_a_number() {
    let bril = main_fn(vec![
        op_const("a", 4),
        op_const("b", 4),
        op_print("a"),
        op_print("b"),
    ]);
    let mut cfg = BrilCFG::new(bril);
    cfg.parse_blocks();
    cfg.lvn();
    let out = cfg.to_bril();

    let b_def = out.functions[0]
        .instrs
        .iter()
        .find(|i| dest_of(i) == Some("b"))
        .expect("b is still defined");
    assert_eq!(opcode_of(b_def), Some(Opcode::Id));
    assert_eq!(args_of(b_def), vec!["a".to_string()]);
}

/// Distinct constants are not congruent.
#[test]
fn distinct_constants_stay() {
    let bril = main_fn(vec![
        op_const("a", 4),
        op_const("b", 5),
        op_print("a"),
        op_print("b"),
    ]);
    let mut cfg = BrilCFG::new(bril);
    cfg.parse_blocks();
    cfg.lvn();
    let out = cfg.to_bril();

    let b_def = out.functions[0]
        .instrs
        .iter()
        .find(|i| dest_of(i) == Some("b"))
        .expect("b is still defined");
    assert_eq!(opcode_of(b_def), Some(Opcode::Const));
}

/// After numbering and dead code elimination, no two structurally
/// identical additions with distinct destinations remain, even when
/// both results are read.
#[test]
fn no_duplicate_computations_remain() {
    let bril = main_fn(vec![
        op_const("a", 4),
        op_const("b", 2),
        op_bin(Opcode::Add, "s1", "a", "b"),
        op_bin(Opcode::Add, "s2", "a", "b"),
        op_print("s1"),
        op_print("s2"),
    ]);
    let mut cfg = BrilCFG::new(bril);
    cfg.parse_blocks();
    cfg.lvn();
    cfg.trivial_dce();
    let out = cfg.to_bril();

    let adds = out.functions[0]
        .instrs
        .iter()
        .filter(|i| opcode_of(i) == Some(Opcode::Add))
        .count();
    assert_eq!(adds, 1);
    for i in &out.functions[0].instrs {
        if opcode_of(i) == Some(Opcode::Print) {
            assert_eq!(args_of(i), vec!["s1".to_string()]);
        }
    }
}

/// The copy instruction built for a redundant computation keeps the
/// destination's declared type.
#[test]
fn new_id_instr_shape() {
    let i = Instr::new_id_instr("dst", "src", Type::Bool);
    assert_eq!(dest_of(&i), Some("dst"));
    assert_eq!(opcode_of(&i), Some(Opcode::Id));
    assert_eq!(args_of(&i), vec!["src".to_string()]);
    match i {
        Instr::Instruction { typ, .. } => assert_eq!(typ, Some(Type::Bool)),
        Instr::Label { .. } => panic!("not a label"),
    }
}

/// Fresh value numbers count up from zero.
#[test]
fn fresh_numbers_count_up() {
    let mut lvn = LVN::new();
    assert_eq!(lvn.next_var_num(), 0);
    assert_eq!(lvn.next_var_num(), 1);
    assert_eq!(lvn.next_var_num(), 2);
}

/// A constant's canonical tuple carries its literal and no arguments.
#[test]
fn constant_tuple() {
    let lvn = LVN::new();
    let t: LVNTuple = lvn.tuple_from_instr(&op_const("a", 7));
    assert_eq!(t.op, LVNOpcode::Cst(Literal::Number(7)));
    assert!(t.args.is_empty());
}

/// With empty tables, rewriting leaves argument names unchanged.
#[test]
fn rewrite_on_empty_tables() {
    let lvn = LVN::new();
    let r = lvn.rewrite_instr_args(&op_print("q"));
    assert_eq!(args_of(&r), vec!["q".to_string()]);
}
