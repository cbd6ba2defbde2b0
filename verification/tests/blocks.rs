//! Block partitioning, successor resolution and re-linearization.

use brilopt::cfg::{check_program, BrilCFG};
use brilopt::parser::{Bril, Function, Instr, Literal, Opcode, Type};

fn op_const(dest: &str, val: usize) -> Instr {
    Instr::Instruction {
        op: Opcode::Const,
        dest: Some(dest.to_string()),
        typ: Some(Type::Int),
        args: None,
        funcs: None,
        labels: None,
        value: Some(Literal::Number(val)),
    }
}

fn op_print(arg: &str) -> Instr {
    Instr::Instruction {
        op: Opcode::Print,
        dest: None,
        typ: None,
        args: Some(vec![arg.to_string()]),
        funcs: None,
        labels: None,
        value: None,
    }
}

fn op_jmp(target: &str) -> Instr {
    Instr::Instruction {
        op: Opcode::Jmp,
        dest: None,
        typ: None,
        args: None,
        funcs: None,
        labels: Some(vec![target.to_string()]),
        value: None,
    }
}

fn op_ret() -> Instr {
    Instr::Instruction {
        op: Opcode::Ret,
        dest: None,
        typ: None,
        args: None,
        funcs: None,
        labels: None,
        value: None,
    }
}

fn label(name: &str) -> Instr {
    Instr::Label { label: name.to_string() }
}

fn main_fn(instrs: Vec<Instr>) -> Bril {
    Bril {
        functions: vec![Function {
            name: "main".to_string(),
            args: None,
            typ: None,
            instrs,
        }],
    }
}

fn dest_of(i: &Instr) -> Option<&str> {
    match i {
        Instr::Instruction { dest, .. } => dest.as_deref(),
        Instr::Label { .. } => None,
    }
}

fn value_of(i: &Instr) -> Option<&Literal> {
    match i {
        Instr::Instruction { value, .. } => value.as_ref(),
        Instr::Label { .. } => None,
    }
}

fn label_text(i: &Instr) -> Option<&str> {
    match i {
        Instr::Label { label } => Some(label.as_str()),
        Instr::Instruction { .. } => None,
    }
}

fn opcode_of(i: &Instr) -> Option<Opcode> {
    match i {
        Instr::Instruction { op, .. } => Some(*op),
        Instr::Label { .. } => None,
    }
}

/// A jump over a dead store: partitioning yields three blocks, the
/// middle one synthesized, and re-linearization reproduces the input
/// with the synthesized boundary announced by an explicit label.
#[test]
fn cfg_jmp() {
    let bril = main_fn(vec![
        op_const("v", 4),
        op_jmp("somewhere"),
        op_const("v", 2),
        label("somewhere"),
        op_print("v"),
    ]);
    let mut cfg = BrilCFG::new(bril);
    cfg.parse_blocks();

    let out = cfg.to_bril();
    assert_eq!(out.functions.len(), 1);
    let f = &out.functions[0];
    assert_eq!(f.name, "main");
    assert_eq!(f.instrs.len(), 6);
    assert_eq!(opcode_of(&f.instrs[0]), Some(Opcode::Const));
    assert_eq!(dest_of(&f.instrs[0]), Some("v"));
    assert_eq!(value_of(&f.instrs[0]), Some(&Literal::Number(4)));
    assert_eq!(opcode_of(&f.instrs[1]), Some(Opcode::Jmp));
    assert_eq!(label_text(&f.instrs[2]), Some("tmp0"));
    assert_eq!(opcode_of(&f.instrs[3]), Some(Opcode::Const));
    assert_eq!(value_of(&f.instrs[3]), Some(&Literal::Number(2)));
    assert_eq!(label_text(&f.instrs[4]), Some("somewhere"));
    assert_eq!(opcode_of(&f.instrs[5]), Some(Opcode::Print));
}

/// Blocks and successors of the jump example: the entry jumps to the
/// label, and the synthesized middle block falls through to it.
#[test]
fn blocks_and_successors() {
    let bril = main_fn(vec![
        op_const("a", 4),
        op_jmp("somewhere"),
        op_const("a", 2),
        label("somewhere"),
        op_print("a"),
    ]);
    let mut cfg = BrilCFG::new(bril);
    cfg.parse_blocks();

    assert_eq!(cfg.blocks.len(), 3);
    assert_eq!(cfg.blocks[0].name, "main");
    assert_eq!(cfg.blocks[1].name, "tmp0");
    assert_eq!(cfg.blocks[2].name, "somewhere");
    assert_eq!(cfg.blocks[0].succ, Some(vec!["somewhere".to_string()]));
    assert_eq!(cfg.blocks[1].succ, Some(vec!["somewhere".to_string()]));
    assert_eq!(cfg.blocks[2].succ, None);
    for block in &cfg.blocks {
        assert_eq!(block.func, "main");
        assert!(!block.numbered);
    }
}

/// A block ending in a return has no successors even when a block
/// follows it.
#[test]
fn ret_has_no_successor() {
    let bril = main_fn(vec![
        op_const("a", 1),
        op_ret(),
        op_const("b", 2),
        op_print("b"),
    ]);
    let mut cfg = BrilCFG::new(bril);
    cfg.parse_blocks();

    assert_eq!(cfg.blocks.len(), 2);
    assert_eq!(cfg.blocks[0].succ, None);
    assert_eq!(cfg.blocks[1].succ, None);
}

/// Synthesized names draw from one counter shared across the whole
/// program, and spell the counter in decimal.
#[test]
fn synthesized_names_count_up() {
    let mut instrs = vec![op_const("a", 1), op_jmp("end")];
    for _ in 0..10 {
        instrs.push(op_const("a", 1));
        instrs.push(op_jmp("end"));
    }
    instrs.push(op_const("b", 7));
    instrs.push(label("end"));
    instrs.push(op_print("a"));
    let bril = main_fn(instrs);
    let mut cfg = BrilCFG::new(bril);
    cfg.parse_blocks();

    assert_eq!(cfg.blocks[0].name, "main");
    assert_eq!(cfg.blocks[1].name, "tmp0");
    assert_eq!(cfg.blocks[9].name, "tmp8");
    assert_eq!(cfg.blocks[10].name, "tmp9");
    assert_eq!(cfg.blocks[11].name, "tmp10");
    assert_eq!(cfg.blocks[12].name, "end");
}

/// The counter is owned by the builder invocation: blocks of a later
/// function continue the numbering of an earlier one.
#[test]
fn counter_shared_across_functions() {
    let bril = Bril {
        functions: vec![
            Function {
                name: "first".to_string(),
                args: None,
                typ: None,
                instrs: vec![op_const("a", 1), op_ret(), op_const("b", 2), op_print("b")],
            },
            Function {
                name: "second".to_string(),
                args: None,
                typ: None,
                instrs: vec![op_const("c", 3), op_ret(), op_const("d", 4), op_print("d")],
            },
        ],
    };
    let mut cfg = BrilCFG::new(bril);
    cfg.parse_blocks();

    assert_eq!(cfg.blocks.len(), 4);
    assert_eq!(cfg.blocks[0].name, "first");
    assert_eq!(cfg.blocks[1].name, "tmp0");
    assert_eq!(cfg.blocks[2].name, "second");
    assert_eq!(cfg.blocks[3].name, "tmp1");
    assert_eq!(cfg.blocks[1].func, "first");
    assert_eq!(cfg.blocks[3].func, "second");
}

/// The builder accepts exactly the well-formed programs: a label at a
/// function's start, a label straight after a terminator, a jump
/// without targets, or a typed destination without a type are all
/// malformed.
#[test]
fn malformed_programs_are_rejected() {
    let good = main_fn(vec![op_const("a", 4), label("l"), op_print("a")]);
    assert!(check_program(&good));

    let label_first = main_fn(vec![label("l"), op_print("a")]);
    assert!(!check_program(&label_first));

    let label_after_jmp = main_fn(vec![op_const("a", 1), op_jmp("l"), label("l"), op_print("a")]);
    assert!(!check_program(&label_after_jmp));

    let jump_without_targets = main_fn(vec![Instr::Instruction {
        op: Opcode::Jmp,
        dest: None,
        typ: None,
        args: None,
        funcs: None,
        labels: None,
        value: None,
    }]);
    assert!(!check_program(&jump_without_targets));

    let untyped_dest = main_fn(vec![Instr::Instruction {
        op: Opcode::Const,
        dest: Some("a".to_string()),
        typ: None,
        args: None,
        funcs: None,
        labels: None,
        value: Some(Literal::Number(1)),
    }]);
    assert!(!check_program(&untyped_dest));

    let const_without_value = main_fn(vec![Instr::Instruction {
        op: Opcode::Const,
        dest: Some("a".to_string()),
        typ: Some(Type::Int),
        args: None,
        funcs: None,
        labels: None,
        value: None,
    }]);
    assert!(!check_program(&const_without_value));
}

/// Re-linearization groups blocks by owning function and keeps each
/// function's header.
#[test]
fn roundtrip_two_functions() {
    let bril = Bril {
        functions: vec![
            Function {
                name: "one".to_string(),
                args: None,
                typ: Some(Type::Int),
                instrs: vec![op_const("a", 1), op_ret()],
            },
            Function {
                name: "two".to_string(),
                args: None,
                typ: None,
                instrs: vec![op_const("b", 2), label("l"), op_print("b")],
            },
        ],
    };
    let mut cfg = BrilCFG::new(bril);
    cfg.parse_blocks();
    let out = cfg.to_bril();

    assert_eq!(out.functions.len(), 2);
    assert_eq!(out.functions[0].name, "one");
    assert_eq!(out.functions[0].typ, Some(Type::Int));
    assert_eq!(out.functions[0].instrs.len(), 2);
    assert_eq!(out.functions[1].name, "two");
    assert_eq!(out.functions[1].instrs.len(), 3);
    assert_eq!(label_text(&out.functions[1].instrs[1]), Some("l"));
}
