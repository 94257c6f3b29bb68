use bitcoin::opcodes::all::{OP_ENDIF, OP_IF, OP_NOP1, OP_NOP4, OP_NOP5, OP_NOP6, OP_NOTIF, OP_RETURN_199, OP_RETURN_200};
use bitcoin::opcodes::{OP_NOP2, OP_NOP3};
use bitcoin::script::Builder;
use op_success::code_cleanup::find_op_return_true_cleanup;
use op_success::op_return_true_to_op_if_return_true::op_return_true_to_op_if_return_true;
use op_success::structured_script::{OwnedInstruction, OwnedInstructions, StructuredScript};

fn cleanup_input() -> Vec<u8> {
    Builder::new()
        .push_opcode(OP_NOP1)
        .push_opcode(OP_IF)
        .push_opcode(OP_NOP2)
        .push_opcode(OP_RETURN_199)
        .push_opcode(OP_NOP3)
        .push_opcode(OP_NOTIF)
        .push_opcode(OP_NOP4)
        .push_opcode(OP_ENDIF)
        .push_opcode(OP_ENDIF)
        .push_opcode(OP_NOP5)
        .push_int(12)
        .push_opcode(OP_RETURN_200)
        .push_opcode(OP_NOP6)
        .into_bytes()
}

fn cleanup_expected() -> Vec<u8> {
    Builder::new()
        .push_opcode(OP_NOP1)
        .push_opcode(OP_IF)
        .push_opcode(OP_NOP2)
        .push_opcode(OP_RETURN_199)
        .push_opcode(OP_ENDIF)
        .push_opcode(OP_NOP5)
        .push_opcode(OP_RETURN_199)
        .into_bytes()
}

#[test]
fn test_cleanup() {
    let mut structured_script = StructuredScript::from_bytes(&cleanup_input()).unwrap();
    find_op_return_true_cleanup(&mut structured_script);

    let expected = StructuredScript::from_bytes(&cleanup_expected()).unwrap();
    assert_eq!(expected, structured_script);
}

#[test]
fn test_cleanup_nothing() {
    let mut structured_script = StructuredScript::from_bytes(&cleanup_input()).unwrap();
    let found = find_op_return_true_cleanup(&mut structured_script);

    let expected = StructuredScript::from_bytes(&cleanup_expected()).unwrap();
    assert_eq!(expected, structured_script);
    assert!(found);
}

fn op(o: bitcoin::Opcode) -> OwnedInstruction {
    OwnedInstruction::Op(o.to_u8())
}

fn leaf(v: Vec<OwnedInstruction>) -> StructuredScript {
    StructuredScript::Script(OwnedInstructions(v))
}

#[test]
fn code_after_term_is_dropped() {
    let mut t = leaf(vec![op(OP_NOP1), op(OP_RETURN_199), op(OP_NOP2), op(OP_NOP3)]);
    assert!(find_op_return_true_cleanup(&mut t));
    assert_eq!(t, leaf(vec![op(OP_NOP1), op(OP_RETURN_199)]));
    op_return_true_to_op_if_return_true(&mut t);
    assert_eq!(
        t,
        leaf(vec![
            op(OP_NOP1),
            op(bitcoin::opcodes::all::OP_PUSHNUM_1),
            op(OP_RETURN_200),
        ])
    );
}

#[test]
fn statically_true_cterm_becomes_term() {
    let mut t = leaf(vec![
        OwnedInstruction::Op(bitcoin::opcodes::all::OP_PUSHNUM_12.to_u8()),
        op(OP_RETURN_200),
        op(OP_NOP1),
    ]);
    assert!(find_op_return_true_cleanup(&mut t));
    assert_eq!(t, leaf(vec![op(OP_RETURN_199)]));

    let mut pushed = leaf(vec![
        op(OP_NOP2),
        OwnedInstruction::PushBytes(vec![0x00]),
        op(OP_RETURN_200),
        op(OP_NOP1),
    ]);
    assert!(find_op_return_true_cleanup(&mut pushed));
    assert_eq!(pushed, leaf(vec![op(OP_NOP2), op(OP_RETURN_199)]));

    let mut negative = leaf(vec![
        OwnedInstruction::Op(bitcoin::opcodes::all::OP_PUSHNUM_NEG1.to_u8()),
        op(OP_RETURN_200),
    ]);
    assert!(find_op_return_true_cleanup(&mut negative));
    assert_eq!(negative, leaf(vec![op(OP_RETURN_199)]));
}

#[test]
fn empty_push_before_cterm_is_kept() {
    let original = vec![OwnedInstruction::Op(0x00), op(OP_RETURN_200), op(OP_NOP1)];
    let mut t = leaf(original.clone());
    assert!(!find_op_return_true_cleanup(&mut t));
    assert_eq!(t, leaf(original));
}

#[test]
fn term_in_a_branch_does_not_cut_the_sequence() {
    let mut t = StructuredScript::MultiScript(vec![
        StructuredScript::IfEndIf(Box::new(leaf(vec![op(OP_RETURN_199), op(OP_NOP1)]))),
        leaf(vec![op(OP_NOP2)]),
    ]);
    assert!(!find_op_return_true_cleanup(&mut t));
    assert_eq!(
        t,
        StructuredScript::MultiScript(vec![
            StructuredScript::IfEndIf(Box::new(leaf(vec![op(OP_RETURN_199)]))),
            leaf(vec![op(OP_NOP2)]),
        ])
    );
}

#[test]
fn sequence_cut_to_one_child_collapses() {
    let mut t = StructuredScript::MultiScript(vec![
        leaf(vec![op(OP_NOP1), op(OP_RETURN_199)]),
        StructuredScript::IfEndIf(Box::new(leaf(vec![op(OP_NOP2)]))),
    ]);
    assert!(find_op_return_true_cleanup(&mut t));
    assert_eq!(t, leaf(vec![op(OP_NOP1), op(OP_RETURN_199)]));
}
