use bitcoin::opcodes::all::{OP_ELSE, OP_ENDIF, OP_IF, OP_NOP1, OP_NOP4, OP_NOP5, OP_NOP6, OP_NOT, OP_NOTIF, OP_PUSHNUM_1, OP_RETURN_199, OP_RETURN_200};
use bitcoin::opcodes::{OP_NOP2, OP_NOP3};
use bitcoin::script::Builder;
use op_success::op_return_true_to_op_if_return_true::op_return_true_to_op_if_return_true;
use op_success::structured_script::{OwnedInstruction, OwnedInstructions, StructuredScript};

fn conversion_input() -> Vec<u8> {
    Builder::new()
        .push_opcode(OP_NOP1)
        .push_opcode(OP_RETURN_199)
        .push_opcode(OP_NOP2)
        .push_opcode(OP_IF)
        .push_opcode(OP_NOP3)
        .push_opcode(OP_NOTIF)
        .push_opcode(OP_NOP4)
        .push_opcode(OP_ELSE)
        .push_opcode(OP_NOP5)
        .push_opcode(OP_IF)
        .push_opcode(OP_RETURN_199)
        .push_opcode(OP_ENDIF)
        .push_opcode(OP_ENDIF)
        .push_opcode(OP_ENDIF)
        .push_opcode(OP_NOP6)
        .push_opcode(OP_RETURN_199)
        .into_bytes()
}

fn conversion_expected() -> Vec<u8> {
    Builder::new()
        .push_opcode(OP_NOP1)
        .push_int(1)
        .push_opcode(OP_RETURN_200)
        .push_opcode(OP_NOP2)
        .push_opcode(OP_IF)
        .push_opcode(OP_NOP3)
        .push_opcode(OP_NOTIF)
        .push_opcode(OP_NOP4)
        .push_opcode(OP_ELSE)
        .push_opcode(OP_NOP5)
        .push_opcode(OP_RETURN_200)
        .push_opcode(OP_ENDIF)
        .push_opcode(OP_ENDIF)
        .push_opcode(OP_NOP6)
        .push_int(1)
        .push_opcode(OP_RETURN_200)
        .into_bytes()
}

#[test]
fn op_return_true_to_op_if_return_true_test_conversion() {
    let mut structured_script = StructuredScript::from_bytes(&conversion_input()).unwrap();
    op_return_true_to_op_if_return_true(&mut structured_script);

    let expected = StructuredScript::from_bytes(&conversion_expected()).unwrap();
    assert_eq!(expected, structured_script);
}

#[test]
fn op_success_to_op_if_success_test_conversion() {
    let mut structured_script = StructuredScript::from_bytes(&conversion_input()).unwrap();
    op_return_true_to_op_if_return_true(&mut structured_script);

    let expected = StructuredScript::from_bytes(&conversion_expected()).unwrap();
    assert_eq!(expected, structured_script);
}

fn op(o: bitcoin::Opcode) -> OwnedInstruction {
    OwnedInstruction::Op(o.to_u8())
}

fn leaf(v: Vec<OwnedInstruction>) -> StructuredScript {
    StructuredScript::Script(OwnedInstructions(v))
}

#[test]
fn term_becomes_true_and_cterm() {
    let mut t = leaf(vec![op(OP_NOP1), op(OP_RETURN_199), op(OP_NOP2)]);
    op_return_true_to_op_if_return_true(&mut t);
    assert_eq!(
        t,
        leaf(vec![op(OP_NOP1), op(OP_PUSHNUM_1), op(OP_RETURN_200), op(OP_NOP2)])
    );
}

#[test]
fn if_around_true_cterm_folds() {
    let mut t = StructuredScript::IfEndIf(Box::new(leaf(vec![op(OP_PUSHNUM_1), op(OP_RETURN_200)])));
    op_return_true_to_op_if_return_true(&mut t);
    assert_eq!(t, leaf(vec![op(OP_RETURN_200)]));

    let mut n = StructuredScript::NotIfEndIf(Box::new(leaf(vec![op(OP_PUSHNUM_1), op(OP_RETURN_200)])));
    op_return_true_to_op_if_return_true(&mut n);
    assert_eq!(n, leaf(vec![op(OP_NOT), op(OP_RETURN_200)]));
}

#[test]
fn if_else_is_not_folded() {
    let body = || leaf(vec![op(OP_PUSHNUM_1), op(OP_RETURN_200)]);
    let mut t = StructuredScript::IfElseEndIf(Box::new(body()), Box::new(body()));
    op_return_true_to_op_if_return_true(&mut t);
    assert_eq!(t, StructuredScript::IfElseEndIf(Box::new(body()), Box::new(body())));
}

#[test]
fn folded_block_merges_with_its_neighbours() {
    let mut t = StructuredScript::MultiScript(vec![
        leaf(vec![op(OP_NOP1)]),
        StructuredScript::IfEndIf(Box::new(leaf(vec![op(OP_RETURN_199)]))),
        leaf(vec![op(OP_NOP2)]),
    ]);
    op_return_true_to_op_if_return_true(&mut t);
    assert_eq!(t, leaf(vec![op(OP_NOP1), op(OP_RETURN_200), op(OP_NOP2)]));
}
