use bitcoin::opcodes::all::{OP_ELSE, OP_ENDIF, OP_IF, OP_NOP1, OP_NOP4, OP_NOP5, OP_RETURN_200};
use bitcoin::opcodes::{OP_NOP2, OP_NOP3};
use bitcoin::script::Builder;
use op_success::reduce::{reduce, EmitOpIfSuccess};
use op_success::structured_script::{OwnedInstruction, OwnedInstructions, StructuredScript};

#[test]
fn test_reduce() {
    let test_script = Builder::new()
        .push_opcode(OP_NOP1)
        .push_opcode(OP_IF)
        .push_opcode(OP_NOP2)
        .push_opcode(OP_RETURN_200)
        .push_opcode(OP_NOP3)
        .push_opcode(OP_RETURN_200)
        .push_opcode(OP_NOP4)
        .push_opcode(OP_ENDIF)
        .push_opcode(OP_NOP5)
        .into_bytes();
    let mut script = StructuredScript::from_bytes(&test_script).unwrap();

    let res = reduce(&mut script);
    assert_eq!(res, EmitOpIfSuccess::YES);

    let expected_script = Builder::new()
        .push_opcode(OP_NOP1)
        .push_opcode(OP_IF)
        .push_opcode(OP_NOP2)
        .push_opcode(OP_IF)
        .push_int(1)
        .push_int(0)
        .push_opcode(OP_ELSE)
        .push_opcode(OP_NOP3)
        .push_opcode(OP_IF)
        .push_int(1)
        .push_opcode(OP_ELSE)
        .push_opcode(OP_NOP4)
        .push_int(0)
        .push_int(0)
        .push_opcode(OP_ENDIF)
        .push_opcode(OP_ENDIF)
        .push_opcode(OP_IF)
        .push_int(1)
        .push_opcode(OP_ENDIF)
        .push_opcode(OP_ELSE)
        .push_int(0)
        .push_opcode(OP_ENDIF)
        .push_opcode(OP_IF)
        .push_int(1)
        .push_opcode(OP_ELSE)
        .push_opcode(OP_NOP5)
        .push_int(0)
        .push_opcode(OP_ENDIF)
        .into_bytes();
    let expected = StructuredScript::from_bytes(&expected_script).unwrap();

    assert_eq!(expected, script);
}

fn op(o: bitcoin::Opcode) -> OwnedInstruction {
    OwnedInstruction::Op(o.to_u8())
}

fn leaf(v: Vec<OwnedInstruction>) -> StructuredScript {
    StructuredScript::Script(OwnedInstructions(v))
}

#[test]
fn tree_without_cterm_is_left_alone() {
    let make = || {
        StructuredScript::MultiScript(vec![
            leaf(vec![op(OP_NOP1)]),
            StructuredScript::NotIfEndIf(Box::new(leaf(vec![op(OP_NOP2)]))),
        ])
    };
    let mut t = make();
    assert_eq!(reduce(&mut t), EmitOpIfSuccess::NO);
    assert_eq!(t, make());
}

#[test]
fn trailing_cterm_is_stripped() {
    let mut t = leaf(vec![op(OP_NOP1), op(OP_RETURN_200)]);
    assert_eq!(reduce(&mut t), EmitOpIfSuccess::YES);
    assert_eq!(t, leaf(vec![op(OP_NOP1)]));
}

#[test]
fn notif_with_cterm_gets_a_zero_else() {
    let mut t = StructuredScript::NotIfEndIf(Box::new(leaf(vec![op(OP_RETURN_200)])));
    assert_eq!(reduce(&mut t), EmitOpIfSuccess::YES);
    assert_eq!(
        t,
        StructuredScript::NotIfElseEndIf(
            Box::new(leaf(vec![])),
            Box::new(leaf(vec![OwnedInstruction::Op(0x00)])),
        )
    );
}

#[test]
fn only_signalling_branch_leaves_the_other_a_zero() {
    let mut t = StructuredScript::IfElseEndIf(
        Box::new(leaf(vec![op(OP_RETURN_200)])),
        Box::new(StructuredScript::NotIfEndIf(Box::new(leaf(vec![op(OP_NOP1)])))),
    );
    assert_eq!(reduce(&mut t), EmitOpIfSuccess::YES);
    assert_eq!(
        t,
        StructuredScript::IfElseEndIf(
            Box::new(leaf(vec![])),
            Box::new(StructuredScript::MultiScript(vec![
                StructuredScript::NotIfEndIf(Box::new(leaf(vec![op(OP_NOP1)]))),
                leaf(vec![OwnedInstruction::Op(0x00)]),
            ])),
        )
    );
}

#[test]
fn empty_else_branch_gets_a_zero() {
    let mut t = StructuredScript::IfElseEndIf(
        Box::new(leaf(vec![op(OP_RETURN_200)])),
        Box::new(StructuredScript::MultiScript(vec![])),
    );
    assert_eq!(reduce(&mut t), EmitOpIfSuccess::YES);
    assert_eq!(
        t,
        StructuredScript::IfElseEndIf(
            Box::new(leaf(vec![])),
            Box::new(leaf(vec![OwnedInstruction::Op(0x00)])),
        )
    );
}

#[test]
fn signalling_child_guards_the_rest_of_a_sequence() {
    let mut t = StructuredScript::MultiScript(vec![
        StructuredScript::IfEndIf(Box::new(leaf(vec![op(OP_RETURN_200)]))),
        leaf(vec![op(OP_NOP1), op(OP_RETURN_200), op(OP_NOP2)]),
    ]);
    assert_eq!(reduce(&mut t), EmitOpIfSuccess::YES);
    let bytes = t.to_bytes().unwrap();
    let expected = Builder::new()
        .push_opcode(OP_IF)
        .push_opcode(OP_ELSE)
        .push_int(0)
        .push_opcode(OP_ENDIF)
        .push_opcode(OP_IF)
        .push_int(1)
        .push_int(0)
        .push_opcode(OP_ELSE)
        .push_opcode(OP_NOP1)
        .push_opcode(OP_IF)
        .push_int(1)
        .push_opcode(OP_ELSE)
        .push_opcode(OP_NOP2)
        .push_int(0)
        .push_int(0)
        .push_opcode(OP_ENDIF)
        .push_opcode(OP_ENDIF)
        .push_opcode(OP_IF)
        .push_int(1)
        .push_opcode(OP_ENDIF)
        .into_bytes();
    assert_eq!(bytes, expected);
}
