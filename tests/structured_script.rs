use bitcoin::opcodes::all::{OP_ELSE, OP_ENDIF, OP_IF, OP_NOP1, OP_NOP4, OP_NOTIF, OP_PUSHDATA1};
use bitcoin::opcodes::{OP_NOP2, OP_NOP3};
use bitcoin::script::Builder;
use op_success::structured_script::{
    OwnedInstruction, OwnedInstructions, ScriptError, StructuredScript,
};

fn leaf(v: Vec<OwnedInstruction>) -> StructuredScript {
    StructuredScript::Script(OwnedInstructions(v))
}

fn push(n: u32, len: usize) -> OwnedInstruction {
    OwnedInstruction::PushBytes(n.to_le_bytes()[0..len].to_vec())
}

#[test]
fn test_create_structured_script() {
    let script = Builder::new()
        .push_opcode(OP_NOP1)
        .push_opcode(OP_IF)
        .push_opcode(OP_NOP2)
        .push_int(123456)
        .push_opcode(OP_IF)
        .push_int(456789)
        .push_opcode(OP_NOTIF)
        .push_int(5678)
        .push_opcode(OP_NOP3)
        .push_opcode(OP_ENDIF)
        .push_opcode(OP_ELSE)
        .push_opcode(OP_NOTIF)
        .push_int(1011)
        .push_opcode(OP_ELSE)
        .push_int(1213)
        .push_opcode(OP_ENDIF)
        .push_int(1234)
        .push_opcode(OP_ENDIF)
        .push_opcode(OP_ENDIF)
        .push_opcode(OP_NOP4)
        .into_bytes();

    let structued_script = StructuredScript::from_bytes(&script).unwrap();

    let expected = StructuredScript::MultiScript(vec![
        leaf(vec![OwnedInstruction::Op(OP_NOP1.to_u8())]),
        StructuredScript::IfEndIf(Box::new(StructuredScript::MultiScript(vec![
            leaf(vec![OwnedInstruction::Op(OP_NOP2.to_u8()), push(123456, 3)]),
            StructuredScript::IfElseEndIf(
                Box::new(StructuredScript::MultiScript(vec![
                    leaf(vec![push(456789, 3)]),
                    StructuredScript::NotIfEndIf(Box::new(leaf(vec![
                        push(5678, 2),
                        OwnedInstruction::Op(OP_NOP3.to_u8()),
                    ]))),
                ])),
                Box::new(StructuredScript::MultiScript(vec![
                    StructuredScript::NotIfElseEndIf(
                        Box::new(leaf(vec![push(1011, 2)])),
                        Box::new(leaf(vec![push(1213, 2)])),
                    ),
                    leaf(vec![push(1234, 2)]),
                ])),
            ),
        ]))),
        leaf(vec![OwnedInstruction::Op(OP_NOP4.to_u8())]),
    ]);

    assert_eq!(expected, structued_script);
}

#[test]
fn serialization_gives_back_the_parsed_bytes() {
    let script = Builder::new()
        .push_opcode(OP_NOP1)
        .push_opcode(OP_IF)
        .push_int(1000)
        .push_opcode(OP_ELSE)
        .push_slice(bitcoin::script::PushBytesBuf::try_from(vec![7u8; 80]).unwrap())
        .push_opcode(OP_ENDIF)
        .into_bytes();
    let tree = StructuredScript::from_bytes(&script).unwrap();
    assert_eq!(tree.to_bytes().unwrap(), script);
}

#[test]
fn empty_push_is_read_as_its_opcode() {
    let insts = OwnedInstructions::from_bytes(&[0x00, 0x01, 0x05]).unwrap();
    assert_eq!(
        insts,
        OwnedInstructions(vec![
            OwnedInstruction::Op(0x00),
            OwnedInstruction::PushBytes(vec![0x05]),
        ])
    );
}

#[test]
fn pushdata_forms_are_read() {
    let mut bytes = vec![OP_PUSHDATA1.to_u8(), 3, 1, 2, 3, 0x4d, 2, 0, 9, 8, 0x4e, 1, 0, 0, 0, 6];
    bytes.push(0x87);
    let insts = OwnedInstructions::from_bytes(&bytes).unwrap();
    assert_eq!(
        insts,
        OwnedInstructions(vec![
            OwnedInstruction::PushBytes(vec![1, 2, 3]),
            OwnedInstruction::PushBytes(vec![9, 8]),
            OwnedInstruction::PushBytes(vec![6]),
            OwnedInstruction::Op(0x87),
        ])
    );
}

#[test]
fn truncated_push_is_malformed() {
    assert_eq!(
        OwnedInstructions::from_bytes(&[0x03, 0x01, 0x02]),
        Err(ScriptError::MalformedScript)
    );
    assert_eq!(
        StructuredScript::from_bytes(&[0x4d, 0x01]),
        Err(ScriptError::MalformedScript)
    );
}

#[test]
fn encoding_chooses_the_push_form_by_length() {
    let insts = OwnedInstructions(vec![
        OwnedInstruction::PushBytes(vec![]),
        OwnedInstruction::PushBytes(vec![0xaa; 75]),
        OwnedInstruction::PushBytes(vec![0xbb; 76]),
        OwnedInstruction::PushBytes(vec![0xcc; 256]),
    ]);
    let bytes = insts.to_bytes().unwrap();
    let mut expected = vec![0x00, 75];
    expected.extend(vec![0xaa; 75]);
    expected.extend(vec![0x4c, 76]);
    expected.extend(vec![0xbb; 76]);
    expected.extend(vec![0x4d, 0x00, 0x01]);
    expected.extend(vec![0xcc; 256]);
    assert_eq!(bytes, expected);
}

#[test]
fn oversized_push_cannot_be_written() {
    let insts = OwnedInstructions(vec![OwnedInstruction::PushBytes(vec![1; 65536])]);
    assert_eq!(insts.to_bytes(), Err(ScriptError::PushTooLarge));
    let tree = leaf(vec![OwnedInstruction::PushBytes(vec![1; 65536])]);
    assert_eq!(tree.to_bytes(), Err(ScriptError::PushTooLarge));
}

#[test]
fn unbalanced_control_is_refused() {
    let cases: Vec<Vec<u8>> = vec![
        vec![OP_IF.to_u8()],
        vec![OP_ENDIF.to_u8()],
        vec![OP_ELSE.to_u8()],
        vec![OP_IF.to_u8(), OP_ELSE.to_u8(), OP_ELSE.to_u8(), OP_ENDIF.to_u8()],
        vec![OP_IF.to_u8(), OP_ENDIF.to_u8(), OP_ENDIF.to_u8()],
        vec![OP_NOTIF.to_u8(), OP_IF.to_u8(), OP_ENDIF.to_u8()],
    ];
    for case in cases {
        assert_eq!(
            StructuredScript::from_bytes(&case),
            Err(ScriptError::UnbalancedControl)
        );
    }
}

#[test]
fn empty_blocks_parse_to_empty_sequences() {
    let tree = StructuredScript::from_bytes(&[OP_IF.to_u8(), OP_ELSE.to_u8(), OP_ENDIF.to_u8()])
        .unwrap();
    assert_eq!(
        tree,
        StructuredScript::IfElseEndIf(
            Box::new(StructuredScript::MultiScript(vec![])),
            Box::new(StructuredScript::MultiScript(vec![])),
        )
    );
    assert_eq!(
        StructuredScript::from_bytes(&[]).unwrap(),
        StructuredScript::MultiScript(vec![])
    );
}
