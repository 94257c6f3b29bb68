use bitcoin::opcodes::all::{
    OP_2DROP, OP_DEPTH, OP_DROP, OP_ENDIF, OP_GREATERTHANOREQUAL, OP_IF, OP_NOP1, OP_PUSHNUM_1,
};
use bitcoin::script::Builder;
use op_success::final_emit::{append_final_emit_script, final_emit_code};
use op_success::structured_script::{OwnedInstruction, OwnedInstructions, StructuredScript};

fn trailer_bytes() -> Vec<u8> {
    let mut b = Builder::new().push_opcode(OP_IF);
    for k in [512i64, 256, 128, 64, 32, 16, 8, 4, 2] {
        b = b.push_opcode(OP_DEPTH).push_int(k).push_opcode(OP_GREATERTHANOREQUAL).push_opcode(OP_IF);
        for _ in 0..k / 2 {
            b = b.push_opcode(OP_2DROP);
        }
        b = b.push_opcode(OP_ENDIF);
    }
    b.push_opcode(OP_DEPTH)
        .push_opcode(OP_IF)
        .push_opcode(OP_DROP)
        .push_opcode(OP_ENDIF)
        .push_opcode(OP_PUSHNUM_1)
        .push_opcode(OP_ENDIF)
        .into_bytes()
}

#[test]
fn trailer_matches_the_drain_schedule() {
    let trailer = final_emit_code();
    assert_eq!(trailer.to_bytes().unwrap(), trailer_bytes());
    assert_eq!(trailer, StructuredScript::from_bytes(&trailer_bytes()).unwrap());
}

#[test]
fn trailer_is_appended_to_a_sequence() {
    let leaf = || StructuredScript::Script(OwnedInstructions(vec![OwnedInstruction::Op(OP_NOP1.to_u8())]));
    let mut seq = StructuredScript::MultiScript(vec![leaf(), StructuredScript::IfEndIf(Box::new(leaf()))]);
    append_final_emit_script(&mut seq);
    assert_eq!(
        seq,
        StructuredScript::MultiScript(vec![
            leaf(),
            StructuredScript::IfEndIf(Box::new(leaf())),
            final_emit_code(),
        ])
    );

    let mut single = leaf();
    append_final_emit_script(&mut single);
    assert_eq!(single, StructuredScript::MultiScript(vec![leaf(), final_emit_code()]));
}
