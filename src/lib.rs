//! Compiles scripts that use two pseudo-opcodes, an unconditional success
//! terminator (`OP_RETURN_199`) and a conditional one (`OP_RETURN_200`), into
//! standard script that succeeds on exactly the same inputs.
pub mod canonical;
pub mod code_cleanup;
pub mod codec;
pub mod final_emit;
pub mod op_return_true_to_op_if_return_true;
pub mod opcodes;
pub mod reduce;
pub mod structured_script;

use crate::code_cleanup::{cleaned, find_op_return_true_cleanup};
use crate::codec::{decode_bytes, encode_insts, normalized};
use crate::final_emit::{
    append_final_emit_script, lemma_final_emit_lacks, lemma_with_final_emit_lacks, with_final_emit,
};
use crate::op_return_true_to_op_if_return_true::{
    lemma_lifted_termless, lifted, op_return_true_to_op_if_return_true,
};
use crate::opcodes::{OP_RETURN_199, OP_RETURN_200};
use crate::reduce::{lemma_reduced_clean, lemma_reduced_keeps_absent, reduce, reduced};
use crate::structured_script::{
    balanced, count, flatten, parsed_body, ScriptError, StructuredScript, Tree,
};
use vstd::prelude::*;

verus! {

/// The script bytes of the unconditional success terminator, for building
/// input scripts.
#[allow(non_snake_case)]
pub fn OP_RETURN_TRUE() -> (r: Vec<u8>)
    ensures
        r@ == seq![OP_RETURN_199],
{
    vec![OP_RETURN_199]
}

/// The script bytes of the conditional success terminator, for building input
/// scripts.
#[allow(non_snake_case)]
pub fn OP_IF_RETURN_TRUE() -> (r: Vec<u8>)
    ensures
        r@ == seq![OP_RETURN_200],
{
    vec![OP_RETURN_200]
}

/// The tree that compilation makes of a parsed script: dead code removed,
/// terminators lifted and reduced, and the trailer added.
pub open spec fn compiled(t: Tree) -> Tree {
    with_final_emit(reduced(lifted(cleaned(t).0)))
}

/// The compiled form of any tree holds neither success terminator.
pub proof fn lemma_compiled_terminator_free(t: Tree)
    ensures
        count(compiled(t), OP_RETURN_199) == 0,
        count(compiled(t), OP_RETURN_200) == 0,
{
    let lifted_tree = lifted(cleaned(t).0);
    lemma_lifted_termless(cleaned(t).0);
    lemma_reduced_keeps_absent(lifted_tree, OP_RETURN_199);
    lemma_reduced_clean(lifted_tree);
    lemma_final_emit_lacks(OP_RETURN_199);
    lemma_final_emit_lacks(OP_RETURN_200);
    lemma_with_final_emit_lacks(reduced(lifted_tree), OP_RETURN_199);
    lemma_with_final_emit_lacks(reduced(lifted_tree), OP_RETURN_200);
}

/// Compiles a script that may use the two success terminators into standard
/// script.
pub fn compile(script: &[u8]) -> (r: Result<Vec<u8>, ScriptError>)
    ensures
        decode_bytes(script@) is None ==> r == Err::<Vec<u8>, ScriptError>(
            ScriptError::MalformedScript,
        ),
        decode_bytes(script@) is Some && !balanced(normalized(decode_bytes(script@)->0)) ==> r
            == Err::<Vec<u8>, ScriptError>(ScriptError::UnbalancedControl),
        decode_bytes(script@) is Some && balanced(normalized(decode_bytes(script@)->0)) ==> exists|
            t: Tree,
        |
            {
                &&& parsed_body(t)
                &&& flatten(t) == normalized(decode_bytes(script@)->0)
                &&& match r {
                    Ok(out) => encode_insts(flatten(compiled(t))) == Some(out@),
                    Err(e) => e == ScriptError::PushTooLarge && encode_insts(
                        flatten(compiled(t)),
                    ) is None,
                }
            },
{
    let mut tree = match StructuredScript::from_bytes(script) {
        Err(e) => {
            return Err(e);
        },
        Ok(tree) => tree,
    };
    let ghost parsed = tree@;
    find_op_return_true_cleanup(&mut tree);
    op_return_true_to_op_if_return_true(&mut tree);
    reduce(&mut tree);
    append_final_emit_script(&mut tree);
    let r = tree.to_bytes();
    proof {
        assert(tree@ == compiled(parsed));
    }
    r
}

} // verus!
