//! The trailer that turns a true success signal into a clean successful end.
use crate::opcodes::{
    OP_2DROP, OP_DEPTH, OP_DROP, OP_GREATERTHANOREQUAL, OP_PUSHNUM_1, OP_PUSHNUM_16, OP_PUSHNUM_2,
    OP_PUSHNUM_4, OP_PUSHNUM_8,
};
use crate::structured_script::{
    count, count_seq, insts_view, leaf, lemma_count_seq_append, lemma_count_seq_single,
    lemma_count_seq_zero, lemma_insts_push, lemma_leaf_count_zero, lemma_multi_view,
    lemma_trees_push, op_leaf, trees_of, Inst, OwnedInstruction, StructuredScript, Tree,
};
use vstd::prelude::*;

verus! {

/// `OP_DEPTH <k> OP_GREATERTHANOREQUAL OP_IF OP_2DROP (pairs times) OP_ENDIF`:
/// drops `2 * pairs` items when the stack holds at least the number `k` pushes.
pub open spec fn drain_step(k: Inst, pairs: nat) -> Seq<Tree> {
    seq![
        Tree::Leaf(seq![Inst::Op(OP_DEPTH), k, Inst::Op(OP_GREATERTHANOREQUAL)]),
        Tree::If(Box::new(Tree::Leaf(Seq::new(pairs, |_i: int| Inst::Op(OP_2DROP))))),
    ]
}

/// The steps that drop 512, 256, ..., 2 items while the stack is deep enough.
pub open spec fn drain_steps() -> Seq<Tree> {
    drain_step(Inst::Push(seq![0x00u8, 0x02u8]), 256)
        + drain_step(Inst::Push(seq![0x00u8, 0x01u8]), 128)
        + drain_step(Inst::Push(seq![0x80u8, 0x00u8]), 64)
        + drain_step(Inst::Push(seq![0x40u8]), 32)
        + drain_step(Inst::Push(seq![0x20u8]), 16)
        + drain_step(Inst::Op(OP_PUSHNUM_16), 8)
        + drain_step(Inst::Op(OP_PUSHNUM_8), 4)
        + drain_step(Inst::Op(OP_PUSHNUM_4), 2)
        + drain_step(Inst::Op(OP_PUSHNUM_2), 1)
}

/// The trailer: if the signal on top of the stack is true, empty the stack in
/// steps of 512, 256, ..., 2 and 1 items, then push true.
pub open spec fn final_emit() -> Tree {
    Tree::If(
        Box::new(
            Tree::Multi(
                drain_steps() + seq![
                    Tree::Leaf(seq![Inst::Op(OP_DEPTH)]),
                    Tree::If(Box::new(Tree::Leaf(seq![Inst::Op(OP_DROP)]))),
                    Tree::Leaf(seq![Inst::Op(OP_PUSHNUM_1)]),
                ],
            ),
        ),
    )
}

/// The tree with the trailer added as its last part.
pub open spec fn with_final_emit(t: Tree) -> Tree {
    match t {
        Tree::Multi(cs) => Tree::Multi(cs.push(final_emit())),
        _ => Tree::Multi(seq![t, final_emit()]),
    }
}

proof fn lemma_drain_step_lacks(k: Inst, pairs: nat, op: u8)
    requires
        k != Inst::Op(op),
        op != OP_DEPTH,
        op != OP_GREATERTHANOREQUAL,
        op != OP_2DROP,
    ensures
        count_seq(drain_step(k, pairs), op) == 0,
{
    let steps = drain_step(k, pairs);
    lemma_leaf_count_zero(steps[0]->Leaf_0, op);
    lemma_leaf_count_zero(Seq::new(pairs, |_i: int| Inst::Op(OP_2DROP)), op);
    assert(count(steps[0], op) == 0);
    assert(count(Tree::Leaf(Seq::new(pairs, |_i: int| Inst::Op(OP_2DROP))), op) == 0);
    assert(count(steps[1], op) == 0);
    lemma_count_seq_zero(steps, op);
}

/// The trailer holds none of the opcodes that it does not use.
pub proof fn lemma_final_emit_lacks(op: u8)
    requires
        op != OP_DEPTH,
        op != OP_GREATERTHANOREQUAL,
        op != OP_2DROP,
        op != OP_DROP,
        op != OP_PUSHNUM_1,
        op != OP_PUSHNUM_2,
        op != OP_PUSHNUM_4,
        op != OP_PUSHNUM_8,
        op != OP_PUSHNUM_16,
    ensures
        count(final_emit(), op) == 0,
{
    let d1 = drain_step(Inst::Push(seq![0x00u8, 0x02u8]), 256);
    let d2 = drain_step(Inst::Push(seq![0x00u8, 0x01u8]), 128);
    let d3 = drain_step(Inst::Push(seq![0x80u8, 0x00u8]), 64);
    let d4 = drain_step(Inst::Push(seq![0x40u8]), 32);
    let d5 = drain_step(Inst::Push(seq![0x20u8]), 16);
    let d6 = drain_step(Inst::Op(OP_PUSHNUM_16), 8);
    let d7 = drain_step(Inst::Op(OP_PUSHNUM_8), 4);
    let d8 = drain_step(Inst::Op(OP_PUSHNUM_4), 2);
    let d9 = drain_step(Inst::Op(OP_PUSHNUM_2), 1);
    lemma_drain_step_lacks(Inst::Push(seq![0x00u8, 0x02u8]), 256, op);
    lemma_drain_step_lacks(Inst::Push(seq![0x00u8, 0x01u8]), 128, op);
    lemma_drain_step_lacks(Inst::Push(seq![0x80u8, 0x00u8]), 64, op);
    lemma_drain_step_lacks(Inst::Push(seq![0x40u8]), 32, op);
    lemma_drain_step_lacks(Inst::Push(seq![0x20u8]), 16, op);
    lemma_drain_step_lacks(Inst::Op(OP_PUSHNUM_16), 8, op);
    lemma_drain_step_lacks(Inst::Op(OP_PUSHNUM_8), 4, op);
    lemma_drain_step_lacks(Inst::Op(OP_PUSHNUM_4), 2, op);
    lemma_drain_step_lacks(Inst::Op(OP_PUSHNUM_2), 1, op);
    lemma_count_seq_append(d1, d2, op);
    lemma_count_seq_append(d1 + d2, d3, op);
    lemma_count_seq_append(d1 + d2 + d3, d4, op);
    lemma_count_seq_append(d1 + d2 + d3 + d4, d5, op);
    lemma_count_seq_append(d1 + d2 + d3 + d4 + d5, d6, op);
    lemma_count_seq_append(d1 + d2 + d3 + d4 + d5 + d6, d7, op);
    lemma_count_seq_append(d1 + d2 + d3 + d4 + d5 + d6 + d7, d8, op);
    lemma_count_seq_append(d1 + d2 + d3 + d4 + d5 + d6 + d7 + d8, d9, op);
    let last = seq![
        Tree::Leaf(seq![Inst::Op(OP_DEPTH)]),
        Tree::If(Box::new(Tree::Leaf(seq![Inst::Op(OP_DROP)]))),
        Tree::Leaf(seq![Inst::Op(OP_PUSHNUM_1)]),
    ];
    lemma_leaf_count_zero(seq![Inst::Op(OP_DEPTH)], op);
    lemma_leaf_count_zero(seq![Inst::Op(OP_DROP)], op);
    lemma_leaf_count_zero(seq![Inst::Op(OP_PUSHNUM_1)], op);
    assert(count(last[0], op) == 0);
    assert(count(Tree::Leaf(seq![Inst::Op(OP_DROP)]), op) == 0);
    assert(count(last[1], op) == 0);
    assert(count(last[2], op) == 0);
    lemma_count_seq_zero(last, op);
    lemma_count_seq_append(drain_steps(), last, op);
    let items = final_emit()->If_0->Multi_0;
    assert(count_seq(items, op) == 0);
    assert(count(Tree::Multi(items), op) == 0);
}

/// Adding the trailer adds none of the opcodes that it does not use.
pub proof fn lemma_with_final_emit_lacks(t: Tree, op: u8)
    requires
        count(t, op) == 0,
        count(final_emit(), op) == 0,
    ensures
        count(with_final_emit(t), op) == 0,
{
    lemma_count_seq_single(final_emit(), op);
    match t {
        Tree::Multi(cs) => {
            assert(cs.push(final_emit()) =~= cs + seq![final_emit()]);
            lemma_count_seq_append(cs, seq![final_emit()], op);
        },
        _ => {
            lemma_count_seq_single(t, op);
            assert(seq![t] + seq![final_emit()] =~= seq![t, final_emit()]);
            lemma_count_seq_append(seq![t], seq![final_emit()], op);
        },
    }
}

fn push_drain_step(children: &mut Vec<StructuredScript>, k: OwnedInstruction, pairs: usize)
    ensures
        trees_of(final(children)@) == trees_of(old(children)@) + drain_step(k@, pairs as nat),
{
    let ghost before = trees_of(children@);
    let gate = vec![OwnedInstruction::Op(OP_DEPTH), k, OwnedInstruction::Op(OP_GREATERTHANOREQUAL)];
    let mut drops: Vec<OwnedInstruction> = Vec::new();
    let mut i: usize = 0;
    while i < pairs
        invariant
            i <= pairs,
            insts_view(drops@) == Seq::new(i as nat, |_j: int| Inst::Op(OP_2DROP)),
        decreases pairs - i,
    {
        proof {
            lemma_insts_push(drops@, OwnedInstruction::Op(OP_2DROP));
        }
        drops.push(OwnedInstruction::Op(OP_2DROP));
        i += 1;
        proof {
            assert(insts_view(drops@) =~= Seq::new(i as nat, |_j: int| Inst::Op(OP_2DROP)));
        }
    }
    let gate_leaf = leaf(gate);
    let drop_block = StructuredScript::IfEndIf(Box::new(leaf(drops)));
    proof {
        assert(insts_view(gate@) =~= drain_step(k@, pairs as nat)[0]->Leaf_0);
        lemma_trees_push(children@, gate_leaf);
    }
    children.push(gate_leaf);
    proof {
        lemma_trees_push(children@, drop_block);
    }
    children.push(drop_block);
    proof {
        assert(trees_of(children@) =~= before + drain_step(k@, pairs as nat));
    }
}

fn push_of(bytes: Vec<u8>) -> (r: OwnedInstruction)
    ensures
        r@ == Inst::Push(bytes@),
{
    OwnedInstruction::PushBytes(bytes)
}

/// The trailer as a tree.
pub fn final_emit_code() -> (r: StructuredScript)
    ensures
        r@ == final_emit(),
{
    let mut children: Vec<StructuredScript> = Vec::new();
    let threshold = vec![0x00u8, 0x02u8];
    assert(threshold@ =~= seq![0x00u8, 0x02u8]);
    push_drain_step(&mut children, push_of(threshold), 256);
    proof {
        let first = drain_step(Inst::Push(seq![0x00u8, 0x02u8]), 256);
        assert(Seq::<Tree>::empty() + first =~= first);
    }
    let threshold = vec![0x00u8, 0x01u8];
    assert(threshold@ =~= seq![0x00u8, 0x01u8]);
    push_drain_step(&mut children, push_of(threshold), 128);
    let threshold = vec![0x80u8, 0x00u8];
    assert(threshold@ =~= seq![0x80u8, 0x00u8]);
    push_drain_step(&mut children, push_of(threshold), 64);
    let threshold = vec![0x40u8];
    assert(threshold@ =~= seq![0x40u8]);
    push_drain_step(&mut children, push_of(threshold), 32);
    let threshold = vec![0x20u8];
    assert(threshold@ =~= seq![0x20u8]);
    push_drain_step(&mut children, push_of(threshold), 16);
    push_drain_step(&mut children, OwnedInstruction::Op(OP_PUSHNUM_16), 8);
    push_drain_step(&mut children, OwnedInstruction::Op(OP_PUSHNUM_8), 4);
    push_drain_step(&mut children, OwnedInstruction::Op(OP_PUSHNUM_4), 2);
    push_drain_step(&mut children, OwnedInstruction::Op(OP_PUSHNUM_2), 1);
    assert(trees_of(children@) == drain_steps());
    let depth = op_leaf(OP_DEPTH);
    let drop_one = StructuredScript::IfEndIf(Box::new(op_leaf(OP_DROP)));
    let push_true = op_leaf(OP_PUSHNUM_1);
    proof {
        lemma_trees_push(children@, depth);
    }
    children.push(depth);
    proof {
        lemma_trees_push(children@, drop_one);
    }
    children.push(drop_one);
    proof {
        lemma_trees_push(children@, push_true);
    }
    children.push(push_true);
    proof {
        lemma_multi_view(children);
        assert(trees_of(children@) =~= final_emit()->If_0->Multi_0);
    }
    StructuredScript::IfEndIf(Box::new(StructuredScript::MultiScript(children)))
}

/// Adds the trailer at the end of `structure`.
pub fn append_final_emit_script(structure: &mut StructuredScript)
    ensures
        final(structure)@ == with_final_emit(old(structure)@),
{
    let mut taken = StructuredScript::MultiScript(Vec::new());
    std::mem::swap(structure, &mut taken);
    let trailer = final_emit_code();
    match taken {
        StructuredScript::MultiScript(vv) => {
            let mut vv = vv;
            proof {
                lemma_multi_view(vv);
                lemma_trees_push(vv@, trailer);
            }
            vv.push(trailer);
            proof {
                lemma_multi_view(vv);
            }
            *structure = StructuredScript::MultiScript(vv);
        },
        other => {
            let vv = vec![other, trailer];
            proof {
                lemma_multi_view(vv);
                assert(trees_of(vv@) =~= seq![other@, trailer@]);
            }
            *structure = StructuredScript::MultiScript(vv);
        },
    }
}

} // verus!
