//! Turns every unconditional success terminator into a conditional one on a
//! true value, and folds conditional blocks that only hold such a terminator.
use crate::opcodes::{OP_NOT, OP_PUSHNUM_1, OP_RETURN_199, OP_RETURN_200};
use crate::structured_script::{
    copy_instruction, count, insts_view, is_op, leaf, leaf_count, lemma_count_seq_zero,
    lemma_leaf_count_append_zero, lemma_leaf_count_zero, lemma_multi_view, lemma_trees_push,
    trees_of, two_op_leaf, Inst, OwnedInstruction, StructuredScript, Tree,
};
use vstd::prelude::*;

verus! {

/// Straight-line code with each unconditional terminator replaced by a push of
/// true and a conditional terminator.
pub open spec fn lifted_leaf(s: Seq<Inst>) -> Seq<Inst>
    decreases s.len(),
{
    if s.len() == 0 {
        Seq::empty()
    } else {
        let last = s[s.len() - 1];
        lifted_leaf(s.subrange(0, s.len() - 1)) + if last == Inst::Op(OP_RETURN_199) {
            seq![Inst::Op(OP_PUSHNUM_1), Inst::Op(OP_RETURN_200)]
        } else {
            seq![last]
        }
    }
}

/// The leaf that a lifted conditional body must be for the block to fold.
pub open spec fn true_cterm() -> Tree {
    Tree::Leaf(seq![Inst::Op(OP_PUSHNUM_1), Inst::Op(OP_RETURN_200)])
}

/// The tree after the lifting pass.
pub open spec fn lifted(t: Tree) -> Tree
    decreases t,
{
    match t {
        Tree::Leaf(s) => Tree::Leaf(lifted_leaf(s)),
        Tree::Multi(cs) => {
            let m = merged(cs);
            if m.len() == 1 {
                m[0]
            } else {
                Tree::Multi(m)
            }
        },
        Tree::If(b) => if lifted(*b) == true_cterm() {
            Tree::Leaf(seq![Inst::Op(OP_RETURN_200)])
        } else {
            Tree::If(Box::new(lifted(*b)))
        },
        Tree::NotIf(b) => if lifted(*b) == true_cterm() {
            Tree::Leaf(seq![Inst::Op(OP_NOT), Inst::Op(OP_RETURN_200)])
        } else {
            Tree::NotIf(Box::new(lifted(*b)))
        },
        Tree::IfElse(a, b) => Tree::IfElse(Box::new(lifted(*a)), Box::new(lifted(*b))),
        Tree::NotIfElse(a, b) => Tree::NotIfElse(Box::new(lifted(*a)), Box::new(lifted(*b))),
    }
}

/// The children lifted, with each run of neighbouring leaves merged into one.
pub open spec fn merged(cs: Seq<Tree>) -> Seq<Tree>
    decreases cs,
{
    if cs.len() == 0 {
        Seq::empty()
    } else {
        let prev = merged(cs.subrange(0, cs.len() - 1));
        let c = lifted(cs[cs.len() - 1]);
        if prev.len() > 0 && prev[prev.len() - 1] is Leaf && c is Leaf {
            prev.subrange(0, prev.len() - 1).push(
                Tree::Leaf(prev[prev.len() - 1]->Leaf_0 + c->Leaf_0),
            )
        } else {
            prev.push(c)
        }
    }
}

proof fn lemma_lifted_leaf_termless(s: Seq<Inst>)
    ensures
        leaf_count(lifted_leaf(s), OP_RETURN_199) == 0,
    decreases s.len(),
{
    if s.len() > 0 {
        let front = s.subrange(0, s.len() - 1);
        let last = s[s.len() - 1];
        lemma_lifted_leaf_termless(front);
        let piece = if last == Inst::Op(OP_RETURN_199) {
            seq![Inst::Op(OP_PUSHNUM_1), Inst::Op(OP_RETURN_200)]
        } else {
            seq![last]
        };
        lemma_leaf_count_zero(piece, OP_RETURN_199);
        lemma_leaf_count_append_zero(lifted_leaf(front), piece, OP_RETURN_199);
    } else {
        assert(leaf_count(Seq::empty(), OP_RETURN_199) == 0);
    }
}

/// After lifting, no unconditional success terminator is left.
pub proof fn lemma_lifted_termless(t: Tree)
    ensures
        count(lifted(t), OP_RETURN_199) == 0,
    decreases t,
{
    let term = OP_RETURN_199;
    match t {
        Tree::Leaf(s) => {
            lemma_lifted_leaf_termless(s);
        },
        Tree::Multi(cs) => {
            lemma_merged_termless(cs);
            let m = merged(cs);
            if m.len() != 1 {
                lemma_count_seq_zero(m, term);
            }
        },
        Tree::If(b) => {
            lemma_lifted_termless(*b);
            lemma_leaf_count_zero(seq![Inst::Op(OP_RETURN_200)], term);
        },
        Tree::NotIf(b) => {
            lemma_lifted_termless(*b);
            lemma_leaf_count_zero(seq![Inst::Op(OP_NOT), Inst::Op(OP_RETURN_200)], term);
        },
        Tree::IfElse(a, b) => {
            lemma_lifted_termless(*a);
            lemma_lifted_termless(*b);
        },
        Tree::NotIfElse(a, b) => {
            lemma_lifted_termless(*a);
            lemma_lifted_termless(*b);
        },
    }
}

proof fn lemma_merged_termless(cs: Seq<Tree>)
    ensures
        forall|i: int|
            0 <= i < merged(cs).len() ==> count(#[trigger] merged(cs)[i], OP_RETURN_199) == 0,
    decreases cs,
{
    if cs.len() > 0 {
        let front = cs.subrange(0, cs.len() - 1);
        lemma_merged_termless(front);
        lemma_lifted_termless(cs[cs.len() - 1]);
        let prev = merged(front);
        let c = lifted(cs[cs.len() - 1]);
        if prev.len() > 0 && prev[prev.len() - 1] is Leaf && c is Leaf {
            lemma_leaf_count_append_zero(
                prev[prev.len() - 1]->Leaf_0,
                c->Leaf_0,
                OP_RETURN_199,
            );
            assert forall|i: int|
                0 <= i < merged(cs).len() implies count(
                #[trigger] merged(cs)[i],
                OP_RETURN_199,
            ) == 0 by {
                if i < prev.len() - 1 {
                    assert(merged(cs)[i] == prev[i]);
                }
            }
        } else {
            assert forall|i: int|
                0 <= i < merged(cs).len() implies count(
                #[trigger] merged(cs)[i],
                OP_RETURN_199,
            ) == 0 by {
                if i < prev.len() {
                    assert(merged(cs)[i] == prev[i]);
                }
            }
        }
    }
}

fn lift_script(instructions: Vec<OwnedInstruction>) -> (r: Vec<OwnedInstruction>)
    ensures
        insts_view(r@) == lifted_leaf(insts_view(instructions@)),
{
    let ghost s = insts_view(instructions@);
    let n = instructions.len();
    let mut res: Vec<OwnedInstruction> = Vec::new();
    let mut i: usize = 0;
    while i < n
        invariant
            i <= n,
            n == instructions.len(),
            s == insts_view(instructions@),
            insts_view(res@) == lifted_leaf(s.subrange(0, i as int)),
        decreases n - i,
    {
        proof {
            assert(s.subrange(0, i + 1).subrange(0, i as int) =~= s.subrange(0, i as int));
        }
        let ghost before = insts_view(res@);
        if is_op(&instructions[i], OP_RETURN_199) {
            res.push(OwnedInstruction::Op(OP_PUSHNUM_1));
            res.push(OwnedInstruction::Op(OP_RETURN_200));
            proof {
                assert(insts_view(res@) =~= before + seq![
                    Inst::Op(OP_PUSHNUM_1),
                    Inst::Op(OP_RETURN_200),
                ]);
            }
        } else {
            let inst = copy_instruction(&instructions[i]);
            res.push(inst);
            proof {
                assert(insts_view(res@) =~= before + seq![s[i as int]]);
            }
        }
        i += 1;
    }
    proof {
        assert(s.subrange(0, n as int) =~= s);
    }
    res
}

/// Whether the tree is the leaf `PUSH_TRUE; CTERM`.
fn is_true_cterm(t: &StructuredScript) -> (r: bool)
    ensures
        r == (t@ == true_cterm()),
{
    match t {
        StructuredScript::Script(v) => {
            let r = v.0.len() == 2 && is_op(&v.0[0], OP_PUSHNUM_1) && is_op(
                &v.0[1],
                OP_RETURN_200,
            );
            proof {
                if r {
                    assert(t@->Leaf_0 =~= true_cterm()->Leaf_0);
                } else if t@ == true_cterm() {
                    assert(v@.len() == 2);
                    assert(v.0@[0]@ == true_cterm()->Leaf_0[0]);
                    assert(v.0@[1]@ == true_cterm()->Leaf_0[1]);
                }
            }
            r
        },
        _ => false,
    }
}

fn lift_tree(structure: StructuredScript) -> (r: StructuredScript)
    ensures
        r@ == lifted(structure@),
    decreases structure,
{
    let ghost t = structure@;
    match structure {
        StructuredScript::Script(v) => leaf(lift_script(v.0)),
        StructuredScript::MultiScript(vv) => {
            proof {
                lemma_multi_view(vv);
            }
            let ghost cs = trees_of(vv@);
            let ghost orig = vv;
            let mut vv = vv;
            let mut out: Vec<StructuredScript> = Vec::new();
            while vv.len() > 0
                invariant
                    t == structure@,
                    structure == StructuredScript::MultiScript(orig),
                    cs == trees_of(orig@),
                    t == Tree::Multi(cs),
                    vv.len() <= orig.len(),
                    vv@ == orig@.subrange(orig.len() - vv.len(), orig.len() as int),
                    trees_of(out@) == merged(cs.subrange(0, orig.len() - vv.len())),
                decreases vv.len(),
            {
                let ghost k = orig.len() - vv.len();
                let child = vv.remove(0);
                proof {
                    assert(child == orig@[k]);
                    assert(decreases_to!(orig => orig@[k]));
                    assert(cs.subrange(0, k + 1).subrange(0, k) =~= cs.subrange(0, k));
                    assert(cs.subrange(0, k + 1)[k] == child@);
                }
                let ghost prev = trees_of(out@);
                let lifted_child = lift_tree(child);
                let last_is_leaf = match out.last() {
                    Some(StructuredScript::Script(_)) => true,
                    _ => false,
                };
                let merge = match &lifted_child {
                    StructuredScript::Script(_) => last_is_leaf,
                    _ => false,
                };
                if merge {
                    let last = out.pop();
                    match (last, lifted_child) {
                        (Some(StructuredScript::Script(a)), StructuredScript::Script(b)) => {
                            let mut code = a.0;
                            let mut more = b.0;
                            let ghost ca = insts_view(code@);
                            let ghost cb = insts_view(more@);
                            code.append(&mut more);
                            let joined = leaf(code);
                            proof {
                                assert(insts_view(code@) =~= ca + cb);
                                lemma_trees_push(out@, joined);
                            }
                            out.push(joined);
                            proof {
                                assert(trees_of(out@) =~= prev.subrange(0, prev.len() - 1).push(
                                    Tree::Leaf(ca + cb),
                                ));
                            }
                        },
                        _ => {},
                    }
                } else {
                    proof {
                        lemma_trees_push(out@, lifted_child);
                    }
                    out.push(lifted_child);
                }
            }
            proof {
                assert(cs.subrange(0, orig.len() as int) =~= cs);
            }
            if out.len() == 1 {
                assert(trees_of(out@)[0] == out@[0]@);
                out.remove(0)
            } else {
                proof {
                    lemma_multi_view(out);
                }
                StructuredScript::MultiScript(out)
            }
        },
        StructuredScript::IfEndIf(b) => {
            let body = lift_tree(*b);
            if is_true_cterm(&body) {
                let v = vec![OwnedInstruction::Op(OP_RETURN_200)];
                proof {
                    assert(insts_view(v@) =~= seq![Inst::Op(OP_RETURN_200)]);
                }
                leaf(v)
            } else {
                StructuredScript::IfEndIf(Box::new(body))
            }
        },
        StructuredScript::NotIfEndIf(b) => {
            let body = lift_tree(*b);
            if is_true_cterm(&body) {
                two_op_leaf(OP_NOT, OP_RETURN_200)
            } else {
                StructuredScript::NotIfEndIf(Box::new(body))
            }
        },
        StructuredScript::IfElseEndIf(a, b) => {
            let ra = lift_tree(*a);
            let rb = lift_tree(*b);
            StructuredScript::IfElseEndIf(Box::new(ra), Box::new(rb))
        },
        StructuredScript::NotIfElseEndIf(a, b) => {
            let ra = lift_tree(*a);
            let rb = lift_tree(*b);
            StructuredScript::NotIfElseEndIf(Box::new(ra), Box::new(rb))
        },
    }
}

/// Replaces each unconditional success terminator by `PUSH_TRUE; CTERM`,
/// merges neighbouring straight-line code, and folds `IF PUSH_TRUE CTERM ENDIF`
/// into `CTERM` and `NOTIF PUSH_TRUE CTERM ENDIF` into `NOT CTERM`.
pub fn op_return_true_to_op_if_return_true(structure: &mut StructuredScript)
    ensures
        final(structure)@ == lifted(old(structure)@),
        count(final(structure)@, OP_RETURN_199) == 0,
{
    proof {
        lemma_lifted_termless(structure@);
    }
    let mut taken = StructuredScript::MultiScript(Vec::new());
    std::mem::swap(structure, &mut taken);
    *structure = lift_tree(taken);
}

} // verus!
