//! Removes code that can never run because it follows a success terminator.
use crate::opcodes::{OP_PUSHNUM_1, OP_PUSHNUM_16, OP_PUSHNUM_NEG1, OP_RETURN_199, OP_RETURN_200};
use crate::structured_script::{
    insts_view, is_op, leaf, lemma_insts_push, lemma_multi_view, lemma_trees_push, trees_of,
    Inst, OwnedInstruction, StructuredScript, Tree,
};
use vstd::prelude::*;

verus! {

/// Whether the instruction pushes a value that is true for certain: a non-empty
/// byte string, or one of the numbers -1 and 1 to 16 (the number 0 is left out).
pub open spec fn statically_true(i: Inst) -> bool {
    match i {
        Inst::Push(bytes) => bytes.len() > 0,
        Inst::Op(op) => op == OP_PUSHNUM_NEG1 || (OP_PUSHNUM_1 <= op && op <= OP_PUSHNUM_16),
    }
}

/// Whether the code after position `i` (or from it, for a true push before a
/// conditional terminator) can never run.
pub open spec fn cuts_at(s: Seq<Inst>, i: int) -> bool {
    ||| s[i] == Inst::Op(OP_RETURN_199)
    ||| i + 1 < s.len() && s[i + 1] == Inst::Op(OP_RETURN_200) && statically_true(s[i])
}

/// The first position from `i` on where `cuts_at` holds, or `s.len()`.
pub open spec fn first_cut(s: Seq<Inst>, i: nat) -> nat
    decreases s.len() - i,
{
    if i >= s.len() {
        s.len()
    } else if cuts_at(s, i as int) {
        i
    } else {
        first_cut(s, i + 1)
    }
}

/// Straight-line code cut after its first terminator, which becomes a plain
/// success terminator; the flag tells whether there was one.
pub open spec fn cleaned_leaf(s: Seq<Inst>) -> (Seq<Inst>, bool) {
    let i = first_cut(s, 0) as int;
    if i < s.len() {
        (s.subrange(0, i).push(Inst::Op(OP_RETURN_199)), true)
    } else {
        (s, false)
    }
}

/// The tree with its dead code removed, and whether it ends in a terminator
/// that always runs.
pub open spec fn cleaned(t: Tree) -> (Tree, bool)
    decreases t,
{
    match t {
        Tree::Leaf(s) => (Tree::Leaf(cleaned_leaf(s).0), cleaned_leaf(s).1),
        Tree::Multi(cs) => {
            let (kept, found) = cleaned_seq(cs);
            if found && kept.len() == 1 {
                (kept[0], true)
            } else {
                (Tree::Multi(kept), found)
            }
        },
        Tree::If(b) => (Tree::If(Box::new(cleaned(*b).0)), false),
        Tree::NotIf(b) => (Tree::NotIf(Box::new(cleaned(*b).0)), false),
        Tree::IfElse(a, b) => (
            Tree::IfElse(Box::new(cleaned(*a).0), Box::new(cleaned(*b).0)),
            false,
        ),
        Tree::NotIfElse(a, b) => (
            Tree::NotIfElse(Box::new(cleaned(*a).0), Box::new(cleaned(*b).0)),
            false,
        ),
    }
}

/// The children cleaned up to and including the first one that ends in a
/// terminator that always runs, and whether there is such a child.
pub open spec fn cleaned_seq(cs: Seq<Tree>) -> (Seq<Tree>, bool)
    decreases cs,
{
    if cs.len() == 0 {
        (Seq::empty(), false)
    } else {
        let (c, found) = cleaned(cs[0]);
        if found {
            (seq![c], true)
        } else {
            let (rest, found_later) = cleaned_seq(cs.subrange(1, cs.len() as int));
            (seq![c] + rest, found_later)
        }
    }
}

fn is_statically_true(inst: &OwnedInstruction) -> (r: bool)
    ensures
        r == statically_true(inst@),
{
    match inst {
        OwnedInstruction::Op(op) => *op == OP_PUSHNUM_NEG1 || (OP_PUSHNUM_1 <= *op && *op
            <= OP_PUSHNUM_16),
        OwnedInstruction::PushBytes(bytes) => bytes.len() > 0,
    }
}

fn cleanup_script(instructions: Vec<OwnedInstruction>) -> (r: (StructuredScript, bool))
    ensures
        r.0@ == Tree::Leaf(cleaned_leaf(insts_view(instructions@)).0),
        r.1 == cleaned_leaf(insts_view(instructions@)).1,
{
    let ghost s = insts_view(instructions@);
    let mut v = instructions;
    let n = v.len();
    let mut i: usize = 0;
    while i < n
        invariant
            i <= n,
            n == v.len(),
            s == insts_view(v@),
            s == insts_view(instructions@),
            first_cut(s, 0) == first_cut(s, i as nat),
        decreases n - i,
    {
        let cut = is_op(&v[i], OP_RETURN_199) || (i + 1 < n && is_op(&v[i + 1], OP_RETURN_200)
            && is_statically_true(&v[i]));
        if cut {
            assert(cuts_at(s, i as int));
            assert(first_cut(s, i as nat) == i);
            v.truncate(i);
            proof {
                lemma_insts_push(v@, OwnedInstruction::Op(OP_RETURN_199));
                assert(insts_view(v@) =~= s.subrange(0, i as int));
            }
            v.push(OwnedInstruction::Op(OP_RETURN_199));
            return (leaf(v), true);
        }
        i += 1;
    }
    (leaf(v), false)
}

fn cleanup_tree(structure: StructuredScript) -> (r: (StructuredScript, bool))
    ensures
        (r.0@, r.1) == cleaned(structure@),
    decreases structure,
{
    let ghost t = structure@;
    match structure {
        StructuredScript::Script(v) => cleanup_script(v.0),
        StructuredScript::MultiScript(vv) => {
            proof {
                lemma_multi_view(vv);
            }
            let ghost cs = trees_of(vv@);
            let ghost orig = vv;
            let mut vv = vv;
            let mut out: Vec<StructuredScript> = Vec::new();
            while vv.len() > 0
                invariant
                    t == structure@,
                    structure == StructuredScript::MultiScript(orig),
                    cs == trees_of(orig@),
                    t == Tree::Multi(cs),
                    vv.len() <= orig.len(),
                    vv@ == orig@.subrange(orig.len() - vv.len(), orig.len() as int),
                    cleaned_seq(cs) == (
                        trees_of(out@) + cleaned_seq(trees_of(vv@)).0,
                        cleaned_seq(trees_of(vv@)).1,
                    ),
                decreases vv.len(),
            {
                let ghost cur = trees_of(vv@);
                let ghost k = orig.len() - vv.len();
                let child = vv.remove(0);
                proof {
                    assert(trees_of(vv@) =~= cur.subrange(1, cur.len() as int));
                    assert(child == orig@[k]);
                    assert(child@ == cur[0]);
                    assert(decreases_to!(orig => orig@[k]));
                }
                let (cleaned_child, found) = cleanup_tree(child);
                let ghost before = trees_of(out@);
                proof {
                    lemma_trees_push(out@, cleaned_child);
                }
                out.push(cleaned_child);
                if found {
                    proof {
                        assert(cleaned_seq(cur).0 == seq![cleaned_child@]);
                        assert(trees_of(out@) =~= before + cleaned_seq(cur).0);
                    }
                    assert(cleaned_seq(cs).0 == trees_of(out@));
                    assert(cleaned_seq(cs).1);
                    if out.len() == 1 {
                        assert(trees_of(out@)[0] == out@[0]@);
                        let only = out.remove(0);
                        return (only, true);
                    }
                    proof {
                        lemma_multi_view(out);
                    }
                    return (StructuredScript::MultiScript(out), true);
                }
                proof {
                    assert(before + cleaned_seq(cur).0 =~= trees_of(out@) + cleaned_seq(
                        trees_of(vv@),
                    ).0);
                }
            }
            proof {
                lemma_multi_view(out);
                assert(trees_of(out@) =~= cleaned_seq(cs).0);
            }
            (StructuredScript::MultiScript(out), false)
        },
        StructuredScript::IfEndIf(b) => {
            let (body, _) = cleanup_tree(*b);
            (StructuredScript::IfEndIf(Box::new(body)), false)
        },
        StructuredScript::NotIfEndIf(b) => {
            let (body, _) = cleanup_tree(*b);
            (StructuredScript::NotIfEndIf(Box::new(body)), false)
        },
        StructuredScript::IfElseEndIf(a, b) => {
            let (ra, _) = cleanup_tree(*a);
            let (rb, _) = cleanup_tree(*b);
            (StructuredScript::IfElseEndIf(Box::new(ra), Box::new(rb)), false)
        },
        StructuredScript::NotIfElseEndIf(a, b) => {
            let (ra, _) = cleanup_tree(*a);
            let (rb, _) = cleanup_tree(*b);
            (StructuredScript::NotIfElseEndIf(Box::new(ra), Box::new(rb)), false)
        },
    }
}

/// Cuts the code that follows the first success terminator that always runs,
/// and tells whether `structure` ends in such a terminator. A terminator inside
/// a conditional branch cuts only that branch.
pub fn find_op_return_true_cleanup(structure: &mut StructuredScript) -> (r: bool)
    ensures
        (final(structure)@, r) == cleaned(old(structure)@),
{
    let mut taken = StructuredScript::MultiScript(Vec::new());
    std::mem::swap(structure, &mut taken);
    let (t, found) = cleanup_tree(taken);
    *structure = t;
    found
}

} // verus!
