//! Replaces every conditional success terminator by explicit control flow that
//! carries a success signal to the end of the script.
use crate::opcodes::{OP_PUSHBYTES_0, OP_PUSHNUM_1, OP_RETURN_200};
use crate::structured_script::{
    count, count_seq, first_index, insts_view, is_op, leaf, leaf_count, lemma_count_seq_append,
    lemma_count_seq_index, lemma_count_seq_single, lemma_count_seq_zero, lemma_first_index,
    lemma_first_index_is, lemma_insts_push, lemma_leaf_count_push, lemma_leaf_count_zero,
    lemma_multi_view, lemma_size_positive, lemma_trees_push, op_leaf, size, size_seq, trees_of,
    two_op_leaf, Inst, OwnedInstruction, StructuredScript, Tree,
};
use vstd::prelude::*;

verus! {

/// Whether a reduced subtree may leave a success signal on the stack.
#[allow(non_camel_case_types)]
#[derive(Clone, Copy, Debug, PartialEq, Eq, Structural)]
pub enum EmitOpIfSuccess {
    YES,
    NO,
}

/// The false value that the reduced code pushes (`OP_0`).
pub open spec fn zero() -> Inst {
    Inst::Op(OP_PUSHBYTES_0)
}

/// The true value that the reduced code pushes as a success signal (`OP_1`).
pub open spec fn one() -> Inst {
    Inst::Op(OP_PUSHNUM_1)
}

/// The tree with the opcode `op` added at the end of its code.
pub open spec fn append_op(t: Tree, op: u8) -> Tree
    decreases t,
{
    match t {
        Tree::Leaf(s) => Tree::Leaf(s.push(Inst::Op(op))),
        Tree::Multi(cs) => if cs.len() == 0 {
            Tree::Leaf(seq![Inst::Op(op)])
        } else {
            Tree::Multi(cs.update(cs.len() - 1, append_op(cs[cs.len() - 1], op)))
        },
        _ => Tree::Multi(seq![t, Tree::Leaf(seq![Inst::Op(op)])]),
    }
}

/// A list of children as one tree: the child itself if there is one.
pub open spec fn joined(cs: Seq<Tree>) -> Tree {
    if cs.len() == 1 {
        cs[0]
    } else {
        Tree::Multi(cs)
    }
}

/// Adding an opcode other than `c` leaves the number of `c` unchanged.
pub proof fn lemma_append_op_count(t: Tree, op: u8, c: u8)
    requires
        op != c,
    ensures
        count(append_op(t, op), c) == count(t, c),
    decreases t,
{
    lemma_leaf_count_zero(seq![Inst::Op(op)], c);
    match t {
        Tree::Leaf(s) => {
            lemma_leaf_count_push(s, c, Inst::Op(op));
            assert(append_op(t, op) == Tree::Leaf(s.push(Inst::Op(op))));
        },
        Tree::Multi(cs) => {
            if cs.len() == 0 {
                assert(count_seq(cs, c) == 0);
            } else {
                let k = cs.len() - 1;
                let front = cs.subrange(0, k);
                lemma_append_op_count(cs[k], op, c);
                assert(cs =~= front + seq![cs[k]]);
                assert(cs.update(k, append_op(cs[k], op)) =~= front + seq![append_op(cs[k], op)]);
                lemma_count_seq_append(front, seq![cs[k]], c);
                lemma_count_seq_append(front, seq![append_op(cs[k], op)], c);
                lemma_count_seq_single(cs[k], c);
                lemma_count_seq_single(append_op(cs[k], op), c);
            }
        },
        _ => {
            let l = Tree::Leaf(seq![Inst::Op(op)]);
            lemma_count_seq_append(seq![t], seq![l], c);
            assert(seq![t] + seq![l] =~= seq![t, l]);
            lemma_count_seq_single(t, c);
            lemma_count_seq_single(l, c);
        },
    }
}

pub proof fn lemma_joined_count(cs: Seq<Tree>, c: u8)
    ensures
        count(joined(cs), c) == count_seq(cs, c),
{
    if cs.len() == 1 {
        assert(cs =~= seq![cs[0]]);
        lemma_count_seq_single(cs[0], c);
    }
}

/// What reduction makes of straight-line code `s`.
pub open spec fn reduced_leaf(s: Seq<Inst>) -> Tree
    decreases leaf_count(s, OP_RETURN_200),
{
    let i = first_index(s, OP_RETURN_200) as int;
    if i >= s.len() {
        Tree::Leaf(s)
    } else if i == s.len() - 1 {
        Tree::Leaf(s.subrange(0, i))
    } else {
        let after = s.subrange(i + 1, s.len() as int);
        let rest = after.push(zero());
        let prefix = Tree::Leaf(s.subrange(0, i));
        if leaf_count(rest, OP_RETURN_200) > 0 {
            proof {
                lemma_leaf_count_push(after, OP_RETURN_200, zero());
            }
            Tree::Multi(
                seq![
                    prefix,
                    Tree::IfElse(
                        Box::new(Tree::Leaf(seq![one(), zero()])),
                        Box::new(reduced_leaf(rest)),
                    ),
                    Tree::If(Box::new(Tree::Leaf(seq![one()]))),
                ],
            )
        } else {
            Tree::Multi(
                seq![
                    prefix,
                    Tree::IfElse(Box::new(Tree::Leaf(seq![one()])), Box::new(Tree::Leaf(rest))),
                ],
            )
        }
    }
}

/// What reduction makes of a tree.
pub open spec fn reduced(t: Tree) -> Tree
    decreases count(t, OP_RETURN_200), size(t),
{
    proof {
        if let Tree::IfElse(a, b) = t {
            lemma_size_positive(*a);
            lemma_size_positive(*b);
        } else if let Tree::NotIfElse(a, b) = t {
            lemma_size_positive(*a);
            lemma_size_positive(*b);
        }
    }
    match t {
        Tree::Leaf(s) => reduced_leaf(s),
        Tree::Multi(cs) => Tree::Multi(reduced_seq(cs)),
        Tree::If(b) => if count(*b, OP_RETURN_200) > 0 {
            Tree::IfElse(Box::new(reduced(*b)), Box::new(Tree::Leaf(seq![zero()])))
        } else {
            Tree::If(Box::new(reduced(*b)))
        },
        Tree::NotIf(b) => if count(*b, OP_RETURN_200) > 0 {
            Tree::NotIfElse(Box::new(reduced(*b)), Box::new(Tree::Leaf(seq![zero()])))
        } else {
            Tree::NotIf(Box::new(reduced(*b)))
        },
        Tree::IfElse(a, b) => Tree::IfElse(
            Box::new(reduced_branch(*a, *b)),
            Box::new(reduced_branch(*b, *a)),
        ),
        Tree::NotIfElse(a, b) => Tree::NotIfElse(
            Box::new(reduced_branch(*a, *b)),
            Box::new(reduced_branch(*b, *a)),
        ),
    }
}

/// A reduced branch, given a zero at its end when only the other branch signals.
pub open spec fn reduced_branch(a: Tree, other: Tree) -> Tree
    decreases count(a, OP_RETURN_200), size(a) + 1,
{
    if count(other, OP_RETURN_200) > 0 && count(a, OP_RETURN_200) == 0 {
        append_op(reduced(a), OP_PUSHBYTES_0)
    } else {
        reduced(a)
    }
}

/// What reduction makes of the children of a sequence.
pub open spec fn reduced_seq(cs: Seq<Tree>) -> Seq<Tree>
    decreases count_seq(cs, OP_RETURN_200), size_seq(cs),
{
    if cs.len() == 0 {
        Seq::empty()
    } else {
        let rest = cs.subrange(1, cs.len() as int);
        if count(cs[0], OP_RETURN_200) == 0 {
            seq![reduced(cs[0])] + reduced_seq(rest)
        } else if rest.len() == 0 {
            seq![reduced(cs[0])]
        } else {
            let tail = append_op(joined(rest), OP_PUSHBYTES_0);
            proof {
                lemma_append_op_count(joined(rest), OP_PUSHBYTES_0, OP_RETURN_200);
                lemma_joined_count(rest, OP_RETURN_200);
            }
            if count(tail, OP_RETURN_200) > 0 {
                seq![
                    reduced(cs[0]),
                    Tree::IfElse(Box::new(Tree::Leaf(seq![one(), zero()])), Box::new(reduced(tail))),
                    Tree::If(Box::new(Tree::Leaf(seq![one()]))),
                ]
            } else {
                seq![
                    reduced(cs[0]),
                    Tree::IfElse(Box::new(Tree::Leaf(seq![one()])), Box::new(reduced(tail))),
                ]
            }
        }
    }
}

proof fn lemma_reduced_leaf_keeps_absent(s: Seq<Inst>, op: u8)
    requires
        leaf_count(s, op) == 0,
        op != OP_PUSHBYTES_0,
        op != OP_PUSHNUM_1,
    ensures
        count(reduced_leaf(s), op) == 0,
    decreases leaf_count(s, OP_RETURN_200),
{
    let c = OP_RETURN_200;
    lemma_first_index(s, c);
    lemma_leaf_count_zero(s, op);
    let i = first_index(s, c) as int;
    if i < s.len() {
        lemma_leaf_count_zero(s.subrange(0, i), op);
        assert(count(Tree::Leaf(s.subrange(0, i)), op) == 0);
    }
    if i < s.len() - 1 {
        let after = s.subrange(i + 1, s.len() as int);
        let rest = after.push(zero());
        lemma_leaf_count_zero(rest, op);
        lemma_leaf_count_zero(seq![one(), zero()], op);
        lemma_leaf_count_zero(seq![one()], op);
        assert(count(Tree::Leaf(seq![one(), zero()]), op) == 0);
        assert(count(Tree::Leaf(seq![one()]), op) == 0);
        assert(count(Tree::If(Box::new(Tree::Leaf(seq![one()]))), op) == 0);
        let items = reduced_leaf(s)->Multi_0;
        if leaf_count(rest, c) > 0 {
            lemma_leaf_count_push(after, c, zero());
            lemma_reduced_leaf_keeps_absent(rest, op);
            assert(count(items[1], op) == 0);
        } else {
            assert(count(Tree::Leaf(rest), op) == 0);
            assert(count(items[1], op) == 0);
        }
        lemma_count_seq_zero(items, op);
    }
}

/// Reduction adds no opcode other than `OP_0` and `OP_1`: any other that a tree
/// lacks, its reduction lacks too.
pub proof fn lemma_reduced_keeps_absent(t: Tree, op: u8)
    requires
        count(t, op) == 0,
        op != OP_PUSHBYTES_0,
        op != OP_PUSHNUM_1,
    ensures
        count(reduced(t), op) == 0,
    decreases count(t, OP_RETURN_200), size(t),
{
    lemma_leaf_count_zero(seq![zero()], op);
    assert(count(Tree::Leaf(seq![zero()]), op) == 0);
    match t {
        Tree::Leaf(s) => {
            lemma_reduced_leaf_keeps_absent(s, op);
            assert(reduced(t) == reduced_leaf(s));
        },
        Tree::Multi(cs) => {
            lemma_reduced_seq_keeps_absent(cs, op);
            lemma_count_seq_zero(reduced_seq(cs), op);
        },
        Tree::If(b) => {
            lemma_reduced_keeps_absent(*b, op);
        },
        Tree::NotIf(b) => {
            lemma_reduced_keeps_absent(*b, op);
        },
        Tree::IfElse(a, b) => {
            lemma_size_positive(*a);
            lemma_size_positive(*b);
            lemma_reduced_branch_keeps_absent(*a, *b, op);
            lemma_reduced_branch_keeps_absent(*b, *a, op);
        },
        Tree::NotIfElse(a, b) => {
            lemma_size_positive(*a);
            lemma_size_positive(*b);
            lemma_reduced_branch_keeps_absent(*a, *b, op);
            lemma_reduced_branch_keeps_absent(*b, *a, op);
        },
    }
}

proof fn lemma_reduced_branch_keeps_absent(a: Tree, other: Tree, op: u8)
    requires
        count(a, op) == 0,
        op != OP_PUSHBYTES_0,
        op != OP_PUSHNUM_1,
    ensures
        count(reduced_branch(a, other), op) == 0,
    decreases count(a, OP_RETURN_200), size(a) + 1,
{
    lemma_reduced_keeps_absent(a, op);
    lemma_append_op_count(reduced(a), OP_PUSHBYTES_0, op);
}

proof fn lemma_reduced_seq_keeps_absent(cs: Seq<Tree>, op: u8)
    requires
        count_seq(cs, op) == 0,
        op != OP_PUSHBYTES_0,
        op != OP_PUSHNUM_1,
    ensures
        forall|i: int|
            0 <= i < reduced_seq(cs).len() ==> count(#[trigger] reduced_seq(cs)[i], op) == 0,
    decreases count_seq(cs, OP_RETURN_200), size_seq(cs),
{
    let c = OP_RETURN_200;
    if cs.len() > 0 {
        let rest = cs.subrange(1, cs.len() as int);
        let r = reduced_seq(cs);
        lemma_reduced_keeps_absent(cs[0], op);
        lemma_leaf_count_zero(seq![one(), zero()], op);
        lemma_leaf_count_zero(seq![one()], op);
        let one_leaf = Tree::Leaf(seq![one()]);
        assert(count(Tree::Leaf(seq![one(), zero()]), op) == 0);
        assert(count(one_leaf, op) == 0);
        assert(count(Tree::If(Box::new(one_leaf)), op) == 0);
        if count(cs[0], c) == 0 {
            lemma_reduced_seq_keeps_absent(rest, op);
            assert forall|i: int| 0 <= i < r.len() implies count(#[trigger] r[i], op) == 0 by {
                if i > 0 {
                    assert(r[i] == reduced_seq(rest)[i - 1]);
                }
            }
        } else if rest.len() > 0 {
            let tail = append_op(joined(rest), OP_PUSHBYTES_0);
            lemma_append_op_count(joined(rest), OP_PUSHBYTES_0, c);
            lemma_joined_count(rest, c);
            lemma_append_op_count(joined(rest), OP_PUSHBYTES_0, op);
            lemma_joined_count(rest, op);
            lemma_reduced_keeps_absent(tail, op);
            assert(count(r[1], op) == 0);
            assert forall|i: int| 0 <= i < r.len() implies count(#[trigger] r[i], op) == 0 by {}
        } else {
            assert forall|i: int| 0 <= i < r.len() implies count(#[trigger] r[i], op) == 0 by {}
        }
    }
}

proof fn lemma_reduced_leaf_clean(s: Seq<Inst>)
    ensures
        count(reduced_leaf(s), OP_RETURN_200) == 0,
    decreases leaf_count(s, OP_RETURN_200),
{
    let c = OP_RETURN_200;
    lemma_first_index(s, c);
    let i = first_index(s, c) as int;
    lemma_leaf_count_zero(s.subrange(0, i), c);
    if i < s.len() - 1 {
        let after = s.subrange(i + 1, s.len() as int);
        let rest = after.push(zero());
        let one_zero = Tree::Leaf(seq![one(), zero()]);
        let raise = Tree::If(Box::new(Tree::Leaf(seq![one()])));
        lemma_leaf_count_zero(seq![one(), zero()], c);
        lemma_leaf_count_zero(seq![one()], c);
        let items = reduced_leaf(s)->Multi_0;
        assert(count(one_zero, c) == 0);
        assert(count(Tree::Leaf(seq![one()]), c) == 0);
        assert(count(raise, c) == 0);
        if leaf_count(rest, c) > 0 {
            lemma_leaf_count_push(after, c, zero());
            lemma_reduced_leaf_clean(rest);
            assert(count(items[1], c) == 0);
            assert(count(items[2], c) == 0);
        } else {
            assert(count(Tree::Leaf(rest), c) == 0);
            assert(count(items[1], c) == 0);
        }
        assert(count(items[0], c) == 0);
        lemma_count_seq_zero(items, c);
    }
}

/// After reduction, no conditional success terminator is left.
pub proof fn lemma_reduced_clean(t: Tree)
    ensures
        count(reduced(t), OP_RETURN_200) == 0,
    decreases count(t, OP_RETURN_200), size(t),
{
    let c = OP_RETURN_200;
    lemma_leaf_count_zero(seq![zero()], c);
    assert(count(Tree::Leaf(seq![zero()]), c) == 0);
    match t {
        Tree::Leaf(s) => {
            lemma_reduced_leaf_clean(s);
            assert(reduced(t) == reduced_leaf(s));
        },
        Tree::Multi(cs) => {
            lemma_reduced_seq_clean(cs);
            lemma_count_seq_zero(reduced_seq(cs), c);
        },
        Tree::If(b) => {
            lemma_reduced_clean(*b);
        },
        Tree::NotIf(b) => {
            lemma_reduced_clean(*b);
        },
        Tree::IfElse(a, b) => {
            lemma_size_positive(*a);
            lemma_size_positive(*b);
            lemma_reduced_branch_clean(*a, *b);
            lemma_reduced_branch_clean(*b, *a);
        },
        Tree::NotIfElse(a, b) => {
            lemma_size_positive(*a);
            lemma_size_positive(*b);
            lemma_reduced_branch_clean(*a, *b);
            lemma_reduced_branch_clean(*b, *a);
        },
    }
}

proof fn lemma_reduced_branch_clean(a: Tree, other: Tree)
    ensures
        count(reduced_branch(a, other), OP_RETURN_200) == 0,
    decreases count(a, OP_RETURN_200), size(a) + 1,
{
    lemma_reduced_clean(a);
    lemma_append_op_count(reduced(a), OP_PUSHBYTES_0, OP_RETURN_200);
}

proof fn lemma_reduced_seq_clean(cs: Seq<Tree>)
    ensures
        forall|i: int|
            0 <= i < reduced_seq(cs).len() ==> count(#[trigger] reduced_seq(cs)[i], OP_RETURN_200)
                == 0,
    decreases count_seq(cs, OP_RETURN_200), size_seq(cs),
{
    let c = OP_RETURN_200;
    if cs.len() > 0 {
        let rest = cs.subrange(1, cs.len() as int);
        let r = reduced_seq(cs);
        lemma_reduced_clean(cs[0]);
        lemma_leaf_count_zero(seq![one(), zero()], c);
        lemma_leaf_count_zero(seq![one()], c);
        let one_zero = Tree::Leaf(seq![one(), zero()]);
        let one_leaf = Tree::Leaf(seq![one()]);
        assert(count(one_zero, c) == 0);
        assert(count(one_leaf, c) == 0);
        assert(count(Tree::If(Box::new(one_leaf)), c) == 0);
        if count(cs[0], c) == 0 {
            lemma_reduced_seq_clean(rest);
            assert forall|i: int| 0 <= i < r.len() implies count(#[trigger] r[i], c) == 0 by {
                if i > 0 {
                    assert(r[i] == reduced_seq(rest)[i - 1]);
                }
            }
        } else if rest.len() > 0 {
            let tail = append_op(joined(rest), OP_PUSHBYTES_0);
            lemma_append_op_count(joined(rest), OP_PUSHBYTES_0, OP_RETURN_200);
            lemma_joined_count(rest, OP_RETURN_200);
            lemma_reduced_clean(tail);
            assert(count(r[1], c) == 0);
            assert forall|i: int| 0 <= i < r.len() implies count(#[trigger] r[i], c) == 0 by {}
        } else {
            assert forall|i: int| 0 <= i < r.len() implies count(#[trigger] r[i], c) == 0 by {}
        }
    }
}

/// Adds the opcode `opcode` at the end of the code of `structure`.
fn append_opcode(structure: StructuredScript, opcode: u8) -> (r: StructuredScript)
    ensures
        r@ == append_op(structure@, opcode),
    decreases structure,
{
    let ghost t = structure@;
    match structure {
        StructuredScript::Script(v) => {
            let mut v = v.0;
            proof {
                lemma_insts_push(v@, OwnedInstruction::Op(opcode));
            }
            v.push(OwnedInstruction::Op(opcode));
            leaf(v)
        },
        StructuredScript::MultiScript(vv) => {
            proof {
                lemma_multi_view(vv);
            }
            let mut vv = vv;
            let ghost old_vv = vv@;
            match vv.pop() {
                None => op_leaf(opcode),
                Some(last) => {
                    proof {
                        assert(decreases_to!(old_vv => old_vv[old_vv.len() - 1]));
                    }
                    let appended = append_opcode(last, opcode);
                    proof {
                        lemma_trees_push(vv@, appended);
                        assert(trees_of(vv@).push(appended@) =~= trees_of(old_vv).update(
                            old_vv.len() - 1,
                            appended@,
                        ));
                    }
                    vv.push(appended);
                    proof {
                        lemma_multi_view(vv);
                    }
                    StructuredScript::MultiScript(vv)
                },
            }
        },
        other => {
            let v = vec![other, op_leaf(opcode)];
            proof {
                lemma_multi_view(v);
                assert(trees_of(v@) =~= seq![t, Tree::Leaf(seq![Inst::Op(opcode)])]);
            }
            StructuredScript::MultiScript(v)
        },
    }
}

/// Reduces straight-line code; the flag tells whether it held a conditional terminator.
fn reduce_script(v: Vec<OwnedInstruction>) -> (r: (StructuredScript, bool))
    ensures
        r.0@ == reduced_leaf(insts_view(v@)),
        r.1 == (leaf_count(insts_view(v@), OP_RETURN_200) > 0),
    decreases leaf_count(insts_view(v@), OP_RETURN_200),
{
    let ghost s = insts_view(v@);
    let mut v = v;
    let n = v.len();
    let mut i: usize = 0;
    while i < n && !is_op(&v[i], OP_RETURN_200)
        invariant
            i <= n,
            n == v.len(),
            s == insts_view(v@),
            forall|j: int| 0 <= j < i ==> s[j] != Inst::Op(OP_RETURN_200),
        decreases n - i,
    {
        i += 1;
    }
    proof {
        lemma_first_index_is(s, OP_RETURN_200, i as int);
    }
    if i == n {
        return (leaf(v), false);
    }
    let mut rest = v.split_off(i + 1);
    v.pop();
    proof {
        assert(insts_view(v@) =~= s.subrange(0, i as int));
        assert(insts_view(rest@) =~= s.subrange(i + 1, s.len() as int));
    }
    if rest.len() == 0 {
        return (leaf(v), true);
    }
    proof {
        lemma_insts_push(rest@, OwnedInstruction::Op(OP_PUSHBYTES_0));
        lemma_leaf_count_push(s.subrange(i + 1, s.len() as int), OP_RETURN_200, zero());
    }
    rest.push(OwnedInstruction::Op(OP_PUSHBYTES_0));
    let (inner, signals) = reduce_script(rest);
    let prefix = leaf(v);
    if signals {
        let guard = StructuredScript::IfElseEndIf(
            Box::new(two_op_leaf(OP_PUSHNUM_1, OP_PUSHBYTES_0)),
            Box::new(inner),
        );
        let out = vec![prefix, guard, StructuredScript::IfEndIf(Box::new(op_leaf(OP_PUSHNUM_1)))];
        proof {
            lemma_multi_view(out);
            assert(trees_of(out@) =~= reduced_leaf(s)->Multi_0);
        }
        (StructuredScript::MultiScript(out), true)
    } else {
        let guard = StructuredScript::IfElseEndIf(Box::new(op_leaf(OP_PUSHNUM_1)), Box::new(inner));
        let out = vec![prefix, guard];
        proof {
            lemma_multi_view(out);
            assert(trees_of(out@) =~= reduced_leaf(s)->Multi_0);
        }
        (StructuredScript::MultiScript(out), true)
    }
}

/// Reduces a tree; the flag tells whether it held a conditional terminator.
fn reduce_tree(structure: StructuredScript) -> (r: (StructuredScript, bool))
    ensures
        r.0@ == reduced(structure@),
        r.1 == (count(structure@, OP_RETURN_200) > 0),
    decreases count(structure@, OP_RETURN_200), size(structure@),
{
    let ghost t = structure@;
    let ghost c = OP_RETURN_200;
    match structure {
        StructuredScript::Script(v) => reduce_script(v.0),
        StructuredScript::MultiScript(vv) => {
            proof {
                lemma_multi_view(vv);
            }
            let ghost cs = trees_of(vv@);
            let mut vv = vv;
            let mut out: Vec<StructuredScript> = Vec::new();
            while vv.len() > 0
                invariant
                    c == OP_RETURN_200,
                    t == structure@,
                    t == Tree::Multi(cs),
                    vv.len() <= cs.len(),
                    trees_of(vv@) == cs.subrange(cs.len() - vv.len(), cs.len() as int),
                    reduced_seq(cs) == trees_of(out@) + reduced_seq(trees_of(vv@)),
                    count_seq(cs, c) == count_seq(trees_of(vv@), c),
                decreases vv.len(),
            {
                let ghost cur = trees_of(vv@);
                let child = vv.remove(0);
                let ghost rest = trees_of(vv@);
                proof {
                    assert(rest =~= cur.subrange(1, cur.len() as int));
                    assert(child@ == cur[0]);
                    assert(count_seq(cur, c) == count(cur[0], c) + count_seq(rest, c));
                    lemma_count_seq_index(cs, cs.len() - cur.len(), c);
                    assert(cs[cs.len() - cur.len()] == cur[0]);
                    assert(count(t, c) == count_seq(cs, c));
                    assert(size(t) == 1 + size_seq(cs));
                }
                let (reduced_child, signals) = reduce_tree(child);
                if !signals {
                    proof {
                        lemma_trees_push(out@, reduced_child);
                    }
                    out.push(reduced_child);
                } else if vv.len() == 0 {
                    proof {
                        lemma_trees_push(out@, reduced_child);
                    }
                    let ghost before = trees_of(out@);
                    out.push(reduced_child);
                    proof {
                        lemma_multi_view(out);
                        assert(reduced_seq(cur) == seq![reduced(cur[0])]);
                        assert(trees_of(out@) =~= before + reduced_seq(cur));
                    }
                    return (StructuredScript::MultiScript(out), true);
                } else {
                    let tail = if vv.len() == 1 {
                        let only = vv.remove(0);
                        proof {
                            assert(only@ == rest[0]);
                        }
                        only
                    } else {
                        proof {
                            lemma_multi_view(vv);
                        }
                        StructuredScript::MultiScript(vv)
                    };
                    assert(tail@ == joined(rest));
                    let tail = append_opcode(tail, OP_PUSHBYTES_0);
                    proof {
                        lemma_append_op_count(joined(rest), OP_PUSHBYTES_0, OP_RETURN_200);
                        lemma_joined_count(rest, OP_RETURN_200);
                    }
                    let (reduced_tail, tail_signals) = reduce_tree(tail);
                    let mut tree_out = out;
                    proof {
                        lemma_trees_push(tree_out@, reduced_child);
                    }
                    tree_out.push(reduced_child);
                    if tail_signals {
                        let guard = StructuredScript::IfElseEndIf(
                            Box::new(two_op_leaf(OP_PUSHNUM_1, OP_PUSHBYTES_0)),
                            Box::new(reduced_tail),
                        );
                        proof {
                            lemma_trees_push(tree_out@, guard);
                        }
                        tree_out.push(guard);
                        let raise = StructuredScript::IfEndIf(Box::new(op_leaf(OP_PUSHNUM_1)));
                        proof {
                            lemma_trees_push(tree_out@, raise);
                        }
                        tree_out.push(raise);
                    } else {
                        let guard = StructuredScript::IfElseEndIf(
                            Box::new(op_leaf(OP_PUSHNUM_1)),
                            Box::new(reduced_tail),
                        );
                        proof {
                            lemma_trees_push(tree_out@, guard);
                        }
                        tree_out.push(guard);
                    }
                    proof {
                        lemma_multi_view(tree_out);
                        assert(trees_of(tree_out@) =~= reduced_seq(cs));
                    }
                    return (StructuredScript::MultiScript(tree_out), true);
                }
            }
            proof {
                lemma_multi_view(out);
                assert(reduced_seq(trees_of(vv@)) =~= Seq::<Tree>::empty());
                assert(trees_of(out@) =~= reduced_seq(cs));
                assert(count_seq(trees_of(vv@), c) == 0);
            }
            (StructuredScript::MultiScript(out), false)
        },
        StructuredScript::IfEndIf(b) => {
            let (body, signals) = reduce_tree(*b);
            if signals {
                (
                    StructuredScript::IfElseEndIf(
                        Box::new(body),
                        Box::new(op_leaf(OP_PUSHBYTES_0)),
                    ),
                    true,
                )
            } else {
                (StructuredScript::IfEndIf(Box::new(body)), false)
            }
        },
        StructuredScript::NotIfEndIf(b) => {
            let (body, signals) = reduce_tree(*b);
            if signals {
                (
                    StructuredScript::NotIfElseEndIf(
                        Box::new(body),
                        Box::new(op_leaf(OP_PUSHBYTES_0)),
                    ),
                    true,
                )
            } else {
                (StructuredScript::NotIfEndIf(Box::new(body)), false)
            }
        },
        StructuredScript::IfElseEndIf(a, b) => {
            proof {
                lemma_size_positive(a@);
                lemma_size_positive(b@);
            }
            let (ra, rb, signals) = reduce_branches(*a, *b);
            (StructuredScript::IfElseEndIf(Box::new(ra), Box::new(rb)), signals)
        },
        StructuredScript::NotIfElseEndIf(a, b) => {
            proof {
                lemma_size_positive(a@);
                lemma_size_positive(b@);
            }
            let (ra, rb, signals) = reduce_branches(*a, *b);
            (StructuredScript::NotIfElseEndIf(Box::new(ra), Box::new(rb)), signals)
        },
    }
}

/// Reduces both branches of a conditional and gives a zero at the end of the
/// branch that does not signal when the other one does.
fn reduce_branches(a: StructuredScript, b: StructuredScript) -> (r: (
    StructuredScript,
    StructuredScript,
    bool,
))
    ensures
        r.0@ == reduced_branch(a@, b@),
        r.1@ == reduced_branch(b@, a@),
        r.2 == (count(a@, OP_RETURN_200) + count(b@, OP_RETURN_200) > 0),
    decreases count(a@, OP_RETURN_200) + count(b@, OP_RETURN_200), size(a@) + size(b@),
{
    proof {
        lemma_size_positive(a@);
        lemma_size_positive(b@);
    }
    let (ra, ea) = reduce_tree(a);
    let (rb, eb) = reduce_tree(b);
    if ea && !eb {
        (ra, append_opcode(rb, OP_PUSHBYTES_0), true)
    } else if eb && !ea {
        (append_opcode(ra, OP_PUSHBYTES_0), rb, true)
    } else {
        (ra, rb, ea)
    }
}

/// Replaces every conditional success terminator in `structure` by control flow
/// that leaves a true success signal where the terminator would have fired, and
/// tells whether the result carries such a signal.
pub fn reduce(structure: &mut StructuredScript) -> (r: EmitOpIfSuccess)
    ensures
        final(structure)@ == reduced(old(structure)@),
        r == (if count(old(structure)@, OP_RETURN_200) > 0 {
            EmitOpIfSuccess::YES
        } else {
            EmitOpIfSuccess::NO
        }),
        count(final(structure)@, OP_RETURN_200) == 0,
{
    proof {
        lemma_reduced_clean(structure@);
    }
    let mut taken = StructuredScript::MultiScript(Vec::new());
    std::mem::swap(structure, &mut taken);
    let (t, signals) = reduce_tree(taken);
    *structure = t;
    if signals {
        EmitOpIfSuccess::YES
    } else {
        EmitOpIfSuccess::NO
    }
}

} // verus!
