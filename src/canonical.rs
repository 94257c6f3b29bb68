//! The parsed form of a script is unique: two parsed trees with the same
//! instructions are the same tree.
use crate::opcodes::{OP_ELSE, OP_ENDIF, OP_IF, OP_NOTIF};
use crate::codec::{
    decode_bytes, encode_insts, lemma_decode_encoded, lemma_decoded_canonical, normalized,
};
use crate::structured_script::{
    balanced, flatten, flatten_seq, is_control, lemma_flatten_single, nesting_ok, parsed_body,
    parsed_item, parsed_items, Inst, Tree,
};
use vstd::prelude::*;

verus! {

/// How an instruction changes the number of open blocks.
pub open spec fn delta(i: Inst) -> int {
    if i == Inst::Op(OP_IF) || i == Inst::Op(OP_NOTIF) {
        1
    } else if i == Inst::Op(OP_ENDIF) {
        -1
    } else {
        0
    }
}

/// Blocks opened minus blocks closed by the instructions.
pub open spec fn net(x: Seq<Inst>) -> int
    decreases x.len(),
{
    if x.len() == 0 {
        0
    } else {
        net(x.subrange(0, x.len() - 1)) + delta(x[x.len() - 1])
    }
}

/// Code that closes what it opens, never closes more than it opened, and has
/// each `ELSE` inside a block of its own.
pub open spec fn block_shape(x: Seq<Inst>) -> bool {
    &&& net(x) == 0
    &&& forall|k: int| 0 <= k <= x.len() ==> net(#[trigger] x.subrange(0, k)) >= 0
    &&& forall|j: int|
        0 <= j < x.len() && x[j] == Inst::Op(OP_ELSE) ==> net(#[trigger] x.subrange(0, j)) >= 1
}

/// A single conditional block: every part of it short of the whole leaves a
/// block open.
pub open spec fn closed_block(x: Seq<Inst>) -> bool {
    &&& block_shape(x)
    &&& x.len() >= 2
    &&& x[0] == Inst::Op(OP_IF) || x[0] == Inst::Op(OP_NOTIF)
    &&& x[x.len() - 1] == Inst::Op(OP_ENDIF)
    &&& forall|k: int| 0 < k < x.len() ==> net(#[trigger] x.subrange(0, k)) >= 1
}

proof fn lemma_net_append(a: Seq<Inst>, b: Seq<Inst>)
    ensures
        net(a + b) == net(a) + net(b),
    decreases b.len(),
{
    if b.len() == 0 {
        assert(a + b =~= a);
    } else {
        let b1 = b.subrange(0, b.len() - 1);
        assert((a + b).subrange(0, (a + b).len() - 1) =~= a + b1);
        lemma_net_append(a, b1);
    }
}

proof fn lemma_prefix_of_append(a: Seq<Inst>, b: Seq<Inst>, k: int)
    requires
        0 <= k <= a.len() + b.len(),
    ensures
        k <= a.len() ==> (a + b).subrange(0, k) == a.subrange(0, k),
        k >= a.len() ==> (a + b).subrange(0, k) == a + b.subrange(0, k - a.len()),
        k >= a.len() ==> net((a + b).subrange(0, k)) == net(a) + net(b.subrange(0, k - a.len())),
{
    if k <= a.len() {
        assert((a + b).subrange(0, k) =~= a.subrange(0, k));
    }
    if k >= a.len() {
        assert((a + b).subrange(0, k) =~= a + b.subrange(0, k - a.len()));
        lemma_net_append(a, b.subrange(0, k - a.len()));
    }
}

proof fn lemma_shape_append(a: Seq<Inst>, b: Seq<Inst>)
    requires
        block_shape(a),
        block_shape(b),
    ensures
        block_shape(a + b),
{
    let x = a + b;
    lemma_net_append(a, b);
    assert forall|k: int| 0 <= k <= x.len() implies net(#[trigger] x.subrange(0, k)) >= 0 by {
        lemma_prefix_of_append(a, b, k);
    }
    assert forall|j: int|
        0 <= j < x.len() && x[j] == Inst::Op(OP_ELSE) implies net(
        #[trigger] x.subrange(0, j),
    ) >= 1 by {
        lemma_prefix_of_append(a, b, j);
        if j >= a.len() {
            assert(b[j - a.len()] == x[j]);
        }
    }
}

proof fn lemma_plain_shape(s: Seq<Inst>)
    requires
        forall|j: int| 0 <= j < s.len() ==> !is_control(s[j]),
    ensures
        block_shape(s),
        forall|k: int| 0 <= k <= s.len() ==> net(#[trigger] s.subrange(0, k)) == 0,
    decreases s.len(),
{
    if s.len() > 0 {
        let front = s.subrange(0, s.len() - 1);
        lemma_plain_shape(front);
        assert forall|k: int| 0 <= k <= s.len() implies net(#[trigger] s.subrange(0, k)) == 0 by {
            if k < s.len() {
                assert(s.subrange(0, k) =~= front.subrange(0, k));
            } else {
                assert(s.subrange(0, k) =~= s);
            }
        }
        assert(s.subrange(0, s.len() as int) =~= s);
    } else {
        assert forall|k: int| 0 <= k <= s.len() implies net(#[trigger] s.subrange(0, k)) == 0 by {
            assert(s.subrange(0, k) =~= Seq::<Inst>::empty());
        }
    }
}

/// `[op] + x + [ENDIF]` is a closed block when `x` closes what it opens and
/// never closes more than it opened.
proof fn lemma_wrap_shape(op: Inst, x: Seq<Inst>)
    requires
        op == Inst::Op(OP_IF) || op == Inst::Op(OP_NOTIF),
        net(x) == 0,
        forall|k: int| 0 <= k <= x.len() ==> net(#[trigger] x.subrange(0, k)) >= 0,
    ensures
        closed_block(seq![op] + x + seq![Inst::Op(OP_ENDIF)]),
{
    let head = seq![op];
    let tail = seq![Inst::Op(OP_ENDIF)];
    let v = head + x + tail;
    lemma_plain_tail(tail);
    assert(net(head) == 1) by {
        assert(head.subrange(0, 0) =~= Seq::<Inst>::empty());
        assert(net(Seq::<Inst>::empty()) == 0);
    }
    lemma_net_append(head, x);
    lemma_net_append(head + x, tail);
    assert forall|k: int| 0 < k < v.len() implies net(#[trigger] v.subrange(0, k)) >= 1 by {
        lemma_prefix_of_append(head + x, tail, k);
        lemma_prefix_of_append(head, x, k);
        assert(head.subrange(0, 1) =~= head);
    }
    assert forall|k: int| 0 <= k <= v.len() implies net(#[trigger] v.subrange(0, k)) >= 0 by {
        if k == 0 {
            assert(v.subrange(0, 0) =~= Seq::<Inst>::empty());
        } else if k == v.len() {
            assert(v.subrange(0, k) =~= v);
        } else {
            lemma_prefix_of_append(head + x, tail, k);
            lemma_prefix_of_append(head, x, k);
            assert(head.subrange(0, 1) =~= head);
        }
    }
    assert forall|j: int|
        0 <= j < v.len() && v[j] == Inst::Op(OP_ELSE) implies net(#[trigger] v.subrange(0, j))
        >= 1 by {
        assert(v[0] != Inst::Op(OP_ELSE));
        assert(v[v.len() - 1] != Inst::Op(OP_ELSE));
    }
}

/// `x + [ELSE] + y` closes what it opens and never closes more than it opened.
proof fn lemma_else_middle(x: Seq<Inst>, y: Seq<Inst>)
    requires
        block_shape(x),
        block_shape(y),
    ensures
        net(x + seq![Inst::Op(OP_ELSE)] + y) == 0,
        forall|k: int|
            0 <= k <= (x + seq![Inst::Op(OP_ELSE)] + y).len() ==> net(
                #[trigger] (x + seq![Inst::Op(OP_ELSE)] + y).subrange(0, k),
            ) >= 0,
{
    let e = seq![Inst::Op(OP_ELSE)];
    assert(net(e) == 0) by {
        assert(e.subrange(0, 0) =~= Seq::<Inst>::empty());
        assert(net(Seq::<Inst>::empty()) == 0);
    }
    let xe = x + e;
    let m = xe + y;
    lemma_net_append(x, e);
    lemma_net_append(xe, y);
    assert forall|k: int| 0 <= k <= m.len() implies net(#[trigger] m.subrange(0, k)) >= 0 by {
        lemma_prefix_of_append(xe, y, k);
        if k <= xe.len() {
            lemma_prefix_of_append(x, e, k);
            if k == xe.len() {
                assert(xe.subrange(0, k) =~= xe);
            }
        }
    }
}

/// The instructions of a parsed part: non-empty, of block shape, and either
/// free of control instructions or one closed block.
pub proof fn lemma_item_shape(t: Tree)
    requires
        parsed_item(t),
    ensures
        block_shape(flatten(t)),
        flatten(t).len() > 0,
        t is Leaf ==> forall|j: int| 0 <= j < flatten(t).len() ==> !is_control(flatten(t)[j]),
        !(t is Leaf) ==> closed_block(flatten(t)),
    decreases t, 0nat,
{
    match t {
        Tree::Leaf(s) => {
            lemma_plain_shape(s);
        },
        Tree::Multi(_) => {},
        Tree::If(b) => {
            lemma_body_shape(*b);
            lemma_wrap_shape(Inst::Op(OP_IF), flatten(*b));
        },
        Tree::NotIf(b) => {
            lemma_body_shape(*b);
            lemma_wrap_shape(Inst::Op(OP_NOTIF), flatten(*b));
        },
        Tree::IfElse(a, b) => {
            lemma_body_shape(*a);
            lemma_body_shape(*b);
            lemma_else_middle(flatten(*a), flatten(*b));
            let m = flatten(*a) + seq![Inst::Op(OP_ELSE)] + flatten(*b);
            lemma_wrap_shape(Inst::Op(OP_IF), m);
            assert(flatten(t) =~= seq![Inst::Op(OP_IF)] + m + seq![Inst::Op(OP_ENDIF)]);
        },
        Tree::NotIfElse(a, b) => {
            lemma_body_shape(*a);
            lemma_body_shape(*b);
            lemma_else_middle(flatten(*a), flatten(*b));
            let m = flatten(*a) + seq![Inst::Op(OP_ELSE)] + flatten(*b);
            lemma_wrap_shape(Inst::Op(OP_NOTIF), m);
            assert(flatten(t) =~= seq![Inst::Op(OP_NOTIF)] + m + seq![Inst::Op(OP_ENDIF)]);
        },
    }
}

pub proof fn lemma_body_shape(t: Tree)
    requires
        parsed_body(t),
    ensures
        block_shape(flatten(t)),
    decreases t, 1nat,
{
    match t {
        Tree::Multi(cs) => {
            lemma_items_shape(cs);
        },
        _ => {
            lemma_item_shape(t);
        },
    }
}

pub proof fn lemma_items_shape(cs: Seq<Tree>)
    requires
        parsed_items(cs),
    ensures
        block_shape(flatten_seq(cs)),
        cs.len() > 0 && !(cs[cs.len() - 1] is Leaf) ==> flatten_seq(cs).len() > 0 && flatten_seq(
            cs,
        )[flatten_seq(cs).len() - 1] == Inst::Op(OP_ENDIF),
    decreases cs, 0nat,
{
    if cs.len() == 0 {
        lemma_plain_shape(Seq::empty());
    } else {
        let front = cs.subrange(0, cs.len() - 1);
        let last = cs[cs.len() - 1];
        lemma_items_shape(front);
        lemma_item_shape(last);
        lemma_shape_append(flatten_seq(front), flatten(last));
        let x = flatten_seq(cs);
        if !(last is Leaf) {
            assert(x[x.len() - 1] == flatten(last)[flatten(last).len() - 1]);
        }
    }
}

proof fn lemma_plain_tail(tail: Seq<Inst>)
    requires
        tail == seq![Inst::Op(OP_ENDIF)],
    ensures
        net(tail) == -1,
{
    assert(tail.subrange(0, 0) =~= Seq::<Inst>::empty());
    assert(net(Seq::<Inst>::empty()) == 0);
}

/// The opening instruction, the first branch and the `ELSE` branch, if any, of
/// a conditional block.
pub open spec fn split_block(t: Tree) -> (Inst, Tree, Option<Tree>) {
    match t {
        Tree::If(b) => (Inst::Op(OP_IF), *b, None),
        Tree::NotIf(b) => (Inst::Op(OP_NOTIF), *b, None),
        Tree::IfElse(a, b) => (Inst::Op(OP_IF), *a, Some(*b)),
        Tree::NotIfElse(a, b) => (Inst::Op(OP_NOTIF), *a, Some(*b)),
        _ => (Inst::Op(OP_IF), t, None),
    }
}

/// The instructions between the opening instruction and the `ENDIF`.
pub open spec fn middle(a: Tree, other: Option<Tree>) -> Seq<Inst> {
    match other {
        None => flatten(a),
        Some(b) => flatten(a) + seq![Inst::Op(OP_ELSE)] + flatten(b),
    }
}

proof fn lemma_split_block(t: Tree)
    requires
        !(t is Leaf),
        !(t is Multi),
    ensures
        flatten(t) == seq![split_block(t).0] + middle(split_block(t).1, split_block(t).2) + seq![
            Inst::Op(OP_ENDIF),
        ],
        parsed_item(t) ==> parsed_body(split_block(t).1) && (split_block(t).2 is Some
            ==> parsed_body(split_block(t).2->0)),
{
    match t {
        Tree::IfElse(a, b) => {
            assert(flatten(t) =~= seq![Inst::Op(OP_IF)] + (flatten(*a) + seq![Inst::Op(OP_ELSE)]
                + flatten(*b)) + seq![Inst::Op(OP_ENDIF)]);
        },
        Tree::NotIfElse(a, b) => {
            assert(flatten(t) =~= seq![Inst::Op(OP_NOTIF)] + (flatten(*a) + seq![
                Inst::Op(OP_ELSE),
            ] + flatten(*b)) + seq![Inst::Op(OP_ENDIF)]);
        },
        _ => {},
    }
}

/// A branch of block shape cannot be the code before an `ELSE` that closes it
/// at depth zero inside another branch of block shape.
proof fn lemma_else_not_inside(x: Seq<Inst>, y: Seq<Inst>)
    requires
        block_shape(x),
        block_shape(y),
        x.len() < y.len(),
        y.subrange(0, x.len() as int) == x,
    ensures
        y[x.len() as int] != Inst::Op(OP_ELSE),
{
}

/// Two parsed blocks with the same instructions are the same tree.
pub proof fn lemma_parsed_body_unique(t1: Tree, t2: Tree)
    requires
        parsed_body(t1),
        parsed_body(t2),
        flatten(t1) == flatten(t2),
    ensures
        t1 == t2,
    decreases flatten(t1).len(), 2nat,
{
    if t1 is Multi && t2 is Multi {
        lemma_items_unique(t1->Multi_0, t2->Multi_0);
    } else if t1 is Multi {
        lemma_flatten_single(t2);
        lemma_items_unique(t1->Multi_0, seq![t2]);
    } else if t2 is Multi {
        lemma_flatten_single(t1);
        lemma_items_unique(seq![t1], t2->Multi_0);
    } else {
        lemma_item_unique(t1, t2);
    }
}

proof fn lemma_middle_unique(a1: Tree, b1: Option<Tree>, a2: Tree, b2: Option<Tree>)
    requires
        parsed_body(a1),
        parsed_body(a2),
        b1 is Some ==> parsed_body(b1->0),
        b2 is Some ==> parsed_body(b2->0),
        middle(a1, b1) == middle(a2, b2),
    ensures
        a1 == a2,
        b1 == b2,
    decreases middle(a1, b1).len(), 3nat,
{
    let m = middle(a1, b1);
    let x1 = flatten(a1);
    let x2 = flatten(a2);
    lemma_body_shape(a1);
    lemma_body_shape(a2);
    let e = seq![Inst::Op(OP_ELSE)];
    if b1 is Some {
        assert(m[x1.len() as int] == Inst::Op(OP_ELSE));
        assert(m.subrange(0, x1.len() as int) =~= x1);
    }
    if b2 is Some {
        assert(m[x2.len() as int] == Inst::Op(OP_ELSE));
        assert(m.subrange(0, x2.len() as int) =~= x2);
    }
    if b1 is Some && x1.len() < x2.len() {
        assert(x2.subrange(0, x1.len() as int) =~= x1);
        assert(x2[x1.len() as int] == m[x1.len() as int]);
        lemma_else_not_inside(x1, x2);
    }
    if b2 is Some && x2.len() < x1.len() {
        assert(x1.subrange(0, x2.len() as int) =~= x2);
        assert(x1[x2.len() as int] == m[x2.len() as int]);
        lemma_else_not_inside(x2, x1);
    }
    if b1 is None && b2 is Some {
        assert(x1 == m);
        assert(x1.subrange(0, x2.len() as int) =~= x2);
        lemma_else_not_inside(x2, x1);
    }
    if b2 is None && b1 is Some {
        assert(x2 == m);
        assert(x2.subrange(0, x1.len() as int) =~= x1);
        lemma_else_not_inside(x1, x2);
    }
    if b1 is None && b2 is None {
        lemma_parsed_body_unique(a1, a2);
    }
    if b1 is Some && b2 is Some {
        assert(x1.len() == x2.len());
        assert(x1 =~= m.subrange(0, x1.len() as int));
        assert(x2 =~= m.subrange(0, x2.len() as int));
        let y1 = flatten(b1->0);
        let y2 = flatten(b2->0);
        assert(y1 =~= m.subrange(x1.len() as int + 1, m.len() as int));
        assert(y2 =~= m.subrange(x2.len() as int + 1, m.len() as int));
        lemma_parsed_body_unique(a1, a2);
        lemma_parsed_body_unique(b1->0, b2->0);
    }
}

proof fn lemma_item_unique(t1: Tree, t2: Tree)
    requires
        parsed_item(t1),
        parsed_item(t2),
        flatten(t1) == flatten(t2),
    ensures
        t1 == t2,
    decreases flatten(t1).len(), 0nat,
{
    let x = flatten(t1);
    lemma_item_shape(t1);
    lemma_item_shape(t2);
    if t1 is Leaf && t2 is Leaf {
    } else if t1 is Leaf {
        assert(!is_control(x[0]));
    } else if t2 is Leaf {
        assert(!is_control(x[0]));
    } else {
        lemma_split_block(t1);
        lemma_split_block(t2);
        let (o1, a1, b1) = split_block(t1);
        let (o2, a2, b2) = split_block(t2);
        assert(o1 == x[0]);
        assert(o2 == x[0]);
        assert(middle(a1, b1) =~= x.subrange(1, x.len() - 1));
        assert(middle(a2, b2) =~= x.subrange(1, x.len() - 1));
        lemma_middle_unique(a1, b1, a2, b2);
    }
}

/// The last part of one list of parsed parts is at least as long as that of
/// another list with the same instructions.
proof fn lemma_last_not_shorter(cs1: Seq<Tree>, cs2: Seq<Tree>)
    requires
        parsed_items(cs1),
        parsed_items(cs2),
        cs1.len() > 0,
        cs2.len() > 0,
        flatten_seq(cs1) == flatten_seq(cs2),
    ensures
        flatten(cs1[cs1.len() - 1]).len() >= flatten(cs2[cs2.len() - 1]).len(),
{
    let f1 = cs1.subrange(0, cs1.len() - 1);
    let f2 = cs2.subrange(0, cs2.len() - 1);
    let l1 = cs1[cs1.len() - 1];
    let l2 = cs2[cs2.len() - 1];
    let x = flatten_seq(cs1);
    let fx1 = flatten_seq(f1);
    let fx2 = flatten_seq(f2);
    let lx1 = flatten(l1);
    let lx2 = flatten(l2);
    lemma_item_shape(l1);
    lemma_item_shape(l2);
    lemma_items_shape(f1);
    assert(x == fx1 + lx1);
    assert(x == fx2 + lx2);
    if lx1.len() < lx2.len() {
        assert(x[x.len() - 1] == lx1[lx1.len() - 1]);
        assert(x[x.len() - 1] == lx2[lx2.len() - 1]);
        if l2 is Leaf {
            if l1 is Leaf {
                assert(f1.len() > 0);
                assert(!(f1[f1.len() - 1] is Leaf));
                let p = fx1.len() - 1;
                assert(x[p] == fx1[p]);
                assert(x[p] == lx2[p - fx2.len()]);
            }
        } else if !(l1 is Leaf) {
            let d = lx2.len() - lx1.len();
            let w = lx2.subrange(0, d);
            assert(lx2 =~= w + lx1) by {
                assert forall|i: int| d <= i < lx2.len() implies lx2[i] == lx1[i - d] by {
                    assert(x[fx2.len() + i] == lx2[i]);
                    assert(x[fx1.len() + i - d] == lx1[i - d]);
                }
            }
            lemma_net_append(w, lx1);
        }
    }
}

proof fn lemma_items_unique(cs1: Seq<Tree>, cs2: Seq<Tree>)
    requires
        parsed_items(cs1),
        parsed_items(cs2),
        flatten_seq(cs1) == flatten_seq(cs2),
    ensures
        cs1 == cs2,
    decreases flatten_seq(cs1).len(), 1nat,
{
    if cs1.len() == 0 && cs2.len() == 0 {
        assert(cs1 =~= cs2);
    } else if cs1.len() == 0 {
        lemma_item_shape(cs2[cs2.len() - 1]);
        assert(flatten_seq(cs1) =~= Seq::<Inst>::empty());
    } else if cs2.len() == 0 {
        lemma_item_shape(cs1[cs1.len() - 1]);
        assert(flatten_seq(cs2) =~= Seq::<Inst>::empty());
    } else {
        lemma_last_not_shorter(cs1, cs2);
        lemma_last_not_shorter(cs2, cs1);
        let f1 = cs1.subrange(0, cs1.len() - 1);
        let f2 = cs2.subrange(0, cs2.len() - 1);
        let l1 = cs1[cs1.len() - 1];
        let l2 = cs2[cs2.len() - 1];
        let x = flatten_seq(cs1);
        lemma_item_shape(l1);
        let n = flatten(l1).len();
        assert(flatten(l1) =~= x.subrange(x.len() - n, x.len() as int));
        assert(flatten(l2) =~= x.subrange(x.len() - n, x.len() as int));
        assert(flatten_seq(f1) =~= x.subrange(0, x.len() - n));
        assert(flatten_seq(f2) =~= x.subrange(0, x.len() - n));
        lemma_items_unique(f1, f2);
        lemma_item_unique(l1, l2);
        assert(cs1 =~= f1.push(l1));
        assert(cs2 =~= f2.push(l2));
    }
}

proof fn lemma_plain_nesting(s: Seq<Inst>, rest: Seq<Inst>, open: Seq<bool>)
    requires
        forall|j: int| 0 <= j < s.len() ==> !is_control(s[j]),
    ensures
        nesting_ok(s + rest, open) == nesting_ok(rest, open),
    decreases s.len(),
{
    if s.len() == 0 {
        assert(s + rest =~= rest);
    } else {
        let x = s + rest;
        let s1 = s.subrange(1, s.len() as int);
        assert(x.subrange(1, x.len() as int) =~= s1 + rest);
        assert(x[0] == s[0]);
        lemma_plain_nesting(s1, rest, open);
    }
}

/// The instructions of a parsed block close exactly what they open, whatever
/// blocks are open around them and whatever follows.
pub proof fn lemma_body_nesting(t: Tree, rest: Seq<Inst>, open: Seq<bool>)
    requires
        parsed_body(t),
    ensures
        nesting_ok(flatten(t) + rest, open) == nesting_ok(rest, open),
    decreases t, 1nat,
{
    match t {
        Tree::Multi(cs) => {
            lemma_items_nesting(cs, rest, open);
        },
        _ => {
            lemma_item_nesting(t, rest, open);
        },
    }
}

proof fn lemma_items_nesting(cs: Seq<Tree>, rest: Seq<Inst>, open: Seq<bool>)
    requires
        parsed_items(cs),
    ensures
        nesting_ok(flatten_seq(cs) + rest, open) == nesting_ok(rest, open),
    decreases cs, 0nat,
{
    if cs.len() == 0 {
        assert(flatten_seq(cs) + rest =~= rest);
    } else {
        let front = cs.subrange(0, cs.len() - 1);
        let last = cs[cs.len() - 1];
        let tail = flatten(last) + rest;
        assert(flatten_seq(cs) + rest =~= flatten_seq(front) + tail);
        lemma_items_nesting(front, tail, open);
        lemma_item_nesting(last, rest, open);
    }
}

proof fn lemma_item_nesting(t: Tree, rest: Seq<Inst>, open: Seq<bool>)
    requires
        parsed_item(t),
    ensures
        nesting_ok(flatten(t) + rest, open) == nesting_ok(rest, open),
    decreases t, 0nat,
{
    let endif = seq![Inst::Op(OP_ENDIF)] + rest;
    let x = flatten(t) + rest;
    let pushed = open.push(false);
    let after_else = open.push(true);
    assert(endif.subrange(1, endif.len() as int) =~= rest);
    assert(pushed.subrange(0, pushed.len() - 1) =~= open);
    assert(after_else.subrange(0, after_else.len() - 1) =~= open);
    assert(pushed.update(pushed.len() - 1, true) =~= after_else);
    match t {
        Tree::Leaf(s) => {
            lemma_plain_nesting(s, rest, open);
        },
        Tree::Multi(_) => {},
        Tree::If(b) => {
            assert(x.subrange(1, x.len() as int) =~= flatten(*b) + endif);
            lemma_body_nesting(*b, endif, pushed);
        },
        Tree::NotIf(b) => {
            assert(x.subrange(1, x.len() as int) =~= flatten(*b) + endif);
            lemma_body_nesting(*b, endif, pushed);
        },
        Tree::IfElse(a, b) => {
            let after = flatten(*b) + endif;
            let els = seq![Inst::Op(OP_ELSE)] + after;
            assert(x.subrange(1, x.len() as int) =~= flatten(*a) + els);
            assert(els.subrange(1, els.len() as int) =~= after);
            lemma_body_nesting(*a, els, pushed);
            lemma_body_nesting(*b, endif, after_else);
        },
        Tree::NotIfElse(a, b) => {
            let after = flatten(*b) + endif;
            let els = seq![Inst::Op(OP_ELSE)] + after;
            assert(x.subrange(1, x.len() as int) =~= flatten(*a) + els);
            assert(els.subrange(1, els.len() as int) =~= after);
            lemma_body_nesting(*a, els, pushed);
            lemma_body_nesting(*b, endif, after_else);
        },
    }
}

/// Reading the bytes that a parsed script is written as gives back the same
/// tree: the bytes read, their blocks nest, and the only parsed tree of those
/// instructions is the one written.
pub proof fn lemma_round_trip(input: Seq<u8>, t: Tree, bytes: Seq<u8>)
    requires
        decode_bytes(input) is Some,
        parsed_body(t),
        flatten(t) == normalized(decode_bytes(input)->0),
        encode_insts(flatten(t)) == Some(bytes),
    ensures
        decode_bytes(bytes) is Some,
        balanced(normalized(decode_bytes(bytes)->0)),
        forall|t2: Tree|
            parsed_body(t2) && flatten(t2) == normalized(decode_bytes(bytes)->0) ==> t2 == t,
{
    lemma_decoded_canonical(input);
    lemma_decode_encoded(flatten(t));
    lemma_body_nesting(t, Seq::empty(), Seq::empty());
    assert(flatten(t) + Seq::<Inst>::empty() =~= flatten(t));
    assert(nesting_ok(Seq::<Inst>::empty(), Seq::<bool>::empty()));
    assert forall|t2: Tree|
        parsed_body(t2) && flatten(t2) == normalized(decode_bytes(bytes)->0) implies t2 == t by {
        lemma_parsed_body_unique(t2, t);
    }
}

} // verus!
