//! The instruction list and the block-structured form of a script.
use crate::opcodes::{OP_ELSE, OP_ENDIF, OP_IF, OP_NOTIF};
use vstd::prelude::*;

verus! {

/// An instruction as a mathematical value.
pub enum Inst {
    Op(u8),
    Push(Seq<u8>),
}

/// A structured script as a mathematical value.
pub enum Tree {
    Leaf(Seq<Inst>),
    Multi(Seq<Tree>),
    If(Box<Tree>),
    NotIf(Box<Tree>),
    IfElse(Box<Tree>, Box<Tree>),
    NotIfElse(Box<Tree>, Box<Tree>),
}

/// One instruction: an opcode, or a push of the bytes it holds.
#[derive(Debug, Clone, PartialEq, Eq)]
pub enum OwnedInstruction {
    Op(u8),
    PushBytes(Vec<u8>),
}

impl View for OwnedInstruction {
    type V = Inst;

    open spec fn view(&self) -> Inst {
        match self {
            OwnedInstruction::Op(op) => Inst::Op(*op),
            OwnedInstruction::PushBytes(bytes) => Inst::Push(bytes@),
        }
    }
}

/// Straight-line code: instructions in order.
#[derive(Debug, Clone, PartialEq, Eq)]
pub struct OwnedInstructions(pub Vec<OwnedInstruction>);

pub open spec fn insts_view(s: Seq<OwnedInstruction>) -> Seq<Inst> {
    s.map_values(|i: OwnedInstruction| i@)
}

impl View for OwnedInstructions {
    type V = Seq<Inst>;

    open spec fn view(&self) -> Seq<Inst> {
        insts_view(self.0@)
    }
}

/// A script as a tree of straight-line code and conditional blocks.
#[derive(Debug, PartialEq, Eq)]
pub enum StructuredScript {
    Script(OwnedInstructions),
    MultiScript(Vec<StructuredScript>),
    IfEndIf(Box<StructuredScript>),
    NotIfEndIf(Box<StructuredScript>),
    IfElseEndIf(Box<StructuredScript>, Box<StructuredScript>),
    NotIfElseEndIf(Box<StructuredScript>, Box<StructuredScript>),
}

pub open spec fn tree_of(s: StructuredScript) -> Tree
    decreases s,
{
    match s {
        StructuredScript::Script(v) => Tree::Leaf(v@),
        StructuredScript::MultiScript(vv) => Tree::Multi(
            Seq::new(
                vv.len() as nat,
                |i: int|
                    if 0 <= i < vv.len() {
                        tree_of(vv[i])
                    } else {
                        Tree::Leaf(Seq::empty())
                    },
            ),
        ),
        StructuredScript::IfEndIf(b) => Tree::If(Box::new(tree_of(*b))),
        StructuredScript::NotIfEndIf(b) => Tree::NotIf(Box::new(tree_of(*b))),
        StructuredScript::IfElseEndIf(a, b) => Tree::IfElse(
            Box::new(tree_of(*a)),
            Box::new(tree_of(*b)),
        ),
        StructuredScript::NotIfElseEndIf(a, b) => Tree::NotIfElse(
            Box::new(tree_of(*a)),
            Box::new(tree_of(*b)),
        ),
    }
}

impl View for StructuredScript {
    type V = Tree;

    open spec fn view(&self) -> Tree {
        tree_of(*self)
    }
}


/// The trees of a list of children.
pub open spec fn trees_of(v: Seq<StructuredScript>) -> Seq<Tree> {
    v.map_values(|c: StructuredScript| c@)
}

pub proof fn lemma_multi_view(vv: Vec<StructuredScript>)
    ensures
        StructuredScript::MultiScript(vv)@ == Tree::Multi(trees_of(vv@)),
{
    assert(StructuredScript::MultiScript(vv)@->Multi_0 =~= trees_of(vv@));
}

/// Position of the first `Op(op)` in `s`, or `s.len()` if there is none.
pub open spec fn first_index(s: Seq<Inst>, op: u8) -> nat
    decreases s.len(),
{
    if s.len() == 0 {
        0
    } else if s[0] == Inst::Op(op) {
        0
    } else {
        1 + first_index(s.subrange(1, s.len() as int), op)
    }
}

/// Number of occurrences of `Op(op)` in straight-line code.
pub open spec fn leaf_count(s: Seq<Inst>, op: u8) -> nat
    decreases s.len(),
{
    let i = first_index(s, op) as int;
    if i < s.len() {
        1 + leaf_count(s.subrange(i + 1, s.len() as int), op)
    } else {
        0
    }
}

/// Number of occurrences of `Op(op)` in the leaves of a tree.
pub open spec fn count(t: Tree, op: u8) -> nat
    decreases t,
{
    match t {
        Tree::Leaf(s) => leaf_count(s, op),
        Tree::Multi(cs) => count_seq(cs, op),
        Tree::If(b) => count(*b, op),
        Tree::NotIf(b) => count(*b, op),
        Tree::IfElse(a, b) => count(*a, op) + count(*b, op),
        Tree::NotIfElse(a, b) => count(*a, op) + count(*b, op),
    }
}

pub open spec fn count_seq(cs: Seq<Tree>, op: u8) -> nat
    decreases cs,
{
    if cs.len() == 0 {
        0
    } else {
        count(cs[0], op) + count_seq(cs.subrange(1, cs.len() as int), op)
    }
}

/// A measure of a tree that every child stays below.
pub open spec fn size(t: Tree) -> nat
    decreases t,
{
    match t {
        Tree::Leaf(_) => 1,
        Tree::Multi(cs) => 1 + size_seq(cs),
        Tree::If(b) => 1 + size(*b),
        Tree::NotIf(b) => 1 + size(*b),
        Tree::IfElse(a, b) => 1 + size(*a) + size(*b),
        Tree::NotIfElse(a, b) => 1 + size(*a) + size(*b),
    }
}

pub open spec fn size_seq(cs: Seq<Tree>) -> nat
    decreases cs,
{
    if cs.len() == 0 {
        0
    } else {
        1 + size(cs[0]) + size_seq(cs.subrange(1, cs.len() as int))
    }
}

pub proof fn lemma_size_positive(t: Tree)
    ensures
        size(t) >= 1,
{
}

pub proof fn lemma_first_index(s: Seq<Inst>, op: u8)
    ensures
        first_index(s, op) <= s.len(),
        forall|j: int| 0 <= j < first_index(s, op) ==> s[j] != Inst::Op(op),
        first_index(s, op) < s.len() ==> s[first_index(s, op) as int] == Inst::Op(op),
    decreases s.len(),
{
    if s.len() > 0 && s[0] != Inst::Op(op) {
        let rest = s.subrange(1, s.len() as int);
        lemma_first_index(rest, op);
        assert forall|j: int| 0 <= j < first_index(s, op) implies s[j] != Inst::Op(op) by {
            if j > 0 {
                assert(s[j] == rest[j - 1]);
            }
        }
    }
}

/// `first_index` is the only position with the properties of `lemma_first_index`.
pub proof fn lemma_first_index_is(s: Seq<Inst>, op: u8, i: int)
    requires
        0 <= i <= s.len(),
        forall|j: int| 0 <= j < i ==> s[j] != Inst::Op(op),
        i < s.len() ==> s[i] == Inst::Op(op),
    ensures
        first_index(s, op) == i,
{
    lemma_first_index(s, op);
    let f = first_index(s, op) as int;
    if f < i {
        assert(s[f] == Inst::Op(op));
    } else if f > i {
        assert(s[i] != Inst::Op(op));
    }
}

pub proof fn lemma_leaf_count_zero(s: Seq<Inst>, op: u8)
    ensures
        (leaf_count(s, op) == 0) <==> (forall|j: int| 0 <= j < s.len() ==> s[j] != Inst::Op(op)),
{
    lemma_first_index(s, op);
    if first_index(s, op) == s.len() {
        assert forall|j: int| 0 <= j < s.len() implies s[j] != Inst::Op(op) by {}
    }
}

pub proof fn lemma_leaf_count_push(s: Seq<Inst>, op: u8, x: Inst)
    requires
        x != Inst::Op(op),
    ensures
        leaf_count(s.push(x), op) == leaf_count(s, op),
    decreases s.len(),
{
    let t = s.push(x);
    lemma_first_index(s, op);
    let i = first_index(s, op) as int;
    assert forall|j: int| 0 <= j < i implies t[j] != Inst::Op(op) by {
        assert(t[j] == s[j]);
    }
    if i < s.len() {
        lemma_first_index_is(t, op, i);
        let rest = s.subrange(i + 1, s.len() as int);
        assert(t.subrange(i + 1, t.len() as int) =~= rest.push(x));
        lemma_leaf_count_push(rest, op, x);
    } else {
        lemma_first_index_is(t, op, t.len() as int);
    }
}

pub proof fn lemma_count_seq_append(a: Seq<Tree>, b: Seq<Tree>, op: u8)
    ensures
        count_seq(a + b, op) == count_seq(a, op) + count_seq(b, op),
        size_seq(a + b) == size_seq(a) + size_seq(b),
    decreases a.len(),
{
    if a.len() == 0 {
        assert(a + b =~= b);
    } else {
        let a1 = a.subrange(1, a.len() as int);
        assert((a + b).subrange(1, (a + b).len() as int) =~= a1 + b);
        lemma_count_seq_append(a1, b, op);
    }
}

pub proof fn lemma_count_seq_single(x: Tree, op: u8)
    ensures
        count_seq(seq![x], op) == count(x, op),
        size_seq(seq![x]) == 1 + size(x),
{
    assert(seq![x].subrange(1, 1) =~= Seq::<Tree>::empty());
    assert(count_seq(Seq::<Tree>::empty(), op) == 0);
    assert(size_seq(Seq::<Tree>::empty()) == 0);
}

pub proof fn lemma_count_seq_zero(cs: Seq<Tree>, op: u8)
    requires
        forall|i: int| 0 <= i < cs.len() ==> count(#[trigger] cs[i], op) == 0,
    ensures
        count_seq(cs, op) == 0,
    decreases cs.len(),
{
    if cs.len() > 0 {
        let rest = cs.subrange(1, cs.len() as int);
        assert forall|i: int| 0 <= i < rest.len() implies count(#[trigger] rest[i], op) == 0 by {
            assert(rest[i] == cs[i + 1]);
        }
        lemma_count_seq_zero(rest, op);
    }
}

pub proof fn lemma_leaf_count_append_zero(a: Seq<Inst>, b: Seq<Inst>, op: u8)
    requires
        leaf_count(a, op) == 0,
        leaf_count(b, op) == 0,
    ensures
        leaf_count(a + b, op) == 0,
{
    lemma_leaf_count_zero(a, op);
    lemma_leaf_count_zero(b, op);
    lemma_leaf_count_zero(a + b, op);
    assert forall|j: int| 0 <= j < (a + b).len() implies (a + b)[j] != Inst::Op(op) by {
        if j >= a.len() {
            assert((a + b)[j] == b[j - a.len()]);
        }
    }
}

pub proof fn lemma_count_seq_index(cs: Seq<Tree>, i: int, op: u8)
    requires
        0 <= i < cs.len(),
    ensures
        count(cs[i], op) <= count_seq(cs, op),
        size(cs[i]) < size_seq(cs),
    decreases cs.len(),
{
    if i > 0 {
        let rest = cs.subrange(1, cs.len() as int);
        assert(cs[i] == rest[i - 1]);
        lemma_count_seq_index(rest, i - 1, op);
    }
}


/// Straight-line code as a tree leaf.
pub(crate) fn leaf(v: Vec<OwnedInstruction>) -> (r: StructuredScript)
    ensures
        r@ == Tree::Leaf(insts_view(v@)),
{
    StructuredScript::Script(OwnedInstructions(v))
}

/// A leaf that holds the one opcode `op`.
pub(crate) fn op_leaf(op: u8) -> (r: StructuredScript)
    ensures
        r@ == Tree::Leaf(seq![Inst::Op(op)]),
{
    let v = vec![OwnedInstruction::Op(op)];
    proof {
        assert(insts_view(v@) =~= seq![Inst::Op(op)]);
    }
    leaf(v)
}

/// A leaf that holds the opcode `a`, then the opcode `b`.
pub(crate) fn two_op_leaf(a: u8, b: u8) -> (r: StructuredScript)
    ensures
        r@ == Tree::Leaf(seq![Inst::Op(a), Inst::Op(b)]),
{
    let v = vec![OwnedInstruction::Op(a), OwnedInstruction::Op(b)];
    proof {
        assert(insts_view(v@) =~= seq![Inst::Op(a), Inst::Op(b)]);
    }
    leaf(v)
}

/// Whether the instruction is the opcode `op`.
pub(crate) fn is_op(inst: &OwnedInstruction, op: u8) -> (r: bool)
    ensures
        r == (inst@ == Inst::Op(op)),
{
    match inst {
        OwnedInstruction::Op(o) => *o == op,
        OwnedInstruction::PushBytes(_) => false,
    }
}

pub proof fn lemma_trees_push(v: Seq<StructuredScript>, x: StructuredScript)
    ensures
        trees_of(v.push(x)) == trees_of(v).push(x@),
{
    assert(trees_of(v.push(x)) =~= trees_of(v).push(x@));
}

pub proof fn lemma_insts_push(v: Seq<OwnedInstruction>, x: OwnedInstruction)
    ensures
        insts_view(v.push(x)) == insts_view(v).push(x@),
{
    assert(insts_view(v.push(x)) =~= insts_view(v).push(x@));
}


/// A copy of an instruction.
pub(crate) fn copy_instruction(inst: &OwnedInstruction) -> (r: OwnedInstruction)
    ensures
        r@ == inst@,
{
    match inst {
        OwnedInstruction::Op(op) => OwnedInstruction::Op(*op),
        OwnedInstruction::PushBytes(bytes) => {
            let copied = bytes.clone();
            assert(copied@ =~= bytes@);
            OwnedInstruction::PushBytes(copied)
        },
    }
}


/// Why a script could not be read or written.
#[derive(Clone, Copy, Debug, PartialEq, Eq, Structural)]
pub enum ScriptError {
    /// The bytes end inside a push.
    MalformedScript,
    /// `IF`, `NOTIF`, `ELSE` and `ENDIF` do not nest.
    UnbalancedControl,
    /// A push holds more than 65535 bytes.
    PushTooLarge,
}


/// The instructions of a tree in order, with `IF`, `NOTIF`, `ELSE` and
/// `ENDIF` around the blocks.
pub open spec fn flatten(t: Tree) -> Seq<Inst>
    decreases t,
{
    match t {
        Tree::Leaf(s) => s,
        Tree::Multi(cs) => flatten_seq(cs),
        Tree::If(b) => seq![Inst::Op(OP_IF)] + flatten(*b) + seq![Inst::Op(OP_ENDIF)],
        Tree::NotIf(b) => seq![Inst::Op(OP_NOTIF)] + flatten(*b) + seq![Inst::Op(OP_ENDIF)],
        Tree::IfElse(a, b) => seq![Inst::Op(OP_IF)] + flatten(*a) + seq![Inst::Op(OP_ELSE)]
            + flatten(*b) + seq![Inst::Op(OP_ENDIF)],
        Tree::NotIfElse(a, b) => seq![Inst::Op(OP_NOTIF)] + flatten(*a) + seq![Inst::Op(OP_ELSE)]
            + flatten(*b) + seq![Inst::Op(OP_ENDIF)],
    }
}

pub open spec fn flatten_seq(cs: Seq<Tree>) -> Seq<Inst>
    decreases cs,
{
    if cs.len() == 0 {
        Seq::empty()
    } else {
        flatten_seq(cs.subrange(0, cs.len() - 1)) + flatten(cs[cs.len() - 1])
    }
}

/// Whether the instruction opens, divides or closes a conditional block.
pub open spec fn is_control(i: Inst) -> bool {
    ||| i == Inst::Op(OP_IF)
    ||| i == Inst::Op(OP_NOTIF)
    ||| i == Inst::Op(OP_ELSE)
    ||| i == Inst::Op(OP_ENDIF)
}

/// Non-empty straight-line code.
pub open spec fn plain_code(s: Seq<Inst>) -> bool {
    s.len() > 0 && forall|j: int| 0 <= j < s.len() ==> !is_control(s[j])
}

/// A part of a parsed block: non-empty straight-line code, or a conditional
/// whose branches are parsed blocks.
pub open spec fn parsed_item(t: Tree) -> bool
    decreases t, 0nat,
{
    match t {
        Tree::Leaf(s) => plain_code(s),
        Tree::Multi(_) => false,
        Tree::If(b) => parsed_body(*b),
        Tree::NotIf(b) => parsed_body(*b),
        Tree::IfElse(a, b) => parsed_body(*a) && parsed_body(*b),
        Tree::NotIfElse(a, b) => parsed_body(*a) && parsed_body(*b),
    }
}

/// A parsed block: one part on its own, or a sequence of any other number of
/// parts.
pub open spec fn parsed_body(t: Tree) -> bool
    decreases t, 1nat,
{
    match t {
        Tree::Multi(cs) => cs.len() != 1 && parsed_items(cs),
        _ => parsed_item(t),
    }
}

/// Parts of a parsed block, no two pieces of straight-line code side by side.
pub open spec fn parsed_items(cs: Seq<Tree>) -> bool
    decreases cs, 0nat,
{
    if cs.len() == 0 {
        true
    } else {
        let front = cs.subrange(0, cs.len() - 1);
        let last = cs[cs.len() - 1];
        &&& parsed_items(front)
        &&& parsed_item(last)
        &&& !(front.len() > 0 && front[front.len() - 1] is Leaf && last is Leaf)
    }
}

/// Whether the instructions close every block that `open` and they open, with
/// at most one `ELSE` in each; `open` records for each open block whether its
/// `ELSE` has come.
pub open spec fn nesting_ok(s: Seq<Inst>, open: Seq<bool>) -> bool
    decreases s.len(),
{
    if s.len() == 0 {
        open.len() == 0
    } else {
        let rest = s.subrange(1, s.len() as int);
        if s[0] == Inst::Op(OP_IF) || s[0] == Inst::Op(OP_NOTIF) {
            nesting_ok(rest, open.push(false))
        } else if s[0] == Inst::Op(OP_ELSE) {
            open.len() > 0 && !open[open.len() - 1] && nesting_ok(
                rest,
                open.update(open.len() - 1, true),
            )
        } else if s[0] == Inst::Op(OP_ENDIF) {
            open.len() > 0 && nesting_ok(rest, open.subrange(0, open.len() - 1))
        } else {
            nesting_ok(rest, open)
        }
    }
}

/// Whether `IF`, `NOTIF`, `ELSE` and `ENDIF` nest in the instructions.
pub open spec fn balanced(s: Seq<Inst>) -> bool {
    nesting_ok(s, Seq::empty())
}

proof fn lemma_suffix_step(s: Seq<Inst>, p: int)
    requires
        0 <= p < s.len(),
    ensures
        s.subrange(p, s.len() as int).len() > 0,
        s.subrange(p, s.len() as int)[0] == s[p],
        s.subrange(p, s.len() as int).subrange(1, s.len() - p) == s.subrange(p + 1, s.len() as int),
{
    assert(s.subrange(p, s.len() as int).subrange(1, s.len() - p) =~= s.subrange(
        p + 1,
        s.len() as int,
    ));
}

pub proof fn lemma_flatten_push(cs: Seq<Tree>, x: Tree)
    ensures
        flatten_seq(cs.push(x)) == flatten_seq(cs) + flatten(x),
        parsed_items(cs.push(x)) == (parsed_items(cs) && parsed_item(x) && !(cs.len() > 0
            && cs[cs.len() - 1] is Leaf && x is Leaf)),
{
    assert(cs.push(x).subrange(0, cs.len() as int) =~= cs);
}

pub proof fn lemma_flatten_single(x: Tree)
    ensures
        flatten_seq(seq![x]) == flatten(x),
        parsed_items(seq![x]) == parsed_item(x),
{
    lemma_flatten_push(Seq::empty(), x);
    assert(Seq::<Tree>::empty().push(x) =~= seq![x]);
    assert(flatten_seq(Seq::<Tree>::empty()) =~= Seq::<Inst>::empty());
}

/// Parses the block that starts at `start`, up to the end of the list or to
/// the `ELSE` or `ENDIF` that ends it, which it does not consume.
fn create_structured_script(insts: &Vec<OwnedInstruction>, start: usize) -> (r: Result<
    (StructuredScript, usize),
    ScriptError,
>)
    requires
        start <= insts.len(),
    ensures
        ({
            let s = insts_view(insts@);
            let n = s.len() as int;
            match r {
                Ok((t, end)) => {
                    &&& start <= end <= n
                    &&& end < n ==> s[end as int] == Inst::Op(OP_ELSE) || s[end as int]
                        == Inst::Op(OP_ENDIF)
                    &&& parsed_body(t@)
                    &&& flatten(t@) == s.subrange(start as int, end as int)
                    &&& forall|open: Seq<bool>|
                        #[trigger] nesting_ok(s.subrange(start as int, n), open) == nesting_ok(
                            s.subrange(end as int, n),
                            open,
                        )
                },
                Err(e) => {
                    &&& e == ScriptError::UnbalancedControl
                    &&& forall|open: Seq<bool>| !#[trigger] nesting_ok(s.subrange(start as int, n), open)
                },
            }
        }),
    decreases insts.len() - start, 1nat,
{
    let ghost s = insts_view(insts@);
    let n = insts.len();
    let mut p = start;
    let mut cur: Vec<OwnedInstruction> = Vec::new();
    let mut all: Vec<StructuredScript> = Vec::new();
    while p < n && !is_op(&insts[p], OP_ELSE) && !is_op(&insts[p], OP_ENDIF)
        invariant
            start <= p <= n,
            n == insts.len(),
            s == insts_view(insts@),
            flatten_seq(trees_of(all@)) + insts_view(cur@) == s.subrange(start as int, p as int),
            parsed_items(trees_of(all@)),
            all.len() > 0 ==> !(trees_of(all@)[all.len() - 1] is Leaf),
            forall|j: int| 0 <= j < cur.len() ==> !is_control(insts_view(cur@)[j]),
            forall|open: Seq<bool>|
                #[trigger] nesting_ok(s.subrange(start as int, n as int), open) == nesting_ok(
                    s.subrange(p as int, n as int),
                    open,
                ),
        decreases n - p,
    {
        proof {
            lemma_suffix_step(s, p as int);
        }
        if is_op(&insts[p], OP_IF) || is_op(&insts[p], OP_NOTIF) {
            let (node, next) = match parse_conditional(insts, p) {
                Err(e) => {
                    return Err(e);
                },
                Ok(found) => found,
            };
            if cur.len() > 0 {
                let mut code: Vec<OwnedInstruction> = Vec::new();
                std::mem::swap(&mut cur, &mut code);
                let piece = leaf(code);
                proof {
                    lemma_flatten_push(trees_of(all@), piece@);
                    lemma_trees_push(all@, piece);
                }
                all.push(piece);
            }
            proof {
                lemma_flatten_push(trees_of(all@), node@);
                lemma_trees_push(all@, node);
                assert(s.subrange(start as int, next as int) =~= s.subrange(start as int, p as int)
                    + s.subrange(p as int, next as int));
            }
            all.push(node);
            p = next;
            proof {
                assert(flatten_seq(trees_of(all@)) + insts_view(cur@) =~= s.subrange(
                    start as int,
                    p as int,
                ));
            }
        } else {
            let inst = copy_instruction(&insts[p]);
            proof {
                lemma_insts_push(cur@, inst);
            }
            cur.push(inst);
            p += 1;
            proof {
                assert(flatten_seq(trees_of(all@)) + insts_view(cur@) =~= s.subrange(
                    start as int,
                    p as int,
                ));
            }
        }
    }
    if cur.len() > 0 {
        let piece = leaf(cur);
        proof {
            lemma_flatten_push(trees_of(all@), piece@);
            lemma_trees_push(all@, piece);
        }
        all.push(piece);
    }
    if all.len() == 1 {
        proof {
            assert(trees_of(all@) =~= seq![all@[0]@]);
            lemma_flatten_single(all@[0]@);
        }
        let only = all.remove(0);
        Ok((only, p))
    } else {
        proof {
            lemma_multi_view(all);
        }
        Ok((StructuredScript::MultiScript(all), p))
    }
}

/// Parses the conditional block that starts with the `IF` or `NOTIF` at `p`,
/// through its `ENDIF`, and gives the position after it.
fn parse_conditional(insts: &Vec<OwnedInstruction>, p: usize) -> (r: Result<
    (StructuredScript, usize),
    ScriptError,
>)
    requires
        p < insts.len(),
        insts@[p as int]@ == Inst::Op(OP_IF) || insts@[p as int]@ == Inst::Op(OP_NOTIF),
    ensures
        ({
            let s = insts_view(insts@);
            let n = s.len() as int;
            match r {
                Ok((t, next)) => {
                    &&& p < next <= n
                    &&& parsed_item(t@)
                    &&& flatten(t@) == s.subrange(p as int, next as int)
                    &&& forall|open: Seq<bool>|
                        #[trigger] nesting_ok(s.subrange(p as int, n), open) == nesting_ok(
                            s.subrange(next as int, n),
                            open,
                        )
                },
                Err(e) => {
                    &&& e == ScriptError::UnbalancedControl
                    &&& forall|open: Seq<bool>| !#[trigger] nesting_ok(s.subrange(p as int, n), open)
                },
            }
        }),
    decreases insts.len() - p, 0nat,
{
    let ghost s = insts_view(insts@);
    let n = insts.len();
    proof {
        lemma_suffix_step(s, p as int);
    }
    let is_if = is_op(&insts[p], OP_IF);
    match create_structured_script(insts, p + 1) {
        Err(e) => {
            proof {
                assert forall|open: Seq<bool>|
                    !#[trigger] nesting_ok(s.subrange(p as int, n as int), open) by {
                    assert(!nesting_ok(s.subrange(p + 1, n as int), open.push(false)));
                }
            }
            return Err(e);
        },
        Ok((body, e1)) => {
            if e1 == n {
                proof {
                    assert forall|open: Seq<bool>|
                        !#[trigger] nesting_ok(s.subrange(p as int, n as int), open) by {
                        assert(nesting_ok(s.subrange(p + 1, n as int), open.push(false))
                            == nesting_ok(s.subrange(e1 as int, n as int), open.push(false)));
                    }
                }
                return Err(ScriptError::UnbalancedControl);
            }
            proof {
                lemma_suffix_step(s, e1 as int);
            }
            if is_op(&insts[e1], OP_ELSE) {
                match create_structured_script(insts, e1 + 1) {
                    Err(e) => {
                        proof {
                            assert forall|open: Seq<bool>|
                                !#[trigger] nesting_ok(
                                    s.subrange(p as int, n as int),
                                    open,
                                ) by {
                                let o1 = open.push(false);
                                assert(nesting_ok(s.subrange(p + 1, n as int), o1)
                                    == nesting_ok(s.subrange(e1 as int, n as int), o1));
                                assert(o1.update(o1.len() - 1, true) =~= open.push(true));
                                assert(!nesting_ok(
                                    s.subrange(e1 + 1, n as int),
                                    open.push(true),
                                ));
                            }
                        }
                        return Err(e);
                    },
                    Ok((other, e2)) => {
                        if e2 < n {
                            proof {
                                lemma_suffix_step(s, e2 as int);
                            }
                        }
                        if e2 == n || !is_op(&insts[e2], OP_ENDIF) {
                            proof {
                                assert forall|open: Seq<bool>|
                                    !#[trigger] nesting_ok(
                                        s.subrange(p as int, n as int),
                                        open,
                                    ) by {
                                    let o1 = open.push(false);
                                    let o2 = open.push(true);
                                    assert(nesting_ok(s.subrange(p + 1, n as int), o1)
                                        == nesting_ok(s.subrange(e1 as int, n as int), o1));
                                    assert(o1.update(o1.len() - 1, true) =~= o2);
                                    assert(nesting_ok(s.subrange(e1 + 1, n as int), o2)
                                        == nesting_ok(s.subrange(e2 as int, n as int), o2));
                                }
                            }
                            return Err(ScriptError::UnbalancedControl);
                        }
                        proof {
                            assert forall|open: Seq<bool>|
                                #[trigger] nesting_ok(
                                    s.subrange(p as int, n as int),
                                    open,
                                ) == nesting_ok(s.subrange(e2 + 1, n as int), open) by {
                                let o1 = open.push(false);
                                let o2 = open.push(true);
                                assert(nesting_ok(s.subrange(p + 1, n as int), o1)
                                    == nesting_ok(s.subrange(e1 as int, n as int), o1));
                                assert(o1.update(o1.len() - 1, true) =~= o2);
                                assert(nesting_ok(s.subrange(e1 + 1, n as int), o2)
                                    == nesting_ok(s.subrange(e2 as int, n as int), o2));
                                assert(o2.subrange(0, o2.len() - 1) =~= open);
                            }
                        }
                        let node = if is_if {
                            StructuredScript::IfElseEndIf(Box::new(body), Box::new(other))
                        } else {
                            StructuredScript::NotIfElseEndIf(
                                Box::new(body),
                                Box::new(other),
                            )
                        };
                        proof {
                            assert(flatten(node@) =~= s.subrange(p as int, e2 + 1));
                        }
                        Ok((node, e2 + 1))
                    },
                }
            } else {
                proof {
                    assert forall|open: Seq<bool>|
                        #[trigger] nesting_ok(s.subrange(p as int, n as int), open)
                            == nesting_ok(s.subrange(e1 + 1, n as int), open) by {
                        let o1 = open.push(false);
                        assert(nesting_ok(s.subrange(p + 1, n as int), o1) == nesting_ok(
                            s.subrange(e1 as int, n as int),
                            o1,
                        ));
                        assert(o1.subrange(0, o1.len() - 1) =~= open);
                    }
                }
                let node = if is_if {
                    StructuredScript::IfEndIf(Box::new(body))
                } else {
                    StructuredScript::NotIfEndIf(Box::new(body))
                };
                proof {
                    assert(flatten(node@) =~= s.subrange(p as int, e1 + 1));
                }
                Ok((node, e1 + 1))
            }
        },
    }
}

impl StructuredScript {
    /// Builds the tree of a list of instructions by matching each `IF` or
    /// `NOTIF` with its optional `ELSE` and its `ENDIF`.
    pub fn from_instructions(insts: &OwnedInstructions) -> (r: Result<StructuredScript, ScriptError>)
        ensures
            r is Ok <==> balanced(insts@),
            r is Ok ==> parsed_body(r->Ok_0@) && flatten(r->Ok_0@) == insts@,
            r is Err ==> r->Err_0 == ScriptError::UnbalancedControl,
    {
        let ghost s = insts@;
        proof {
            assert(s.subrange(0, s.len() as int) =~= s);
        }
        match create_structured_script(&insts.0, 0) {
            Err(e) => Err(e),
            Ok((t, end)) => {
                proof {
                    assert(s.subrange(0, s.len() as int) =~= s);
                    assert(nesting_ok(s.subrange(0, s.len() as int), Seq::empty())
                        == nesting_ok(s.subrange(end as int, s.len() as int), Seq::empty()));
                }
                if end < insts.0.len() {
                    proof {
                        lemma_suffix_step(s, end as int);
                    }
                    Err(ScriptError::UnbalancedControl)
                } else {
                    Ok(t)
                }
            },
        }
    }
}


/// Writes the instructions of `structure` after those already in `out`.
fn write_script_buf(out: &mut Vec<OwnedInstruction>, structure: &StructuredScript)
    ensures
        insts_view(final(out)@) == insts_view(old(out)@) + flatten(structure@),
    decreases structure,
{
    let ghost start = insts_view(out@);
    match structure {
        StructuredScript::Script(v) => {
            let n = v.0.len();
            let mut i: usize = 0;
            while i < n
                invariant
                    i <= n,
                    n == v.0.len(),
                    insts_view(out@) == start + v@.subrange(0, i as int),
                decreases n - i,
            {
                let inst = copy_instruction(&v.0[i]);
                proof {
                    lemma_insts_push(out@, inst);
                }
                out.push(inst);
                i += 1;
                proof {
                    assert(insts_view(out@) =~= start + v@.subrange(0, i as int));
                }
            }
            proof {
                assert(v@.subrange(0, n as int) =~= v@);
            }
        },
        StructuredScript::MultiScript(vv) => {
            proof {
                lemma_multi_view(*vv);
            }
            let ghost cs = trees_of(vv@);
            let n = vv.len();
            let mut i: usize = 0;
            while i < n
                invariant
                    i <= n,
                    n == vv.len(),
                    cs == trees_of(vv@),
                    structure == StructuredScript::MultiScript(*vv),
                    insts_view(out@) == start + flatten_seq(cs.subrange(0, i as int)),
                decreases n - i,
            {
                proof {
                    assert(decreases_to!(vv => vv[i as int]));
                    assert(decreases_to!(*structure => structure->MultiScript_0));
                    assert(cs.subrange(0, i + 1).subrange(0, i as int) =~= cs.subrange(0, i as int));
                }
                write_script_buf(out, &vv[i]);
                i += 1;
            }
            proof {
                assert(cs.subrange(0, n as int) =~= cs);
            }
        },
        StructuredScript::IfEndIf(b) => {
            push_op(out, OP_IF);
            write_script_buf(out, b);
            push_op(out, OP_ENDIF);
            proof {
                assert(insts_view(out@) =~= start + flatten(structure@));
            }
        },
        StructuredScript::NotIfEndIf(b) => {
            push_op(out, OP_NOTIF);
            write_script_buf(out, b);
            push_op(out, OP_ENDIF);
            proof {
                assert(insts_view(out@) =~= start + flatten(structure@));
            }
        },
        StructuredScript::IfElseEndIf(a, b) => {
            push_op(out, OP_IF);
            write_script_buf(out, a);
            push_op(out, OP_ELSE);
            write_script_buf(out, b);
            push_op(out, OP_ENDIF);
            proof {
                assert(insts_view(out@) =~= start + flatten(structure@));
            }
        },
        StructuredScript::NotIfElseEndIf(a, b) => {
            push_op(out, OP_NOTIF);
            write_script_buf(out, a);
            push_op(out, OP_ELSE);
            write_script_buf(out, b);
            push_op(out, OP_ENDIF);
            proof {
                assert(insts_view(out@) =~= start + flatten(structure@));
            }
        },
    }
}

fn push_op(out: &mut Vec<OwnedInstruction>, op: u8)
    ensures
        insts_view(final(out)@) == insts_view(old(out)@).push(Inst::Op(op)),
{
    proof {
        lemma_insts_push(out@, OwnedInstruction::Op(op));
    }
    out.push(OwnedInstruction::Op(op));
}

impl StructuredScript {
    /// The instructions of the tree in order, with the block delimiters.
    pub fn to_instructions(&self) -> (r: OwnedInstructions)
        ensures
            r@ == flatten(self@),
    {
        let mut out: Vec<OwnedInstruction> = Vec::new();
        write_script_buf(&mut out, self);
        proof {
            assert(insts_view(Seq::<OwnedInstruction>::empty()) =~= Seq::<Inst>::empty());
            assert(Seq::<Inst>::empty() + flatten(self@) =~= flatten(self@));
        }
        OwnedInstructions(out)
    }
}

} // verus!
