//! Reading script bytes into instructions and writing instructions as bytes.
use crate::opcodes::{OP_PUSHBYTES_0, OP_PUSHBYTES_75, OP_PUSHDATA1, OP_PUSHDATA2, OP_PUSHDATA4};
use crate::structured_script::{
    balanced, flatten, insts_view, lemma_insts_push, parsed_body, Inst, OwnedInstruction,
    OwnedInstructions, ScriptError, StructuredScript,
};
use vstd::prelude::*;

verus! {

/// The number that bytes give when read little-endian.
pub open spec fn le_value(b: Seq<u8>) -> nat
    decreases b.len(),
{
    if b.len() == 0 {
        0
    } else {
        b[0] as nat + 256 * le_value(b.subrange(1, b.len() as int))
    }
}

/// How many length bytes follow the opcode `op` before the pushed data.
pub open spec fn length_width(op: u8) -> nat {
    if op == OP_PUSHDATA1 {
        1
    } else if op == OP_PUSHDATA2 {
        2
    } else if op == OP_PUSHDATA4 {
        4
    } else {
        0
    }
}

/// The instruction at the start of `b` and how many bytes it takes, or `None`
/// where a push runs past the end of `b`.
pub open spec fn decode_step(b: Seq<u8>) -> Option<(Inst, nat)>
    recommends
        b.len() > 0,
{
    let op = b[0];
    let w = length_width(op) as int;
    if op <= OP_PUSHBYTES_75 {
        if b.len() >= 1 + op {
            Some((Inst::Push(b.subrange(1, 1 + op)), (1 + op) as nat))
        } else {
            None
        }
    } else if w > 0 {
        if b.len() < 1 + w {
            None
        } else {
            let n = le_value(b.subrange(1, 1 + w)) as int;
            if b.len() < 1 + w + n {
                None
            } else {
                Some((Inst::Push(b.subrange(1 + w, 1 + w + n)), (1 + w + n) as nat))
            }
        }
    } else {
        Some((Inst::Op(op), 1))
    }
}

/// The instructions that the bytes `b` hold, or `None` where a push runs past
/// the end.
pub open spec fn decode_bytes(b: Seq<u8>) -> Option<Seq<Inst>>
    decreases b.len(),
{
    if b.len() == 0 {
        Some(Seq::empty())
    } else {
        match decode_step(b) {
            None => None,
            Some((inst, used)) => match decode_bytes(b.subrange(used as int, b.len() as int)) {
                None => None,
                Some(rest) => Some(seq![inst] + rest),
            },
        }
    }
}

/// The empty push written as the opcode that pushes it.
pub open spec fn normalized_inst(i: Inst) -> Inst {
    if i == Inst::Push(Seq::empty()) {
        Inst::Op(OP_PUSHBYTES_0)
    } else {
        i
    }
}

pub open spec fn normalized(s: Seq<Inst>) -> Seq<Inst> {
    s.map_values(|i: Inst| normalized_inst(i))
}

/// Relies on `bitcoin::Script::instructions` (the form that accepts non-minimal
/// pushes): each push opcode with the bytes it pushes, each other byte as an
/// opcode, and an error at the first push whose data runs past the end.
#[verifier::external_body]
fn script_instructions(bytes: &[u8]) -> (r: Option<Vec<OwnedInstruction>>)
    ensures
        r is Some <==> decode_bytes(bytes@) is Some,
        r is Some ==> decode_bytes(bytes@) == Some(insts_view(r->0@)),
{
    let mut out = Vec::new();
    for step in bitcoin::Script::from_bytes(bytes).instructions() {
        match step {
            Ok(bitcoin::script::Instruction::Op(op)) => out.push(OwnedInstruction::Op(op.to_u8())),
            Ok(bitcoin::script::Instruction::PushBytes(p)) => out.push(
                OwnedInstruction::PushBytes(p.as_bytes().to_vec()),
            ),
            Err(_) => return None,
        }
    }
    Some(out)
}

/// Bytes written for one instruction, or `None` for a push over 65535 bytes.
pub open spec fn encode_inst(i: Inst) -> Option<Seq<u8>> {
    match i {
        Inst::Op(op) => Some(seq![op]),
        Inst::Push(d) => {
            let n = d.len();
            if n == 0 {
                Some(seq![OP_PUSHBYTES_0])
            } else if n <= 75 {
                Some(seq![n as u8] + d)
            } else if n <= 255 {
                Some(seq![OP_PUSHDATA1, n as u8] + d)
            } else if n <= 65535 {
                Some(seq![OP_PUSHDATA2, (n % 256) as u8, (n / 256) as u8] + d)
            } else {
                None
            }
        },
    }
}

/// Bytes written for a list of instructions, or `None` if one cannot be written.
pub open spec fn encode_insts(s: Seq<Inst>) -> Option<Seq<u8>>
    decreases s.len(),
{
    if s.len() == 0 {
        Some(Seq::empty())
    } else {
        match (encode_insts(s.subrange(0, s.len() - 1)), encode_inst(s[s.len() - 1])) {
            (Some(front), Some(last)) => Some(front + last),
            _ => None,
        }
    }
}

fn append_bytes(buf: &mut Vec<u8>, data: &Vec<u8>)
    ensures
        final(buf)@ == old(buf)@ + data@,
{
    let n = data.len();
    let mut i: usize = 0;
    let ghost start = buf@;
    while i < n
        invariant
            i <= n,
            n == data.len(),
            buf@ == start + data@.subrange(0, i as int),
        decreases n - i,
    {
        buf.push(data[i]);
        i += 1;
        proof {
            assert(buf@ =~= start + data@.subrange(0, i as int));
        }
    }
    proof {
        assert(data@.subrange(0, n as int) =~= data@);
    }
}

fn encode_instruction(buf: &mut Vec<u8>, inst: &OwnedInstruction) -> (r: bool)
    ensures
        r == (encode_inst(inst@) is Some),
        r ==> final(buf)@ == old(buf)@ + encode_inst(inst@)->0,
{
    match inst {
        OwnedInstruction::Op(op) => {
            buf.push(*op);
            true
        },
        OwnedInstruction::PushBytes(data) => {
            let len = data.len();
            if len == 0 {
                buf.push(OP_PUSHBYTES_0);
                true
            } else if len <= 75 {
                buf.push(len as u8);
                let ghost mid = buf@;
                append_bytes(buf, data);
                proof {
                    assert(buf@ =~= old(buf)@ + encode_inst(inst@)->0);
                }
                true
            } else if len <= 255 {
                buf.push(OP_PUSHDATA1);
                buf.push(len as u8);
                append_bytes(buf, data);
                proof {
                    assert(buf@ =~= old(buf)@ + encode_inst(inst@)->0);
                }
                true
            } else if len <= 65535 {
                buf.push(OP_PUSHDATA2);
                buf.push((len % 256) as u8);
                buf.push((len / 256) as u8);
                append_bytes(buf, data);
                proof {
                    assert(buf@ =~= old(buf)@ + encode_inst(inst@)->0);
                }
                true
            } else {
                false
            }
        },
    }
}

impl OwnedInstructions {
    /// Reads script bytes into instructions. An empty push comes out as the
    /// opcode `OP_PUSHBYTES_0`.
    pub fn from_bytes(bytes: &[u8]) -> (r: Result<OwnedInstructions, ScriptError>)
        ensures
            match r {
                Ok(insts) => decode_bytes(bytes@) is Some && insts@ == normalized(
                    decode_bytes(bytes@)->0,
                ),
                Err(e) => decode_bytes(bytes@) is None && e == ScriptError::MalformedScript,
            },
    {
        match script_instructions(bytes) {
            None => Err(ScriptError::MalformedScript),
            Some(raw) => {
                let ghost s = insts_view(raw@);
                let n = raw.len();
                let mut out: Vec<OwnedInstruction> = Vec::new();
                let mut raw = raw;
                let mut i: usize = 0;
                while i < n
                    invariant
                        i <= n,
                        n == raw.len(),
                        s == insts_view(raw@),
                        insts_view(out@) == normalized(s.subrange(0, i as int)),
                    decreases n - i,
                {
                    let inst = match &raw[i] {
                        OwnedInstruction::PushBytes(data) => if data.len() == 0 {
                            OwnedInstruction::Op(OP_PUSHBYTES_0)
                        } else {
                            copy_push(data)
                        },
                        OwnedInstruction::Op(op) => OwnedInstruction::Op(*op),
                    };
                    proof {
                        if let OwnedInstruction::PushBytes(data) = &raw[i as int] {
                            if data.len() == 0 {
                                assert(data@ =~= Seq::<u8>::empty());
                            }
                        }
                        assert(inst@ == normalized_inst(s[i as int]));
                        lemma_insts_push(out@, inst);
                    }
                    out.push(inst);
                    i += 1;
                    proof {
                        assert(insts_view(out@) =~= normalized(s.subrange(0, i as int)));
                    }
                }
                proof {
                    assert(s.subrange(0, n as int) =~= s);
                }
                Ok(OwnedInstructions(out))
            },
        }
    }

    /// Writes the instructions as script bytes.
    pub fn to_bytes(&self) -> (r: Result<Vec<u8>, ScriptError>)
        ensures
            match r {
                Ok(bytes) => encode_insts(self@) == Some(bytes@),
                Err(e) => encode_insts(self@) is None && e == ScriptError::PushTooLarge,
            },
    {
        let ghost s = self@;
        let n = self.0.len();
        let mut buf: Vec<u8> = Vec::new();
        let mut i: usize = 0;
        while i < n
            invariant
                i <= n,
                n == self.0.len(),
                s == self@,
                encode_insts(s.subrange(0, i as int)) == Some(buf@),
            decreases n - i,
        {
            proof {
                assert(s.subrange(0, i + 1).subrange(0, i as int) =~= s.subrange(0, i as int));
            }
            if !encode_instruction(&mut buf, &self.0[i]) {
                proof {
                    lemma_encode_prefix_fails(s, i as int);
                }
                return Err(ScriptError::PushTooLarge);
            }
            i += 1;
        }
        proof {
            assert(s.subrange(0, n as int) =~= s);
        }
        Ok(buf)
    }
}

fn copy_push(data: &Vec<u8>) -> (r: OwnedInstruction)
    ensures
        r@ == Inst::Push(data@),
{
    let copied = data.clone();
    assert(copied@ =~= data@);
    OwnedInstruction::PushBytes(copied)
}

/// Once an instruction cannot be written, no longer list that holds it can be.
proof fn lemma_encode_prefix_fails(s: Seq<Inst>, i: int)
    requires
        0 <= i < s.len(),
        encode_inst(s[i]) is None,
    ensures
        encode_insts(s) is None,
    decreases s.len(),
{
    if i < s.len() - 1 {
        let front = s.subrange(0, s.len() - 1);
        assert(front[i] == s[i]);
        lemma_encode_prefix_fails(front, i);
    }
}

impl StructuredScript {
    /// Reads script bytes into a tree.
    pub fn from_bytes(bytes: &[u8]) -> (r: Result<StructuredScript, ScriptError>)
        ensures
            decode_bytes(bytes@) is None ==> r == Err::<StructuredScript, ScriptError>(
                ScriptError::MalformedScript,
            ),
            decode_bytes(bytes@) is Some && !balanced(normalized(decode_bytes(bytes@)->0)) ==> r
                == Err::<StructuredScript, ScriptError>(ScriptError::UnbalancedControl),
            decode_bytes(bytes@) is Some && balanced(normalized(decode_bytes(bytes@)->0)) ==> {
                &&& r is Ok
                &&& parsed_body(r->Ok_0@)
                &&& flatten(r->Ok_0@) == normalized(decode_bytes(bytes@)->0)
            },
    {
        match OwnedInstructions::from_bytes(bytes) {
            Err(e) => Err(e),
            Ok(insts) => StructuredScript::from_instructions(&insts),
        }
    }

    /// Writes the tree as script bytes.
    pub fn to_bytes(&self) -> (r: Result<Vec<u8>, ScriptError>)
        ensures
            match r {
                Ok(bytes) => encode_insts(flatten(self@)) == Some(bytes@),
                Err(e) => encode_insts(flatten(self@)) is None && e == ScriptError::PushTooLarge,
            },
    {
        self.to_instructions().to_bytes()
    }
}

/// An instruction in the form that reading bytes gives after the empty push
/// is written as its opcode: a non-empty push, `OP_PUSHBYTES_0`, or an opcode
/// that pushes nothing.
pub open spec fn canonical_inst(i: Inst) -> bool {
    match i {
        Inst::Op(op) => op == OP_PUSHBYTES_0 || op > OP_PUSHDATA4,
        Inst::Push(d) => d.len() > 0,
    }
}

/// The instructions read from any bytes are canonical.
pub proof fn lemma_decoded_canonical(b: Seq<u8>)
    requires
        decode_bytes(b) is Some,
    ensures
        forall|j: int|
            0 <= j < normalized(decode_bytes(b)->0).len() ==> canonical_inst(
                #[trigger] normalized(decode_bytes(b)->0)[j],
            ),
    decreases b.len(),
{
    if b.len() > 0 {
        let (inst, used) = decode_step(b)->0;
        let rest = b.subrange(used as int, b.len() as int);
        lemma_decoded_canonical(rest);
        let d = decode_bytes(b)->0;
        assert(d == seq![inst] + decode_bytes(rest)->0);
        assert forall|j: int| 0 <= j < normalized(d).len() implies canonical_inst(
            #[trigger] normalized(d)[j],
        ) by {
            if j > 0 {
                assert(normalized(d)[j] == normalized(decode_bytes(rest)->0)[j - 1]);
            } else {
                if let Inst::Push(data) = inst {
                    if data.len() == 0 {
                        assert(data =~= Seq::<u8>::empty());
                    }
                }
            }
        }
    }
}

proof fn lemma_encode_append(a: Seq<Inst>, b: Seq<Inst>)
    requires
        encode_insts(a + b) is Some,
    ensures
        encode_insts(a) is Some,
        encode_insts(b) is Some,
        encode_insts(a + b)->0 == encode_insts(a)->0 + encode_insts(b)->0,
    decreases b.len(),
{
    if b.len() == 0 {
        assert(a + b =~= a);
        assert(encode_insts(b)->0 =~= Seq::<u8>::empty());
        assert(encode_insts(a)->0 + encode_insts(b)->0 =~= encode_insts(a)->0);
    } else {
        let b1 = b.subrange(0, b.len() - 1);
        assert((a + b).subrange(0, (a + b).len() - 1) =~= a + b1);
        assert((a + b)[(a + b).len() - 1] == b[b.len() - 1]);
        lemma_encode_append(a, b1);
        assert(encode_insts(a + b)->0 =~= encode_insts(a)->0 + encode_insts(b)->0);
    }
}

proof fn lemma_decode_step_of_encoded(i: Inst, r: Seq<u8>)
    requires
        canonical_inst(i),
        encode_inst(i) is Some,
    ensures
        match decode_step(encode_inst(i)->0 + r) {
            Some((inst, used)) => used == encode_inst(i)->0.len() && normalized_inst(inst) == i,
            None => false,
        },
{
    let e = encode_inst(i)->0;
    let b = e + r;
    match i {
        Inst::Op(op) => {
            if op == OP_PUSHBYTES_0 {
                assert(b.subrange(1, 1) =~= Seq::<u8>::empty());
            }
        },
        Inst::Push(d) => {
            let n = d.len() as int;
            if n <= 75 {
                assert(b.subrange(1, 1 + n) =~= d);
            } else if n <= 255 {
                assert(b.subrange(1, 2) =~= seq![n as u8]);
                assert(le_value(seq![n as u8]) == n) by {
                    assert(seq![n as u8].subrange(1, 1) =~= Seq::<u8>::empty());
                    assert(le_value(Seq::<u8>::empty()) == 0);
                }
                assert(b.subrange(2, 2 + n) =~= d);
            } else {
                let lo = (n % 256) as u8;
                let hi = (n / 256) as u8;
                assert(b.subrange(1, 3) =~= seq![lo, hi]);
                assert(le_value(seq![lo, hi]) == n) by {
                    assert(seq![lo, hi].subrange(1, 2) =~= seq![hi]);
                    assert(seq![hi].subrange(1, 1) =~= Seq::<u8>::empty());
                    assert(le_value(Seq::<u8>::empty()) == 0);
                    assert(le_value(seq![hi]) == hi);
                    assert(lo + 256 * hi == n);
                }
                assert(b.subrange(3, 3 + n) =~= d);
            }
        },
    }
}

/// Reading back the bytes written for canonical instructions gives them again.
pub proof fn lemma_decode_encoded(s: Seq<Inst>)
    requires
        forall|j: int| 0 <= j < s.len() ==> canonical_inst(#[trigger] s[j]),
        encode_insts(s) is Some,
    ensures
        decode_bytes(encode_insts(s)->0) is Some,
        normalized(decode_bytes(encode_insts(s)->0)->0) == s,
    decreases s.len(),
{
    if s.len() == 0 {
        assert(encode_insts(s)->0 =~= Seq::<u8>::empty());
        assert(normalized(Seq::<Inst>::empty()) =~= s);
    } else {
        let i = s[0];
        let rest = s.subrange(1, s.len() as int);
        assert(s =~= seq![i] + rest);
        lemma_encode_append(seq![i], rest);
        assert(seq![i].subrange(0, 0) =~= Seq::<Inst>::empty());
        assert(encode_insts(Seq::<Inst>::empty()) == Some(Seq::<u8>::empty()));
        let e = encode_inst(i)->0;
        assert(encode_insts(seq![i])->0 =~= e);
        let er = encode_insts(rest)->0;
        let b = encode_insts(s)->0;
        assert(b == e + er);
        lemma_decode_step_of_encoded(i, er);
        lemma_decode_encoded(rest);
        assert(b.subrange(e.len() as int, b.len() as int) =~= er);
        let d = decode_bytes(b)->0;
        assert(normalized(d) =~= s);
    }
}

} // verus!
