use bitcoin::opcodes::all::{
    OP_1SUB, OP_DEPTH, OP_ELSE, OP_ENDIF, OP_EQUAL, OP_IF, OP_PICK, OP_RETURN, OP_RETURN_199,
    OP_RETURN_200,
};
use bitcoin::script::{Builder, Instruction, Script};
use op_success::code_cleanup::find_op_return_true_cleanup;
use op_success::final_emit::append_final_emit_script;
use op_success::op_return_true_to_op_if_return_true::op_return_true_to_op_if_return_true;
use op_success::reduce::{reduce, EmitOpIfSuccess};
use op_success::structured_script::StructuredScript;
use op_success::{compile, OP_IF_RETURN_TRUE, OP_RETURN_TRUE};

#[derive(Debug, PartialEq)]
enum ExecError {
    OpReturn,
    EvalFalse,
    CleanStack,
    InvalidStackOperation,
    UnbalancedConditional,
    BadOpcode(u8),
}

fn truthy(v: &[u8]) -> bool {
    for (i, b) in v.iter().enumerate() {
        if *b != 0 {
            return !(i == v.len() - 1 && *b == 0x80);
        }
    }
    false
}

fn to_num(v: &[u8]) -> i64 {
    if v.is_empty() {
        return 0;
    }
    let mut n: i64 = 0;
    for (i, b) in v.iter().enumerate() {
        n |= (*b as i64) << (8 * i);
    }
    let last = v[v.len() - 1];
    if last & 0x80 != 0 {
        -(n & !(0x80i64 << (8 * (v.len() - 1))))
    } else {
        n
    }
}

fn from_num(n: i64) -> Vec<u8> {
    if n == 0 {
        return vec![];
    }
    let neg = n < 0;
    let mut abs = n.unsigned_abs();
    let mut out = vec![];
    while abs > 0 {
        out.push((abs & 0xff) as u8);
        abs >>= 8;
    }
    if out[out.len() - 1] & 0x80 != 0 {
        out.push(if neg { 0x80 } else { 0 });
    } else if neg {
        let last = out.len() - 1;
        out[last] |= 0x80;
    }
    out
}

fn pop(stack: &mut Vec<Vec<u8>>) -> Result<Vec<u8>, ExecError> {
    stack.pop().ok_or(ExecError::InvalidStackOperation)
}

/// Runs a script on a witness stack, with the clean-stack rule of tapscript.
fn execute(script: &[u8], witness: Vec<Vec<u8>>) -> Result<(), ExecError> {
    let mut stack = witness;
    let mut exec: Vec<bool> = vec![];
    for inst in Script::from_bytes(script).instructions() {
        let inst = inst.map_err(|_| ExecError::BadOpcode(0))?;
        let running = exec.iter().all(|e| *e);
        let op = match inst {
            Instruction::PushBytes(p) => {
                if running {
                    stack.push(p.as_bytes().to_vec());
                }
                continue;
            }
            Instruction::Op(op) => op.to_u8(),
        };
        match op {
            0x63 | 0x64 => {
                let mut cond = false;
                if running {
                    cond = truthy(&pop(&mut stack)?);
                    if op == 0x64 {
                        cond = !cond;
                    }
                }
                exec.push(cond);
                continue;
            }
            0x67 => {
                let top = exec.pop().ok_or(ExecError::UnbalancedConditional)?;
                exec.push(!top);
                continue;
            }
            0x68 => {
                exec.pop().ok_or(ExecError::UnbalancedConditional)?;
                continue;
            }
            _ => {}
        }
        if !running {
            continue;
        }
        match op {
            0x4f => stack.push(from_num(-1)),
            0x51..=0x60 => stack.push(from_num(op as i64 - 0x50)),
            0x6a => return Err(ExecError::OpReturn),
            0x6d => {
                pop(&mut stack)?;
                pop(&mut stack)?;
            }
            0x74 => stack.push(from_num(stack.len() as i64)),
            0x75 => {
                pop(&mut stack)?;
            }
            0x79 => {
                let n = to_num(&pop(&mut stack)?);
                if n < 0 || n as usize >= stack.len() {
                    return Err(ExecError::InvalidStackOperation);
                }
                let v = stack[stack.len() - 1 - n as usize].clone();
                stack.push(v);
            }
            0x87 => {
                let a = pop(&mut stack)?;
                let b = pop(&mut stack)?;
                stack.push(if a == b { vec![1] } else { vec![] });
            }
            0x8c => {
                let n = to_num(&pop(&mut stack)?);
                stack.push(from_num(n - 1));
            }
            0x91 => {
                let n = to_num(&pop(&mut stack)?);
                stack.push(from_num(if n == 0 { 1 } else { 0 }));
            }
            0xa2 => {
                let b = to_num(&pop(&mut stack)?);
                let a = to_num(&pop(&mut stack)?);
                stack.push(from_num(if a >= b { 1 } else { 0 }));
            }
            0xb0..=0xb9 => {}
            other => return Err(ExecError::BadOpcode(other)),
        }
    }
    if !exec.is_empty() {
        return Err(ExecError::UnbalancedConditional);
    }
    if stack.len() != 1 {
        return Err(if stack.last().map_or(false, |v| truthy(v)) {
            ExecError::CleanStack
        } else {
            ExecError::EvalFalse
        });
    }
    if truthy(&stack[0]) {
        Ok(())
    } else {
        Err(ExecError::EvalFalse)
    }
}

fn with(b: Builder, bytes: Vec<u8>) -> Builder {
    let mut out = b;
    for byte in bytes {
        out = out.push_opcode(bitcoin::Opcode::from(byte));
    }
    out
}

#[test]
fn test_success() {
    let mut b = Builder::new().push_int(1).push_int(2).push_int(3).push_int(4).push_int(1).push_opcode(OP_IF);
    b = b.push_opcode(OP_DEPTH).push_opcode(OP_1SUB).push_opcode(OP_PICK).push_int(10001).push_opcode(OP_EQUAL).push_opcode(OP_IF);
    b = with(b, OP_RETURN_TRUE());
    b = b.push_opcode(OP_ENDIF);
    b = b.push_int(5).push_int(6).push_int(7).push_int(8);
    b = b.push_opcode(OP_DEPTH).push_opcode(OP_1SUB).push_opcode(OP_PICK).push_int(10002).push_opcode(OP_EQUAL);
    b = with(b, OP_IF_RETURN_TRUE());
    b = b.push_int(0);
    b = with(b, OP_IF_RETURN_TRUE());
    b = b.push_int(0).push_int(0).push_opcode(OP_IF);
    b = with(b, OP_RETURN_TRUE());
    b = b.push_opcode(OP_ELSE);
    b = with(b, OP_IF_RETURN_TRUE());
    b = b.push_opcode(OP_ENDIF);
    b = b.push_int(9).push_int(10).push_int(11).push_int(12);
    b = b.push_opcode(OP_ENDIF).push_opcode(OP_RETURN);
    let script = b.into_bytes();

    let mut structured_script = StructuredScript::from_bytes(&script).unwrap();
    find_op_return_true_cleanup(&mut structured_script);
    op_return_true_to_op_if_return_true(&mut structured_script);

    let emit = reduce(&mut structured_script);
    assert_eq!(emit, EmitOpIfSuccess::YES);

    append_final_emit_script(&mut structured_script);

    let script = structured_script.to_bytes().unwrap();
    let res = execute(&script, vec![vec![0x11, 0x27]]);
    assert!(res.is_ok());

    let res = execute(&script, vec![vec![0x12, 0x27]]);
    assert!(res.is_ok());

    let res = execute(&script, vec![vec![0x13, 0x27]]);
    assert_eq!(res.is_ok(), false);
    assert_eq!(res, Err(ExecError::OpReturn));

    let res = execute(&script, vec![]);
    assert_eq!(res.is_ok(), false);
    assert_eq!(res, Err(ExecError::OpReturn));
}

#[test]
fn term_only_success() {
    let script = Builder::new()
        .push_int(1)
        .push_int(2)
        .push_int(1)
        .push_opcode(OP_IF)
        .push_opcode(OP_DEPTH)
        .push_opcode(OP_1SUB)
        .push_opcode(OP_PICK)
        .push_int(10001)
        .push_opcode(OP_EQUAL)
        .push_opcode(OP_IF)
        .push_opcode(OP_RETURN_199)
        .push_opcode(OP_ENDIF)
        .push_int(9)
        .push_opcode(OP_ENDIF)
        .push_opcode(OP_RETURN)
        .into_bytes();
    let out = compile(&script).unwrap();
    assert_eq!(execute(&out, vec![vec![0x11, 0x27]]), Ok(()));
    assert_eq!(execute(&out, vec![vec![0x13, 0x27]]), Err(ExecError::OpReturn));
    assert_eq!(execute(&out, vec![]), Err(ExecError::OpReturn));
}

#[test]
fn cterm_in_sequence() {
    let script = Builder::new()
        .push_int(10002)
        .push_opcode(OP_EQUAL)
        .push_opcode(OP_RETURN_200)
        .push_int(9)
        .push_opcode(OP_RETURN)
        .into_bytes();
    let out = compile(&script).unwrap();
    assert_eq!(execute(&out, vec![vec![0x12, 0x27]]), Ok(()));
    assert!(execute(&out, vec![vec![0x13, 0x27]]).is_err());
}

#[test]
fn cterm_inside_if_else() {
    let script = Builder::new()
        .push_int(0)
        .push_int(0)
        .push_opcode(OP_IF)
        .push_opcode(OP_RETURN_199)
        .push_opcode(OP_ELSE)
        .push_opcode(OP_RETURN_200)
        .push_opcode(OP_ENDIF)
        .into_bytes();
    let out = compile(&script).unwrap();
    assert_eq!(execute(&out, vec![vec![0x01]]), Ok(()));
    assert!(execute(&out, vec![vec![]]).is_err());
}

#[test]
fn terminator_bytes() {
    assert_eq!(OP_RETURN_TRUE(), vec![0xc7]);
    assert_eq!(OP_IF_RETURN_TRUE(), vec![0xc8]);
}

#[test]
fn compile_output_holds_no_terminator() {
    let script = Builder::new()
        .push_opcode(OP_IF)
        .push_opcode(OP_RETURN_200)
        .push_int(5)
        .push_opcode(OP_RETURN_199)
        .push_opcode(OP_ENDIF)
        .into_bytes();
    let out = compile(&script).unwrap();
    for inst in Script::from_bytes(&out).instructions() {
        if let Instruction::Op(op) = inst.unwrap() {
            assert!(op.to_u8() != 0xc7 && op.to_u8() != 0xc8);
        }
    }
}

#[test]
fn compile_reports_errors() {
    assert_eq!(compile(&[0x05, 0x01]), Err(op_success::structured_script::ScriptError::MalformedScript));
    assert_eq!(compile(&[0x68]), Err(op_success::structured_script::ScriptError::UnbalancedControl));
    let mut big = vec![0x4e, 0x01, 0x00, 0x01, 0x00];
    big.extend(vec![1u8; 65537]);
    assert_eq!(compile(&big), Err(op_success::structured_script::ScriptError::PushTooLarge));
}
