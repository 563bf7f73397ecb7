use crate::error::CompileError;
use crate::jumps::{lemma_jumps_follow_markers, slot};
use crate::lowering::{
    jumps_paired, lemma_closed_paired, lemma_open_in_code, lemma_step_linked, linked,
    loops_nested, lower, lowering, Lowering,
};
use crate::nesting::{balanced, depth, matched, underflows};
use crate::opcode::Opcode;
use vstd::prelude::*;

verus! {

/// One instruction: a counted move or cell change, a byte of output or input,
/// or a jump that names the index of its partner.
#[derive(Debug, Clone, Copy, PartialEq, Eq, Structural)]
pub enum IR {
    SHR(u32),
    SHL(u32),
    ADD(u8),
    SUB(u8),
    PUTCHAR,
    GETCHAR,
    JIZ(u32),
    JNZ(u32),
}

/// The moves of `code` count at most `n`.
pub open spec fn moves_within(code: Seq<IR>, n: int) -> bool {
    forall|p: int|
        0 <= p < code.len() ==> match #[trigger] code[p] {
            IR::SHR(x) => x <= n,
            IR::SHL(x) => x <= n,
            _ => true,
        }
}

/// The instruction sequence that an opcode sequence lowers to.
#[derive(Debug)]
pub struct Code {
    pub instruct: Vec<IR>,
}

impl Code {
    /// Lowers `data`: runs of one move or one cell change become one counted
    /// instruction, and each closed loop becomes a `JIZ` and a `JNZ` that name
    /// each other's index. A loop-close marker without an opener is an error.
    /// A loop that is never closed is not: its `JIZ` keeps target 0.
    pub fn from(data: Vec<Opcode>) -> (r: Result<Code, CompileError>)
        requires
            data@.len() <= u32::MAX,
        ensures
            r.is_err() <==> underflows(data@),
            r matches Err(e) ==> e == CompileError::UnbalancedLoop,
            r matches Ok(c) ==> c.instruct@ == lower(data@) && linked(
                c.instruct@,
                lowering(data@).open,
            ),
            r matches Ok(c) ==> forall|i: int, j: int| #[trigger]
                matched(data@, i, j) ==> {
                    &&& 0 <= slot(data@, i) < slot(data@, j) < c.instruct@.len()
                    &&& c.instruct@[slot(data@, i)] == IR::JIZ(slot(data@, j) as u32)
                    &&& c.instruct@[slot(data@, j)] == IR::JNZ(slot(data@, i) as u32)
                },
            balanced(data@) ==> (r matches Ok(c) && jumps_paired(c.instruct@) && loops_nested(
                c.instruct@,
            )),
    {
        let mut instruct: Vec<IR> = Vec::new();
        let mut j_stack: Vec<u32> = Vec::new();
        let mut i: usize = 0;
        proof {
            assert(linked(instruct@, j_stack@)) by {
                reveal(linked);
            }
        }
        while i < data.len()
            invariant
                i <= data.len() <= u32::MAX,
                forall|m: int| 0 <= m <= i ==> #[trigger] depth(data@, m) >= 0,
                instruct@ == lowering(data@.take(i as int)).code,
                j_stack@ == lowering(data@.take(i as int)).open,
                linked(instruct@, j_stack@),
                j_stack.len() == depth(data@, i as int),
                instruct.len() <= i,
                moves_within(instruct@, i as int),
            decreases data.len() - i,
        {
            let e: Opcode = data[i];
            let len: usize = instruct.len();
            let prev: Option<IR> = if len > 0 {
                Some(instruct[len - 1])
            } else {
                None
            };
            proof {
                assert(data@.take(i + 1).drop_last() == data@.take(i as int));
                lemma_open_in_code(instruct@, j_stack@);
                if e != Opcode::RB || j_stack.len() > 0 {
                    lemma_step_linked(Lowering { code: instruct@, open: j_stack@ }, e);
                }
            }
            match e {
                Opcode::SHR => match prev {
                    Some(IR::SHR(x)) => {
                        instruct.set(len - 1, IR::SHR(x + 1));
                    },
                    _ => {
                        instruct.push(IR::SHR(1));
                    },
                },
                Opcode::SHL => match prev {
                    Some(IR::SHL(x)) => {
                        instruct.set(len - 1, IR::SHL(x + 1));
                    },
                    _ => {
                        instruct.push(IR::SHL(1));
                    },
                },
                Opcode::ADD => match prev {
                    Some(IR::ADD(x)) => {
                        instruct.set(len - 1, IR::ADD(x.wrapping_add(1)));
                    },
                    _ => {
                        instruct.push(IR::ADD(1));
                    },
                },
                Opcode::SUB => match prev {
                    Some(IR::SUB(x)) => {
                        instruct.set(len - 1, IR::SUB(x.wrapping_add(1)));
                    },
                    _ => {
                        instruct.push(IR::SUB(1));
                    },
                },
                Opcode::GETCHAR => {
                    instruct.push(IR::GETCHAR);
                },
                Opcode::PUTCHAR => {
                    instruct.push(IR::PUTCHAR);
                },
                Opcode::LB => {
                    instruct.push(IR::JIZ(0));
                    j_stack.push(len as u32);
                },
                Opcode::RB => {
                    let j: u32 = match j_stack.pop() {
                        Some(j) => j,
                        None => {
                            proof {
                                assert(depth(data@, i + 1) < 0);
                            }
                            return Err(CompileError::UnbalancedLoop);
                        },
                    };
                    instruct.push(IR::JNZ(j));
                    instruct.set(j as usize, IR::JIZ(len as u32));
                },
            }
            i = i + 1;
        }
        proof {
            assert(data@.take(data.len() as int) == data@);
            if balanced(data@) {
                lemma_closed_paired(instruct@, j_stack@);
            }
            assert forall|i: int, j: int| #[trigger] matched(data@, i, j) implies {
                &&& 0 <= slot(data@, i) < slot(data@, j) < instruct@.len()
                &&& instruct@[slot(data@, i)] == IR::JIZ(slot(data@, j) as u32)
                &&& instruct@[slot(data@, j)] == IR::JNZ(slot(data@, i) as u32)
            } by {
                lemma_jumps_follow_markers(data@, i, j);
            }
        }
        Ok(Code { instruct })
    }
}

} // verus!
