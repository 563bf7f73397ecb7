use crate::error::CompileError;
use crate::nesting::{depth, lemma_match_unique, matched, pending, underflows};
use std::collections::HashMap;
use vstd::prelude::*;

verus! {

/// One symbol of the source alphabet.
#[derive(Debug, Clone, Copy, PartialEq, Eq, Structural)]
pub enum Opcode {
    SHR,
    SHL,
    ADD,
    SUB,
    PUTCHAR,
    GETCHAR,
    LB,
    RB,
}

/// The opcode that a source byte stands for, if it stands for one.
pub open spec fn decode(b: u8) -> Option<Opcode> {
    if b == 0x3E {
        Some(Opcode::SHR)
    } else if b == 0x3C {
        Some(Opcode::SHL)
    } else if b == 0x2B {
        Some(Opcode::ADD)
    } else if b == 0x2D {
        Some(Opcode::SUB)
    } else if b == 0x2E {
        Some(Opcode::PUTCHAR)
    } else if b == 0x2C {
        Some(Opcode::GETCHAR)
    } else if b == 0x5B {
        Some(Opcode::LB)
    } else if b == 0x5D {
        Some(Opcode::RB)
    } else {
        None
    }
}

/// The source byte of an opcode.
pub open spec fn encode(op: Opcode) -> u8 {
    match op {
        Opcode::SHR => 0x3E,
        Opcode::SHL => 0x3C,
        Opcode::ADD => 0x2B,
        Opcode::SUB => 0x2D,
        Opcode::PUTCHAR => 0x2E,
        Opcode::GETCHAR => 0x2C,
        Opcode::LB => 0x5B,
        Opcode::RB => 0x5D,
    }
}

impl Opcode {
    /// Whether `u` is one of the eight bytes of the alphabet.
    pub fn recognizes(u: u8) -> (r: bool)
        ensures
            r == decode(u).is_some(),
    {
        u == 0x3E || u == 0x3C || u == 0x2B || u == 0x2D || u == 0x2E || u == 0x2C || u == 0x5B
            || u == 0x5D
    }

    /// The opcode of a byte of the alphabet.
    pub fn from(u: u8) -> (op: Opcode)
        requires
            decode(u).is_some(),
        ensures
            Some(op) == decode(u),
    {
        if u == 0x3E {
            Opcode::SHR
        } else if u == 0x3C {
            Opcode::SHL
        } else if u == 0x2B {
            Opcode::ADD
        } else if u == 0x2D {
            Opcode::SUB
        } else if u == 0x2E {
            Opcode::PUTCHAR
        } else if u == 0x2C {
            Opcode::GETCHAR
        } else if u == 0x5B {
            Opcode::LB
        } else {
            Opcode::RB
        }
    }

    /// The byte that this opcode is written as.
    pub fn into(self) -> (u: u8)
        ensures
            u == encode(self),
    {
        match self {
            Opcode::SHR => 0x3E,
            Opcode::SHL => 0x3C,
            Opcode::ADD => 0x2B,
            Opcode::SUB => 0x2D,
            Opcode::PUTCHAR => 0x2E,
            Opcode::GETCHAR => 0x2C,
            Opcode::LB => 0x5B,
            Opcode::RB => 0x5D,
        }
    }
}

/// Encoding an opcode and decoding the byte gives the opcode back, and a byte
/// that decodes to an opcode is that opcode's byte.
pub proof fn lemma_decode_encode(op: Opcode, b: u8)
    ensures
        decode(encode(op)) == Some(op),
        decode(b) == Some(op) ==> encode(op) == b,
{
}

/// `decode` as a function value.
pub open spec fn decoder() -> spec_fn(u8) -> Option<Opcode> {
    |b: u8| decode(b)
}

/// The opcodes that a byte sequence holds, in order; other bytes are left out.
pub open spec fn lex(bytes: Seq<u8>) -> Seq<Opcode> {
    bytes.filter_map(decoder())
}

/// One more byte adds its opcode at the end, or nothing where it stands for
/// none.
pub proof fn lemma_lex_push(bytes: Seq<u8>, b: u8)
    ensures
        lex(bytes.push(b)) == match decode(b) {
            Some(op) => lex(bytes).push(op),
            None => lex(bytes),
        },
{
    assert(bytes.push(b).drop_last() == bytes);
}

/// `table` links each matched pair of loop markers of `ops` in both
/// directions and holds nothing else.
pub open spec fn is_jump_table(table: Map<usize, usize>, ops: Seq<Opcode>) -> bool {
    &&& forall|i: int, j: int| #[trigger]
        matched(ops, i, j) ==> {
            &&& table.contains_key(i as usize)
            &&& table[i as usize] == j
            &&& table.contains_key(j as usize)
            &&& table[j as usize] == i
        }
    &&& forall|k: usize| #[trigger]
        table.contains_key(k) ==> matched(ops, k as int, table[k] as int) || matched(
            ops,
            table[k] as int,
            k as int,
        )
}

/// A jump table is symmetric: the partner of a marker's partner is the
/// marker itself.
pub proof fn lemma_table_symmetric(table: Map<usize, usize>, ops: Seq<Opcode>, k: usize)
    requires
        is_jump_table(table, ops),
        table.contains_key(k),
    ensures
        table.contains_key(table[k]),
        table[table[k]] == k,
        table[k] != k,
{
    assert(matched(ops, k as int, table[k] as int) || matched(ops, table[k] as int, k as int));
}

/// An opcode sequence with its table of matched loop markers.
pub struct Code {
    pub instruct: Vec<Opcode>,
    pub j_table: HashMap<usize, usize>,
}

impl Code {
    /// The table links exactly the matched loop markers of the opcodes, and
    /// every loop-close marker among them is matched.
    pub open spec fn wf(&self) -> bool {
        &&& !underflows(self.instruct@)
        &&& is_jump_table(self.j_table@, self.instruct@)
        &&& forall|j: int|
            0 <= j < self.instruct@.len() && #[trigger] self.instruct@[j] == Opcode::RB
                ==> self.j_table@.contains_key(j as usize)
    }

    /// Lexes `data`: bytes outside the alphabet are skipped, and each
    /// loop-close marker is linked with the loop-open marker it closes. A
    /// loop-close marker without an opener is an error; a loop that is never
    /// closed is not, and gets no entry in the table.
    pub fn from(data: Vec<u8>) -> (r: Result<Code, CompileError>)
        ensures
            r.is_err() <==> underflows(lex(data@)),
            r matches Err(e) ==> e == CompileError::UnbalancedLoop,
            r matches Ok(c) ==> c.instruct@ == lex(data@) && c.wf(),
    {
        broadcast use vstd::std_specs::hash::group_hash_axioms;

        let mut instruct: Vec<Opcode> = Vec::new();
        let mut i: usize = 0;
        while i < data.len()
            invariant
                i <= data.len(),
                instruct@ == lex(data@.take(i as int)),
            decreases data.len() - i,
        {
            proof {
                data@.lemma_filter_map_take_succ(decoder(), i as int);
            }
            let b: u8 = data[i];
            if Opcode::recognizes(b) {
                instruct.push(Opcode::from(b));
            }
            i = i + 1;
        }
        proof {
            assert(data@.take(data.len() as int) == data@);
        }
        let ghost ops = instruct@;
        let mut jstack: Vec<usize> = Vec::new();
        let mut j_table: HashMap<usize, usize> = HashMap::new();
        let mut n: usize = 0;
        while n < instruct.len()
            invariant
                n <= instruct.len(),
                ops == instruct@,
                ops == lex(data@),
                forall|m: int| 0 <= m <= n ==> #[trigger] depth(ops, m) >= 0,
                pending(ops, jstack@, n as int),
                forall|j: int|
                    0 <= j < n && #[trigger] ops[j] == Opcode::RB ==> j_table@.contains_key(
                        j as usize,
                    ),
                forall|i: int, j: int| #[trigger]
                    matched(ops, i, j) && j < n ==> {
                        &&& j_table@.contains_key(i as usize)
                        &&& j_table@[i as usize] == j
                        &&& j_table@.contains_key(j as usize)
                        &&& j_table@[j as usize] == i
                    },
                forall|k: usize| #[trigger]
                    j_table@.contains_key(k) ==> matched(ops, k as int, j_table@[k] as int)
                        || matched(ops, j_table@[k] as int, k as int),
            decreases instruct.len() - n,
        {
            let e: Opcode = instruct[n];
            match e {
                Opcode::LB => {
                    jstack.push(n);
                },
                Opcode::RB => {
                    let p: usize = match jstack.pop() {
                        Some(p) => p,
                        None => {
                            proof {
                                assert(depth(ops, n + 1) < 0);
                            }
                            return Err(CompileError::UnbalancedLoop);
                        },
                    };
                    proof {
                        assert(matched(ops, p as int, n as int));
                        assert forall|i: int, j: int| #[trigger]
                            matched(ops, i, j) && j < n + 1 implies (i == p <==> j == n) by {
                            lemma_match_unique(ops, i, j, p as int, n as int);
                        }
                    }
                    j_table.insert(p, n);
                    j_table.insert(n, p);
                },
                _ => {},
            }
            n = n + 1;
        }
        Ok(Code { instruct, j_table })
    }
}

} // verus!
