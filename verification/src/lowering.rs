use crate::ir::IR;
use crate::nesting::{
    balanced, delta, depth, lemma_depth_prefix, lemma_prefix_keeps_openers, underflows,
};
use crate::opcode::{lex, Opcode};
use vstd::prelude::*;

verus! {

/// What lowering has produced so far: the instructions, and the indices of
/// the `JIZ` instructions whose loops are still open, outermost first.
pub struct Lowering {
    pub code: Seq<IR>,
    pub open: Seq<u32>,
}

/// `code` after one more move or cell change: the last instruction counts it
/// where it is of the same kind, else a new instruction with count 1 follows.
/// Moves count exactly, cell changes modulo 256.
pub open spec fn fold(code: Seq<IR>, op: Opcode) -> Seq<IR> {
    let n = code.len() as int;
    let last = if n > 0 {
        Some(code[n - 1])
    } else {
        None
    };
    match (op, last) {
        (Opcode::SHR, Some(IR::SHR(x))) => code.update(n - 1, IR::SHR((x + 1) as u32)),
        (Opcode::SHR, _) => code.push(IR::SHR(1)),
        (Opcode::SHL, Some(IR::SHL(x))) => code.update(n - 1, IR::SHL((x + 1) as u32)),
        (Opcode::SHL, _) => code.push(IR::SHL(1)),
        (Opcode::ADD, Some(IR::ADD(x))) => code.update(n - 1, IR::ADD(((x + 1) % 256) as u8)),
        (Opcode::ADD, _) => code.push(IR::ADD(1)),
        (Opcode::SUB, Some(IR::SUB(x))) => code.update(n - 1, IR::SUB(((x + 1) % 256) as u8)),
        (Opcode::SUB, _) => code.push(IR::SUB(1)),
        _ => code,
    }
}

/// The state after one more opcode. A loop-open marker appends a `JIZ` with
/// target 0 and remembers its index; a loop-close marker appends a `JNZ` back
/// to the innermost open `JIZ` and writes its own index into that `JIZ`.
/// Where no loop is open a loop-close marker changes nothing.
pub open spec fn step(s: Lowering, op: Opcode) -> Lowering {
    match op {
        Opcode::PUTCHAR => Lowering { code: s.code.push(IR::PUTCHAR), open: s.open },
        Opcode::GETCHAR => Lowering { code: s.code.push(IR::GETCHAR), open: s.open },
        Opcode::LB => Lowering {
            code: s.code.push(IR::JIZ(0)),
            open: s.open.push(s.code.len() as u32),
        },
        Opcode::RB => if s.open.len() == 0 {
            s
        } else {
            Lowering {
                code: s.code.push(IR::JNZ(s.open.last())).update(
                    s.open.last() as int,
                    IR::JIZ(s.code.len() as u32),
                ),
                open: s.open.drop_last(),
            }
        },
        _ => Lowering { code: fold(s.code, op), open: s.open },
    }
}

/// The state after all of `ops`, taken from left to right.
pub open spec fn lowering(ops: Seq<Opcode>) -> Lowering
    decreases ops.len(),
{
    if ops.len() == 0 {
        Lowering { code: Seq::empty(), open: Seq::empty() }
    } else {
        step(lowering(ops.drop_last()), ops.last())
    }
}

/// The instructions that `ops` lowers to.
pub open spec fn lower(ops: Seq<Opcode>) -> Seq<IR> {
    lowering(ops).code
}

/// Every jump of `code` has its partner: a `JIZ` names a later `JNZ` that
/// names it back, and a `JNZ` an earlier `JIZ` that names it back.
pub open spec fn jumps_paired(code: Seq<IR>) -> bool {
    forall|p: int|
        0 <= p < code.len() ==> match #[trigger] code[p] {
            IR::JIZ(t) => p < t < code.len() && (code[t as int] matches IR::JNZ(b) && b == p),
            IR::JNZ(t) => t < p && (code[t as int] matches IR::JIZ(b) && b == p),
            _ => true,
        }
}

/// No two loops of `code` overlap in part: a loop that begins inside another
/// ends inside it.
pub open spec fn loops_nested(code: Seq<IR>) -> bool {
    forall|p: int, inner: int|
        0 <= p < inner < code.len() ==> match (#[trigger] code[p], #[trigger] code[inner]) {
            (IR::JIZ(t), IR::JIZ(inner_end)) => t != 0 && inner_end != 0 && inner < t ==> inner_end
                < t,
            _ => true,
        }
}

/// The pairing of jumps while the loops in `open` wait for their end: those
/// `JIZ` still have target 0, every other jump has its partner, and closed
/// loops lie beside or inside each other and never around an open `JIZ`.
#[verifier::opaque]
pub open spec fn linked(code: Seq<IR>, open: Seq<u32>) -> bool {
    &&& forall|k: int|
        0 <= k < open.len() ==> (#[trigger] open[k]) < code.len() && code[open[k] as int]
            == IR::JIZ(0)
    &&& forall|k: int, l: int|
        0 <= k < l < open.len() ==> (#[trigger] open[k]) < (#[trigger] open[l])
    &&& forall|p: int|
        0 <= p < code.len() ==> match #[trigger] code[p] {
            IR::JIZ(t) => if t == 0 {
                exists|k: int| 0 <= k < open.len() && #[trigger] open[k] == p
            } else {
                p < t < code.len() && (code[t as int] matches IR::JNZ(b) && b == p)
            },
            IR::JNZ(t) => t < p && (code[t as int] matches IR::JIZ(b) && b == p),
            _ => true,
        }
    &&& loops_nested(code)
    &&& forall|p: int, k: int|
        0 <= p < code.len() && 0 <= k < open.len() ==> match #[trigger] code[p] {
            IR::JIZ(t) => t != 0 && p < (#[trigger] open[k]) ==> t < open[k],
            _ => true,
        }
}

/// A plain instruction appended, or the last plain instruction replaced by
/// another plain one, leaves the jumps as they are.
proof fn lemma_plain_linked(code: Seq<IR>, open: Seq<u32>, x: IR, after: Seq<IR>)
    requires
        linked(code, open),
        !(x is JIZ) && !(x is JNZ),
        after == code.push(x) || (code.len() > 0 && !(code.last() is JIZ) && !(code.last() is JNZ)
            && after == code.update(code.len() - 1, x)),
    ensures
        linked(after, open),
{
    reveal(linked);
    assert forall|p: int| 0 <= p < after.len() implies match #[trigger] after[p] {
        IR::JIZ(t) => if t == 0 {
            exists|k: int| 0 <= k < open.len() && #[trigger] open[k] == p
        } else {
            p < t < after.len() && (after[t as int] matches IR::JNZ(b) && b == p)
        },
        IR::JNZ(t) => t < p && (after[t as int] matches IR::JIZ(b) && b == p),
        _ => true,
    } by {
        if after[p] is JIZ || after[p] is JNZ {
            assert(after[p] == code[p]);
        }
    }
    assert forall|p: int, inner: int| 0 <= p < inner < after.len() implies match (
        #[trigger] after[p],
        #[trigger] after[inner],
    ) {
        (IR::JIZ(t), IR::JIZ(inner_end)) => t != 0 && inner_end != 0 && inner < t ==> inner_end < t,
        _ => true,
    } by {
        if after[p] is JIZ && after[inner] is JIZ {
            assert(after[p] == code[p]);
            assert(after[inner] == code[inner]);
        }
    }
    assert forall|p: int, k: int|
        0 <= p < after.len() && 0 <= k < open.len() implies match #[trigger] after[p] {
        IR::JIZ(t) => t != 0 && p < (#[trigger] open[k]) ==> t < open[k],
        _ => true,
    } by {
        if after[p] is JIZ {
            assert(after[p] == code[p]);
        }
    }
}

/// A loop-open marker keeps the jumps linked.
proof fn lemma_open_linked(s: Lowering)
    requires
        linked(s.code, s.open),
        s.code.len() < u32::MAX,
    ensures
        linked(step(s, Opcode::LB).code, step(s, Opcode::LB).open),
{
    reveal(linked);
    let after = step(s, Opcode::LB);
    let q = s.code.len() as int;
    assert(after.open[s.open.len() as int] == q);
    assert forall|p: int| 0 <= p < after.code.len() implies match #[trigger] after.code[p] {
        IR::JIZ(t) => if t == 0 {
            exists|k: int| 0 <= k < after.open.len() && #[trigger] after.open[k] == p
        } else {
            p < t < after.code.len() && (after.code[t as int] matches IR::JNZ(b) && b == p)
        },
        IR::JNZ(t) => t < p && (after.code[t as int] matches IR::JIZ(b) && b == p),
        _ => true,
    } by {
        if p < q {
            assert(after.code[p] == s.code[p]);
            if s.code[p] == IR::JIZ(0) {
                let k = choose|k: int| 0 <= k < s.open.len() && #[trigger] s.open[k] == p;
                assert(after.open[k] == p);
            }
        }
    }
    assert forall|p: int, inner: int| 0 <= p < inner < after.code.len() implies match (
        #[trigger] after.code[p],
        #[trigger] after.code[inner],
    ) {
        (IR::JIZ(t), IR::JIZ(inner_end)) => t != 0 && inner_end != 0 && inner < t ==> inner_end < t,
        _ => true,
    } by {
        assert(after.code[p] == s.code[p]);
        if inner < q {
            assert(after.code[inner] == s.code[inner]);
        }
    }
    assert forall|p: int, k: int|
        0 <= p < after.code.len() && 0 <= k < after.open.len() implies match #[trigger] after
        .code[p] {
        IR::JIZ(t) => t != 0 && p < (#[trigger] after.open[k]) ==> t < after.open[k],
        _ => true,
    } by {
        if p < q {
            assert(after.code[p] == s.code[p]);
            if k < s.open.len() {
                assert(after.open[k] == s.open[k]);
            }
        }
    }
}

/// A loop-close marker that finds a loop open keeps the jumps linked.
proof fn lemma_close_linked(s: Lowering)
    requires
        linked(s.code, s.open),
        s.code.len() < u32::MAX,
        s.open.len() > 0,
    ensures
        linked(step(s, Opcode::RB).code, step(s, Opcode::RB).open),
{
    reveal(linked);
    let after = step(s, Opcode::RB);
    let q = s.code.len() as int;
    let o = s.open.last() as int;
    assert(s.open[s.open.len() - 1] == o);
    assert(s.code[o] == IR::JIZ(0));
    assert(after.code[o] == IR::JIZ(q as u32));
    assert(after.code[q] == IR::JNZ(o as u32));
    assert forall|p: int| 0 <= p < after.code.len() && p != o && p != q implies after.code[p]
        == s.code[p] by {}
    assert forall|k: int| 0 <= k < after.open.len() implies after.open[k] == s.open[k]
        && s.open[k] < o by {}
    assert forall|p: int| 0 <= p < after.code.len() implies match #[trigger] after.code[p] {
        IR::JIZ(t) => if t == 0 {
            exists|k: int| 0 <= k < after.open.len() && #[trigger] after.open[k] == p
        } else {
            p < t < after.code.len() && (after.code[t as int] matches IR::JNZ(b) && b == p)
        },
        IR::JNZ(t) => t < p && (after.code[t as int] matches IR::JIZ(b) && b == p),
        _ => true,
    } by {
        if p != o && p != q {
            assert(after.code[p] == s.code[p]);
            match s.code[p] {
                IR::JIZ(t) => {
                    if t == 0 {
                        let k = choose|k: int| 0 <= k < s.open.len() && #[trigger] s.open[k] == p;
                        assert(after.open[k] == p);
                    } else {
                        assert(t != o);
                        assert(after.code[t as int] == s.code[t as int]);
                    }
                },
                IR::JNZ(t) => {
                    assert(t != o);
                    assert(after.code[t as int] == s.code[t as int]);
                },
                _ => {},
            }
        }
    }
    assert forall|p: int, inner: int| 0 <= p < inner < after.code.len() implies match (
        #[trigger] after.code[p],
        #[trigger] after.code[inner],
    ) {
        (IR::JIZ(t), IR::JIZ(inner_end)) => t != 0 && inner_end != 0 && inner < t ==> inner_end < t,
        _ => true,
    } by {
        if inner < q {
            if p == o {
                assert(after.code[inner] == s.code[inner]);
            } else if inner == o {
                assert(after.code[p] == s.code[p]);
                assert(s.open[s.open.len() - 1] == o);
            } else {
                assert(after.code[p] == s.code[p]);
                assert(after.code[inner] == s.code[inner]);
            }
        }
    }
    assert forall|p: int, k: int|
        0 <= p < after.code.len() && 0 <= k < after.open.len() implies match #[trigger] after
        .code[p] {
        IR::JIZ(t) => t != 0 && p < (#[trigger] after.open[k]) ==> t < after.open[k],
        _ => true,
    } by {
        assert(after.open[k] == s.open[k]);
        if p != o && p != q {
            assert(after.code[p] == s.code[p]);
        }
    }
}

/// The loops that are open begin inside the code.
pub proof fn lemma_open_in_code(code: Seq<IR>, open: Seq<u32>)
    requires
        linked(code, open),
    ensures
        forall|k: int|
            0 <= k < open.len() ==> (#[trigger] open[k]) < code.len() && code[open[k] as int]
                == IR::JIZ(0),
{
    reveal(linked);
}

/// With no loop open, every jump has its partner and the loops are nested.
pub proof fn lemma_closed_paired(code: Seq<IR>, open: Seq<u32>)
    requires
        linked(code, open),
        open.len() == 0,
    ensures
        jumps_paired(code),
        loops_nested(code),
{
    reveal(linked);
}

/// One more opcode keeps the jumps linked, as long as a loop-close marker
/// finds a loop open.
pub proof fn lemma_step_linked(s: Lowering, op: Opcode)
    requires
        linked(s.code, s.open),
        s.code.len() < u32::MAX,
        op == Opcode::RB ==> s.open.len() > 0,
    ensures
        linked(step(s, op).code, step(s, op).open),
        step(s, op).code.len() <= s.code.len() + 1,
        step(s, op).open.len() == s.open.len() + delta(op),
{
    let after = step(s, op);
    lemma_open_in_code(s.code, s.open);
    match op {
        Opcode::LB => {
            lemma_open_linked(s);
        },
        Opcode::RB => {
            lemma_close_linked(s);
        },
        _ => {
            lemma_plain_linked(s.code, s.open, after.code.last(), after.code);
        },
    }
}

/// Where no loop-close marker lacks an opener, lowering keeps the jumps
/// linked, holds one open `JIZ` for each loop that is open, and writes at most
/// one instruction for each opcode.
pub proof fn lemma_lowering_linked(ops: Seq<Opcode>)
    requires
        !underflows(ops),
        ops.len() <= u32::MAX,
    ensures
        linked(lowering(ops).code, lowering(ops).open),
        lowering(ops).open.len() == depth(ops, ops.len() as int),
        lowering(ops).code.len() <= ops.len(),
    decreases ops.len(),
{
    if ops.len() == 0 {
        reveal(linked);
    } else {
        let k = ops.len() - 1;
        assert(ops.drop_last() == ops.take(k));
        lemma_prefix_keeps_openers(ops, k);
        lemma_lowering_linked(ops.take(k));
        lemma_depth_prefix(ops, k, k);
        assert(depth(ops, k + 1) >= 0);
        lemma_step_linked(lowering(ops.take(k)), ops.last());
    }
}

/// A balanced program lowers to code in which every `JIZ` names a later `JNZ`
/// that names it back, every `JNZ` an earlier `JIZ` that names it back, and
/// no two loops overlap in part.
pub proof fn lemma_balanced_lowering(ops: Seq<Opcode>)
    requires
        balanced(ops),
        ops.len() <= u32::MAX,
    ensures
        jumps_paired(lower(ops)),
        loops_nested(lower(ops)),
{
    lemma_lowering_linked(ops);
    lemma_closed_paired(lowering(ops).code, lowering(ops).open);
}

/// Source text whose loop markers are balanced passes both stages, whatever
/// other bytes it holds, and its code has paired and nested jumps.
pub proof fn lemma_balanced_source(bytes: Seq<u8>)
    requires
        balanced(lex(bytes)),
        lex(bytes).len() <= u32::MAX,
    ensures
        !underflows(lex(bytes)),
        jumps_paired(lower(lex(bytes))),
        loops_nested(lower(lex(bytes))),
{
    lemma_balanced_lowering(lex(bytes));
}

/// The opcode that an instruction stands for.
pub open spec fn opcode_of(ins: IR) -> Opcode {
    match ins {
        IR::SHR(_) => Opcode::SHR,
        IR::SHL(_) => Opcode::SHL,
        IR::ADD(_) => Opcode::ADD,
        IR::SUB(_) => Opcode::SUB,
        IR::PUTCHAR => Opcode::PUTCHAR,
        IR::GETCHAR => Opcode::GETCHAR,
        IR::JIZ(_) => Opcode::LB,
        IR::JNZ(_) => Opcode::RB,
    }
}

/// The last instruction stands for the last opcode.
pub proof fn lemma_last_instruction(ops: Seq<Opcode>)
    requires
        !underflows(ops),
        0 < ops.len() <= u32::MAX,
    ensures
        lower(ops).len() > 0,
        opcode_of(lower(ops).last()) == ops.last(),
{
    let k = ops.len() - 1;
    assert(ops.drop_last() == ops.take(k));
    lemma_prefix_keeps_openers(ops, k);
    lemma_lowering_linked(ops.take(k));
    lemma_depth_prefix(ops, k, k);
    assert(depth(ops, k + 1) >= 0);
    lemma_open_in_code(lowering(ops.take(k)).code, lowering(ops.take(k)).open);
}

} // verus!
