use crate::ir::IR;
use crate::lowering::{lemma_last_instruction, lower, lowering, Lowering};
use crate::nesting::underflows;
use crate::opcode::Opcode;
use vstd::prelude::*;

verus! {

/// `n` times the opcode `op`.
pub open spec fn run_of(op: Opcode, n: nat) -> Seq<Opcode> {
    Seq::new(n, |i: int| op)
}

/// The opcode is a move or a cell change, the kinds that are counted.
pub open spec fn folds(op: Opcode) -> bool {
    op == Opcode::SHR || op == Opcode::SHL || op == Opcode::ADD || op == Opcode::SUB
}

/// The instruction `ins` counts opcodes of the kind of `op`.
pub open spec fn counts(ins: IR, op: Opcode) -> bool {
    match (ins, op) {
        (IR::SHR(_), Opcode::SHR) => true,
        (IR::SHL(_), Opcode::SHL) => true,
        (IR::ADD(_), Opcode::ADD) => true,
        (IR::SUB(_), Opcode::SUB) => true,
        _ => false,
    }
}

/// The one instruction that stands for `n` times `op`: a move by `n`, a cell
/// change by `n` modulo 256.
pub open spec fn counted(op: Opcode, n: nat) -> IR {
    match op {
        Opcode::SHR => IR::SHR(n as u32),
        Opcode::SHL => IR::SHL(n as u32),
        Opcode::ADD => IR::ADD((n % 256) as u8),
        _ => IR::SUB((n % 256) as u8),
    }
}

/// A run of `n` equal moves or cell changes, after a program that does not
/// end in an instruction of that kind, lowers to exactly one more
/// instruction: the one that counts `n`.
pub proof fn lemma_run_folds(pre: Seq<Opcode>, op: Opcode, n: nat)
    requires
        folds(op),
        1 <= n <= u32::MAX,
        lower(pre).len() == 0 || !counts(lower(pre).last(), op),
    ensures
        lowering(pre + run_of(op, n)) == (Lowering {
            code: lower(pre).push(counted(op, n)),
            open: lowering(pre).open,
        }),
    decreases n,
{
    let all = pre + run_of(op, n);
    assert(all.last() == op);
    if n == 1 {
        assert(all.drop_last() == pre);
    } else {
        let fewer = (n - 1) as nat;
        assert(all.drop_last() == pre + run_of(op, fewer));
        lemma_run_folds(pre, op, fewer);
        let before = lower(pre).push(counted(op, fewer));
        assert(before.last() == counted(op, fewer));
        assert(before.update(before.len() - 1, counted(op, n)) == lower(pre).push(
            counted(op, n),
        ));
    }
}

/// A run of `n` equal moves or cell changes that does not continue an
/// earlier one lowers to exactly one more instruction: a move by `n`, or a
/// cell change by `n` modulo 256.
pub proof fn lemma_whole_run_folds(pre: Seq<Opcode>, op: Opcode, n: nat)
    requires
        folds(op),
        1 <= n <= u32::MAX,
        !underflows(pre),
        pre.len() <= u32::MAX,
        pre.len() == 0 || pre.last() != op,
    ensures
        lowering(pre + run_of(op, n)) == (Lowering {
            code: lower(pre).push(counted(op, n)),
            open: lowering(pre).open,
        }),
{
    if pre.len() > 0 {
        lemma_last_instruction(pre);
    }
    lemma_run_folds(pre, op, n);
}

/// A cell after `n` single increments, each modulo 256.
pub open spec fn raised(cell: u8, n: nat) -> u8
    decreases n,
{
    if n == 0 {
        cell
    } else {
        ((raised(cell, (n - 1) as nat) + 1) % 256) as u8
    }
}

/// A cell after `n` single decrements, each modulo 256.
pub open spec fn dropped(cell: u8, n: nat) -> u8
    decreases n,
{
    if n == 0 {
        cell
    } else {
        ((dropped(cell, (n - 1) as nat) + 255) % 256) as u8
    }
}

/// A cell after one counted instruction that changes it: `ADD` adds its
/// count and `SUB` takes it away, modulo 256. Other instructions leave it.
pub open spec fn changed(cell: u8, ins: IR) -> u8 {
    match ins {
        IR::ADD(c) => ((cell + c) % 256) as u8,
        IR::SUB(c) => ((cell + 256 - c) % 256) as u8,
        _ => cell,
    }
}

/// One more step moves a sum or a difference modulo 256 by one.
proof fn lemma_step_modulo(c: int, n: int)
    requires
        0 <= c < 256,
        n >= 1,
    ensures
        ((c + (n - 1) % 256) % 256 + 1) % 256 == (c + n % 256) % 256,
        ((c + 256 - (n - 1) % 256) % 256 + 255) % 256 == (c + 256 - n % 256) % 256,
{
    let a = (n - 1) % 256;
    let b = n % 256;
    assert(b == if a == 255 { 0 } else { a + 1 });
}

/// The folded instruction acts on a cell as the `n` single steps do, also
/// where `n` is 256 or more.
pub proof fn lemma_folded_change(cell: u8, n: nat)
    ensures
        changed(cell, counted(Opcode::ADD, n)) == raised(cell, n),
        changed(cell, counted(Opcode::SUB, n)) == dropped(cell, n),
    decreases n,
{
    if n > 0 {
        lemma_folded_change(cell, (n - 1) as nat);
        lemma_step_modulo(cell as int, n as int);
    }
}

} // verus!
