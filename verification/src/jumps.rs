use crate::ir::IR;
use crate::lowering::{
    lemma_lowering_linked, lemma_open_in_code, lemma_step_linked, linked, lower, lowering, step,
};
use crate::nesting::{
    depth, lemma_match_unique, lemma_prefix_keeps_openers, matched, pending, underflows,
};
use crate::opcode::Opcode;
use vstd::prelude::*;

verus! {

/// The index of the instruction that opcode `i` of `ops` went into.
pub open spec fn slot(ops: Seq<Opcode>, i: int) -> int {
    lower(ops.take(i + 1)).len() - 1
}

/// How the code of the first `n` opcodes follows their loop markers, where
/// `pend` holds the markers that are still open: each open `JIZ` stands in
/// the slot of its marker, each matched pair of markers has become a `JIZ`
/// and a `JNZ` that name each other's slot, each loop-open marker is open or
/// matched, and each loop-close marker is matched.
pub open spec fn follows(ops: Seq<Opcode>, n: int, pend: Seq<usize>) -> bool {
    let s = lowering(ops.take(n));
    &&& pending(ops, pend, n)
    &&& linked(s.code, s.open)
    &&& s.code.len() <= n
    &&& s.open.len() == pend.len()
    &&& forall|k: int| 0 <= k < pend.len() ==> #[trigger] s.open[k] == slot(ops, pend[k] as int)
    &&& forall|i: int, j: int| #[trigger]
        matched(ops, i, j) && j < n ==> {
            &&& 0 <= slot(ops, i) < slot(ops, j) < s.code.len()
            &&& s.code[slot(ops, i)] == IR::JIZ(slot(ops, j) as u32)
            &&& s.code[slot(ops, j)] == IR::JNZ(slot(ops, i) as u32)
        }
    &&& forall|i: int|
        0 <= i < n && #[trigger] ops[i] == Opcode::LB ==> {
            ||| exists|k: int| 0 <= k < pend.len() && #[trigger] pend[k] == i
            ||| exists|j: int| j < n && #[trigger] matched(ops, i, j)
        }
    &&& forall|j: int|
        0 <= j < n && #[trigger] ops[j] == Opcode::RB ==> exists|i: int| #[trigger]
            matched(ops, i, j)
}

/// One more opcode that is no loop marker.
proof fn lemma_follows_plain(ops: Seq<Opcode>, k: int, pend: Seq<usize>)
    requires
        0 <= k < ops.len() <= u32::MAX,
        follows(ops, k, pend),
        ops[k] != Opcode::LB,
        ops[k] != Opcode::RB,
    ensures
        follows(ops, k + 1, pend),
{
    let s0 = lowering(ops.take(k));
    let s1 = lowering(ops.take(k + 1));
    assert(ops.take(k + 1).drop_last() == ops.take(k));
    assert(s1 == step(s0, ops[k]));
    lemma_step_linked(s0, ops[k]);
    lemma_open_in_code(s0.code, s0.open);
    assert forall|i: int, j: int| #[trigger] matched(ops, i, j) && j < k + 1 implies {
        &&& 0 <= slot(ops, i) < slot(ops, j) < s1.code.len()
        &&& s1.code[slot(ops, i)] == IR::JIZ(slot(ops, j) as u32)
        &&& s1.code[slot(ops, j)] == IR::JNZ(slot(ops, i) as u32)
    } by {
        assert(j < k);
        assert(s1.code[slot(ops, i)] == s0.code[slot(ops, i)]);
        assert(s1.code[slot(ops, j)] == s0.code[slot(ops, j)]);
    }
    assert forall|i: int| 0 <= i < k + 1 && #[trigger] ops[i] == Opcode::LB implies {
        ||| exists|kk: int| 0 <= kk < pend.len() && #[trigger] pend[kk] == i
        ||| exists|j: int| j < k + 1 && #[trigger] matched(ops, i, j)
    } by {
        assert(i < k);
        if !(exists|kk: int| 0 <= kk < pend.len() && #[trigger] pend[kk] == i) {
            let j = choose|j: int| j < k && #[trigger] matched(ops, i, j);
            assert(j < k + 1 && matched(ops, i, j));
        }
    }
}

/// One more loop-open marker.
proof fn lemma_follows_open(ops: Seq<Opcode>, k: int, pend: Seq<usize>)
    requires
        0 <= k < ops.len() <= u32::MAX,
        follows(ops, k, pend),
        ops[k] == Opcode::LB,
    ensures
        follows(ops, k + 1, pend.push(k as usize)),
{
    let s0 = lowering(ops.take(k));
    let s1 = lowering(ops.take(k + 1));
    let pend1 = pend.push(k as usize);
    assert(ops.take(k + 1).drop_last() == ops.take(k));
    assert(s1 == step(s0, ops[k]));
    lemma_step_linked(s0, ops[k]);
    assert(slot(ops, k) == s0.code.len());
    assert forall|kk: int| 0 <= kk < pend1.len() implies #[trigger] s1.open[kk] == slot(
        ops,
        pend1[kk] as int,
    ) by {
        if kk < pend.len() {
            assert(s1.open[kk] == s0.open[kk]);
        }
    }
    assert forall|i: int, j: int| #[trigger] matched(ops, i, j) && j < k + 1 implies {
        &&& 0 <= slot(ops, i) < slot(ops, j) < s1.code.len()
        &&& s1.code[slot(ops, i)] == IR::JIZ(slot(ops, j) as u32)
        &&& s1.code[slot(ops, j)] == IR::JNZ(slot(ops, i) as u32)
    } by {
        assert(j < k);
        assert(s1.code[slot(ops, i)] == s0.code[slot(ops, i)]);
        assert(s1.code[slot(ops, j)] == s0.code[slot(ops, j)]);
    }
    assert forall|i: int| 0 <= i < k + 1 && #[trigger] ops[i] == Opcode::LB implies {
        ||| exists|kk: int| 0 <= kk < pend1.len() && #[trigger] pend1[kk] == i
        ||| exists|j: int| j < k + 1 && #[trigger] matched(ops, i, j)
    } by {
        if i == k {
            assert(pend1[pend.len() as int] == i);
        } else if exists|kk: int| 0 <= kk < pend.len() && #[trigger] pend[kk] == i {
            let kk = choose|kk: int| 0 <= kk < pend.len() && #[trigger] pend[kk] == i;
            assert(pend1[kk] == i);
        } else {
            let j = choose|j: int| j < k && #[trigger] matched(ops, i, j);
            assert(j < k + 1 && matched(ops, i, j));
        }
    }
}

/// One more loop-close marker, with a loop open.
proof fn lemma_follows_close(ops: Seq<Opcode>, k: int, pend: Seq<usize>)
    requires
        0 <= k < ops.len() <= u32::MAX,
        follows(ops, k, pend),
        ops[k] == Opcode::RB,
        pend.len() > 0,
    ensures
        follows(ops, k + 1, pend.drop_last()),
{
    let s0 = lowering(ops.take(k));
    let s1 = lowering(ops.take(k + 1));
    let pend1 = pend.drop_last();
    let p = pend.last() as int;
    assert(pend[pend.len() - 1] == p);
    assert(ops.take(k + 1).drop_last() == ops.take(k));
    assert(s1 == step(s0, ops[k]));
    lemma_step_linked(s0, ops[k]);
    lemma_open_in_code(s0.code, s0.open);
    let o = s0.open.last() as int;
    let q = s0.code.len() as int;
    assert(s0.open[pend.len() - 1] == o);
    assert(o == slot(ops, p));
    assert(q == slot(ops, k));
    assert(matched(ops, p, k));
    assert(s1.code[o] == IR::JIZ(q as u32));
    assert(s1.code[q] == IR::JNZ(o as u32));
    assert forall|kk: int| 0 <= kk < pend1.len() implies #[trigger] s1.open[kk] == slot(
        ops,
        pend1[kk] as int,
    ) by {
        assert(s1.open[kk] == s0.open[kk]);
    }
    assert forall|i: int, j: int| #[trigger] matched(ops, i, j) && j < k + 1 implies {
        &&& 0 <= slot(ops, i) < slot(ops, j) < s1.code.len()
        &&& s1.code[slot(ops, i)] == IR::JIZ(slot(ops, j) as u32)
        &&& s1.code[slot(ops, j)] == IR::JNZ(slot(ops, i) as u32)
    } by {
        lemma_match_unique(ops, i, j, p, k);
        if j < k {
            assert(slot(ops, i) != o);
            assert(slot(ops, j) != o);
            assert(s1.code[slot(ops, i)] == s0.code[slot(ops, i)]);
            assert(s1.code[slot(ops, j)] == s0.code[slot(ops, j)]);
        }
    }
    assert forall|i: int| 0 <= i < k + 1 && #[trigger] ops[i] == Opcode::LB implies {
        ||| exists|kk: int| 0 <= kk < pend1.len() && #[trigger] pend1[kk] == i
        ||| exists|j: int| j < k + 1 && #[trigger] matched(ops, i, j)
    } by {
        if i == p {
            assert(k < k + 1 && matched(ops, i, k));
        } else if exists|kk: int| 0 <= kk < pend.len() && #[trigger] pend[kk] == i {
            let kk = choose|kk: int| 0 <= kk < pend.len() && #[trigger] pend[kk] == i;
            assert(pend1[kk] == i);
        } else {
            let j = choose|j: int| j < k && #[trigger] matched(ops, i, j);
            assert(j < k + 1 && matched(ops, i, j));
        }
    }
    assert forall|j: int| 0 <= j < k + 1 && #[trigger] ops[j] == Opcode::RB implies exists|
        i: int,
    | #[trigger] matched(ops, i, j) by {
        if j == k {
            assert(matched(ops, p, j));
        }
    }
}

/// The loop markers that are open after `n` opcodes, with the code following
/// the markers up to there.
pub proof fn lemma_follows(ops: Seq<Opcode>, n: int) -> (pend: Seq<usize>)
    requires
        !underflows(ops),
        0 <= n <= ops.len() <= u32::MAX,
    ensures
        follows(ops, n, pend),
    decreases n,
{
    if n == 0 {
        lemma_prefix_keeps_openers(ops, 0);
        lemma_lowering_linked(ops.take(0));
        Seq::empty()
    } else {
        let k = n - 1;
        let pend = lemma_follows(ops, k);
        assert(depth(ops, n) >= 0);
        match ops[k] {
            Opcode::LB => {
                lemma_follows_open(ops, k, pend);
                pend.push(k as usize)
            },
            Opcode::RB => {
                lemma_follows_close(ops, k, pend);
                pend.drop_last()
            },
            _ => {
                lemma_follows_plain(ops, k, pend);
                pend
            },
        }
    }
}

/// Each matched pair of loop markers has become a `JIZ` and a later `JNZ`
/// that name each other's slot.
pub proof fn lemma_jumps_follow_markers(ops: Seq<Opcode>, i: int, j: int)
    requires
        !underflows(ops),
        ops.len() <= u32::MAX,
        matched(ops, i, j),
    ensures
        0 <= slot(ops, i) < slot(ops, j) < lower(ops).len(),
        lower(ops)[slot(ops, i)] == IR::JIZ(slot(ops, j) as u32),
        lower(ops)[slot(ops, j)] == IR::JNZ(slot(ops, i) as u32),
{
    let pend = lemma_follows(ops, ops.len() as int);
    assert(ops.take(ops.len() as int) == ops);
}

/// A loop-open marker that is never closed has become a `JIZ` with target 0.
pub proof fn lemma_open_marker_keeps_zero(ops: Seq<Opcode>, i: int)
    requires
        !underflows(ops),
        ops.len() <= u32::MAX,
        0 <= i < ops.len(),
        ops[i] == Opcode::LB,
        forall|j: int| !matched(ops, i, j),
    ensures
        0 <= slot(ops, i) < lower(ops).len(),
        lower(ops)[slot(ops, i)] == IR::JIZ(0),
{
    let pend = lemma_follows(ops, ops.len() as int);
    assert(ops.take(ops.len() as int) == ops);
    let s = lowering(ops);
    lemma_open_in_code(s.code, s.open);
    let k = choose|k: int| 0 <= k < pend.len() && #[trigger] pend[k] == i;
    assert(s.open[k] == slot(ops, i));
}

/// Where no loop-close marker lacks an opener, each one is matched.
pub proof fn lemma_close_has_opener(ops: Seq<Opcode>, j: int)
    requires
        !underflows(ops),
        ops.len() <= u32::MAX,
        0 <= j < ops.len(),
        ops[j] == Opcode::RB,
    ensures
        exists|i: int| #[trigger] matched(ops, i, j),
{
    let pend = lemma_follows(ops, ops.len() as int);
}

} // verus!
