use crate::opcode::Opcode;
use vstd::prelude::*;

verus! {

/// How an opcode changes the number of loops that are open.
pub open spec fn delta(op: Opcode) -> int {
    match op {
        Opcode::LB => 1,
        Opcode::RB => -1,
        _ => 0,
    }
}

/// Loop-open markers minus loop-close markers among the first `n` opcodes.
pub open spec fn depth(ops: Seq<Opcode>, n: int) -> int
    decreases n,
{
    if n <= 0 {
        0
    } else {
        depth(ops, n - 1) + delta(ops[n - 1])
    }
}

/// Some loop-close marker stands where no loop is open.
pub open spec fn underflows(ops: Seq<Opcode>) -> bool {
    exists|n: int| 0 <= n <= ops.len() && #[trigger] depth(ops, n) < 0
}

/// No loop-close marker lacks an opener and no loop is left open.
pub open spec fn balanced(ops: Seq<Opcode>) -> bool {
    !underflows(ops) && depth(ops, ops.len() as int) == 0
}

/// The loop opened at `i` is the one closed at `j`: the depth comes back to
/// what it was before `i` for the first time right after `j`.
pub open spec fn matched(ops: Seq<Opcode>, i: int, j: int) -> bool {
    &&& 0 <= i < j < ops.len()
    &&& ops[i] == Opcode::LB
    &&& ops[j] == Opcode::RB
    &&& depth(ops, j + 1) == depth(ops, i)
    &&& forall|k: int| i < k <= j ==> #[trigger] depth(ops, k) > depth(ops, i)
}

/// The loop-open markers of the first `n` opcodes that are still open, from
/// the outermost to the innermost.
pub open spec fn pending(ops: Seq<Opcode>, stack: Seq<usize>, n: int) -> bool {
    &&& stack.len() == depth(ops, n)
    &&& forall|k: int|
        0 <= k < stack.len() ==> {
            &&& (#[trigger] stack[k]) < n
            &&& ops[stack[k] as int] == Opcode::LB
            &&& depth(ops, stack[k] as int) == k
            &&& forall|m: int| stack[k] < m <= n ==> #[trigger] depth(ops, m) > k
        }
}

/// A loop-open marker has at most one closer and a loop-close marker at most
/// one opener.
pub proof fn lemma_match_unique(ops: Seq<Opcode>, i: int, j: int, i2: int, j2: int)
    requires
        matched(ops, i, j),
        matched(ops, i2, j2),
    ensures
        i == i2 <==> j == j2,
{
    if i == i2 && j != j2 {
        if j < j2 {
            assert(depth(ops, j + 1) > depth(ops, i2));
        } else {
            assert(depth(ops, j2 + 1) > depth(ops, i));
        }
    }
    if j == j2 && i != i2 {
        if i < i2 {
            assert(depth(ops, i2) > depth(ops, i));
        } else {
            assert(depth(ops, i) > depth(ops, i2));
        }
    }
}

/// Two loops never overlap in part: a loop that opens inside another closes
/// inside it.
pub proof fn lemma_match_nested(ops: Seq<Opcode>, i: int, j: int, i2: int, j2: int)
    requires
        matched(ops, i, j),
        matched(ops, i2, j2),
        i < i2 < j,
    ensures
        j2 < j,
{
    assert(depth(ops, i2) > depth(ops, i));
    if j2 > j {
        assert(depth(ops, j + 1) > depth(ops, i2));
    }
}

/// The depth after `m` opcodes does not depend on what follows them.
pub proof fn lemma_depth_prefix(ops: Seq<Opcode>, k: int, m: int)
    requires
        0 <= m <= k <= ops.len(),
    ensures
        depth(ops.take(k), m) == depth(ops, m),
    decreases m,
{
    if m > 0 {
        lemma_depth_prefix(ops, k, m - 1);
    }
}

/// Where no loop-close marker lacks an opener, none does in a prefix.
pub proof fn lemma_prefix_keeps_openers(ops: Seq<Opcode>, k: int)
    requires
        !underflows(ops),
        0 <= k <= ops.len(),
    ensures
        !underflows(ops.take(k)),
{
    assert forall|m: int| 0 <= m <= k implies #[trigger] depth(ops.take(k), m) >= 0 by {
        lemma_depth_prefix(ops, k, m);
        assert(depth(ops, m) >= 0);
    }
}

} // verus!
