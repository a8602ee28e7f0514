//! Cycle detection on the wait-for graph of the lock table.

use vstd::prelude::*;
use crate::lock_table::{
    blocker_reaches, conflicts, is_chain, lemma_without_waiter_members, lock_conflicts, on_cycle,
    request_of, waits_for, with_waiter, without_waiter, would_deadlock, LockRequest, LockTable,
    LockTableView, WaiterView,
};

verus! {

/// A chain of waits goes on by one more wait.
pub proof fn lemma_chain_extend(t: LockTableView, path: Seq<u64>, c: u64)
    requires
        is_chain(t, path),
        waits_for(t, path.last(), c),
    ensures
        is_chain(t, path.push(c)),
{
    let longer = path.push(c);
    assert forall|i: int| 0 <= i < longer.len() - 1 implies waits_for(
        t,
        #[trigger] longer[i],
        longer[i + 1],
    ) by {
        if i < path.len() - 1 {
            assert(waits_for(t, path[i], path[i + 1]));
        }
    }
}

proof fn lemma_blocker_itself(t: LockTableView, r: LockRequest, li: int)
    requires
        0 <= li < t.held.len(),
        conflicts(t.held[li], r),
    ensures
        blocker_reaches(t, r, t.held[li].txn),
{
    let path = seq![t.held[li].txn];
    assert(is_chain(t, path));
    assert(path[0] == t.held[li].txn && path.last() == t.held[li].txn);
}

proof fn lemma_blocker_step(t: LockTableView, r: LockRequest, a: u64, c: u64)
    requires
        blocker_reaches(t, r, a),
        waits_for(t, a, c),
    ensures
        blocker_reaches(t, r, c),
{
    let (li, path) = choose|li: int, path: Seq<u64>|
        0 <= li < t.held.len() && conflicts(#[trigger] t.held[li], r) && #[trigger] is_chain(
            t,
            path,
        ) && path[0] == t.held[li].txn && path.last() == a;
    lemma_chain_extend(t, path, c);
    let longer = path.push(c);
    assert(is_chain(t, longer) && longer[0] == t.held[li].txn && longer.last() == c);
}

/// A chain that ends in `x` has a beginning that ends in `x` and does not
/// pass `x` before.
proof fn lemma_first_arrival(t: LockTableView, path: Seq<u64>, x: u64) -> (j: int)
    requires
        is_chain(t, path),
        path.last() == x,
    ensures
        0 <= j < path.len(),
        path[j] == x,
        forall|i: int| 0 <= i < j ==> path[i] != x,
        is_chain(t, path.take(j + 1)),
    decreases path.len(),
{
    let j = if path.len() == 1 || path[0] == x {
        0int
    } else {
        let tail = path.skip(1);
        assert forall|i: int| 0 <= i < tail.len() - 1 implies waits_for(
            t,
            #[trigger] tail[i],
            tail[i + 1],
        ) by {
            assert(waits_for(t, path[i + 1], path[i + 1 + 1]));
        }
        let k = lemma_first_arrival(t, tail, x);
        assert forall|i: int| 0 <= i < k + 1 implies path[i] != x by {
            if i > 0 {
                assert(tail[i - 1] == path[i]);
            }
        }
        k + 1
    };
    let head = path.take(j + 1);
    assert forall|i: int| 0 <= i < head.len() - 1 implies waits_for(
        t,
        #[trigger] head[i],
        head[i + 1],
    ) by {
        assert(waits_for(t, path[i], path[i + 1]));
    }
    j
}

/// A wait of a transaction other than the requester is a wait in the
/// table in which the request waits, and the other way round.
proof fn lemma_waits_of_others(t: LockTableView, r: LockRequest, since: u64, a: u64, b: u64)
    requires
        a != r.txn,
    ensures
        waits_for(t, a, b) == waits_for(with_waiter(t, r, since), a, b),
{
    let after = with_waiter(t, r, since);
    let others = without_waiter(t.waiting, r.txn);
    lemma_without_waiter_members(t.waiting, r.txn);
    if waits_for(t, a, b) {
        let (wi, li) = choose|wi: int, li: int|
            0 <= wi < t.waiting.len() && 0 <= li < t.held.len() && (#[trigger] t.waiting[wi]).txn
                == a && (#[trigger] t.held[li]).txn == b && conflicts(
                t.held[li],
                request_of(t.waiting[wi]),
            );
        assert(others.contains(t.waiting[wi]));
        let k = choose|k: int| 0 <= k < others.len() && others[k] == t.waiting[wi];
        assert(after.waiting[k] == t.waiting[wi]);
        assert(after.waiting[k].txn == a && after.held[li].txn == b);
    }
    if waits_for(after, a, b) {
        let (wi, li) = choose|wi: int, li: int|
            0 <= wi < after.waiting.len() && 0 <= li < after.held.len() && (
            #[trigger] after.waiting[wi]).txn == a && (#[trigger] after.held[li]).txn == b
                && conflicts(after.held[li], request_of(after.waiting[wi]));
        assert(wi < others.len());
        assert(others[wi] == after.waiting[wi]);
        assert(t.waiting.contains(others[wi]));
        let k = choose|k: int| 0 <= k < t.waiting.len() && t.waiting[k] == others[wi];
        assert(t.waiting[k].txn == a && t.held[li].txn == b);
    }
}

proof fn lemma_chain_of_others(
    t: LockTableView,
    r: LockRequest,
    since: u64,
    path: Seq<u64>,
    to_after: bool,
)
    requires
        path.len() > 0,
        forall|i: int| 0 <= i < path.len() - 1 ==> path[i] != r.txn,
        if to_after {
            is_chain(t, path)
        } else {
            is_chain(with_waiter(t, r, since), path)
        },
    ensures
        is_chain(t, path),
        is_chain(with_waiter(t, r, since), path),
{
    let after = with_waiter(t, r, since);
    assert forall|i: int| 0 <= i < path.len() - 1 implies waits_for(t, #[trigger] path[i], path[i + 1])
        && waits_for(after, path[i], path[i + 1]) by {
        lemma_waits_of_others(t, r, since, path[i], path[i + 1]);
    }
}

/// A deadlock is a cycle, and a cycle is a deadlock: to wait for the
/// request would close a cycle exactly if, in the table in which the
/// request waits, a cycle of waits leads from the requester back to it.
pub proof fn lemma_deadlock_is_cycle(t: LockTableView, r: LockRequest, since: u64)
    ensures
        would_deadlock(t, r) == on_cycle(with_waiter(t, r, since), r.txn),
{
    let after = with_waiter(t, r, since);
    let others = without_waiter(t.waiting, r.txn);
    let own = WaiterView { txn: r.txn, cf: r.cf, key: r.key, exclusive: r.exclusive, since };
    lemma_without_waiter_members(t.waiting, r.txn);
    if would_deadlock(t, r) {
        let (li, path) = choose|li: int, path: Seq<u64>|
            0 <= li < t.held.len() && conflicts(#[trigger] t.held[li], r) && #[trigger] is_chain(
                t,
                path,
            ) && path[0] == t.held[li].txn && path.last() == r.txn;
        let j = lemma_first_arrival(t, path, r.txn);
        let direct = path.take(j + 1);
        lemma_chain_of_others(t, r, since, direct, true);
        let cycle = seq![r.txn] + direct;
        assert(after.waiting[others.len() as int] == own);
        assert(request_of(own) == r);
        assert(after.waiting[others.len() as int].txn == r.txn && after.held[li].txn == direct[0]);
        assert(waits_for(after, r.txn, direct[0]));
        assert forall|i: int| 0 <= i < cycle.len() - 1 implies waits_for(
            after,
            #[trigger] cycle[i],
            cycle[i + 1],
        ) by {
            if i > 0 {
                assert(waits_for(after, direct[i - 1], direct[i - 1 + 1]));
            }
        }
        assert(is_chain(after, cycle) && cycle.len() > 1 && cycle[0] == r.txn && cycle.last()
            == r.txn);
    }
    if on_cycle(after, r.txn) {
        let cycle = choose|path: Seq<u64>|
            #[trigger] is_chain(after, path) && path.len() > 1 && path[0] == r.txn && path.last()
                == r.txn;
        assert(waits_for(after, cycle[0], cycle[0int + 1]));
        let (wi, li) = choose|wi: int, li: int|
            0 <= wi < after.waiting.len() && 0 <= li < after.held.len() && (
            #[trigger] after.waiting[wi]).txn == r.txn && (#[trigger] after.held[li]).txn
                == cycle[1] && conflicts(after.held[li], request_of(after.waiting[wi]));
        if wi < others.len() {
            assert(others[wi] == after.waiting[wi]);
        }
        assert(after.waiting[wi] == own);
        assert(conflicts(t.held[li], r));
        let rest = cycle.skip(1);
        assert forall|i: int| 0 <= i < rest.len() - 1 implies waits_for(
            after,
            #[trigger] rest[i],
            rest[i + 1],
        ) by {
            assert(waits_for(after, cycle[i + 1], cycle[i + 1 + 1]));
        }
        let j = lemma_first_arrival(after, rest, r.txn);
        let direct = rest.take(j + 1);
        lemma_chain_of_others(t, r, since, direct, false);
        assert(is_chain(t, direct) && direct[0] == t.held[li].txn && direct.last() == r.txn);
    }
}

spec fn count_false(marks: Seq<bool>) -> nat
    decreases marks.len(),
{
    if marks.len() == 0 {
        0
    } else {
        count_false(marks.drop_last()) + if marks.last() {
            0nat
        } else {
            1nat
        }
    }
}

proof fn lemma_mark(marks: Seq<bool>, i: int)
    requires
        0 <= i < marks.len(),
        !marks[i],
    ensures
        count_false(marks.update(i, true)) + 1 == count_false(marks),
    decreases marks.len(),
{
    let after = marks.update(i, true);
    if i == marks.len() - 1 {
        assert(after.drop_last() =~= marks.drop_last());
    } else {
        assert(after.drop_last() =~= marks.drop_last().update(i, true));
        lemma_mark(marks.drop_last(), i);
    }
}

spec fn all_waiters_marked(t: LockTableView, marks: Seq<bool>, b: u64) -> bool {
    forall|wj: int| 0 <= wj < t.waiting.len() && (#[trigger] t.waiting[wj]).txn == b ==> marks[wj]
}

spec fn sound(t: LockTableView, r: LockRequest, marks: Seq<bool>) -> bool {
    forall|wi: int|
        0 <= wi < marks.len() && #[trigger] marks[wi] ==> blocker_reaches(t, r, t.waiting[wi].txn)
}

spec fn stack_ok(marks: Seq<bool>, stack: Seq<usize>) -> bool {
    forall|k: int| 0 <= k < stack.len() ==> (#[trigger] stack[k]) < marks.len() && marks[stack[k] as int]
}

spec fn in_stack(stack: Seq<usize>, wi: int) -> bool {
    exists|k: int| 0 <= k < stack.len() && #[trigger] stack[k] == wi
}

spec fn closed_at(t: LockTableView, txn: u64, marks: Seq<bool>, wi: int, upto: int) -> bool {
    forall|li: int|
        0 <= li < upto && conflicts(#[trigger] t.held[li], request_of(t.waiting[wi]))
            ==> t.held[li].txn != txn && all_waiters_marked(t, marks, t.held[li].txn)
}

spec fn seeded(t: LockTableView, r: LockRequest, marks: Seq<bool>, upto: int) -> bool {
    forall|li: int|
        0 <= li < upto && conflicts(#[trigger] t.held[li], r) ==> all_waiters_marked(
            t,
            marks,
            t.held[li].txn,
        )
}

spec fn settled(
    t: LockTableView,
    r: LockRequest,
    marks: Seq<bool>,
    stack: Seq<usize>,
    except: int,
) -> bool {
    forall|wi: int|
        0 <= wi < marks.len() && #[trigger] marks[wi] && !in_stack(stack, wi) && wi != except
            ==> closed_at(t, r.txn, marks, wi, t.held.len() as int)
}

spec fn grows(before: Seq<bool>, after: Seq<bool>) -> bool {
    &&& before.len() == after.len()
    &&& forall|i: int| 0 <= i < before.len() && #[trigger] before[i] ==> after[i]
}

proof fn lemma_grow(
    t: LockTableView,
    r: LockRequest,
    before: Seq<bool>,
    after: Seq<bool>,
    old_stack: Seq<usize>,
    new_stack: Seq<usize>,
    except: int,
    seeds: int,
    wi: int,
    upto: int,
)
    requires
        grows(before, after),
        before.len() == t.waiting.len(),
        old_stack.is_prefix_of(new_stack),
        forall|i: int|
            0 <= i < after.len() && #[trigger] after[i] && !before[i] ==> in_stack(new_stack, i),
    ensures
        seeded(t, r, before, seeds) ==> seeded(t, r, after, seeds),
        settled(t, r, before, old_stack, except) ==> settled(t, r, after, new_stack, except),
        closed_at(t, r.txn, before, wi, upto) ==> closed_at(t, r.txn, after, wi, upto),
{
    assert forall|b: u64| all_waiters_marked(t, before, b) implies all_waiters_marked(
        t,
        after,
        b,
    ) by {
        assert forall|wj: int|
            0 <= wj < t.waiting.len() && (#[trigger] t.waiting[wj]).txn == b implies after[wj] by {
            assert(before[wj]);
        }
    }
    if settled(t, r, before, old_stack, except) {
        assert forall|x: int|
            0 <= x < after.len() && #[trigger] after[x] && !in_stack(new_stack, x) && x
                != except implies closed_at(t, r.txn, after, x, t.held.len() as int) by {
            assert(before[x]);
            if in_stack(old_stack, x) {
                let k = choose|k: int| 0 <= k < old_stack.len() && #[trigger] old_stack[k] == x;
                assert(new_stack[k] == x);
            }
            assert(closed_at(t, r.txn, before, x, t.held.len() as int));
        }
    }
}

proof fn lemma_closed_never_reaches(
    t: LockTableView,
    r: LockRequest,
    marks: Seq<bool>,
    path: Seq<u64>,
    i: int,
)
    requires
        marks.len() == t.waiting.len(),
        settled(t, r, marks, Seq::<usize>::empty(), -1),
        is_chain(t, path),
        path[0] != r.txn,
        all_waiters_marked(t, marks, path[0]),
        0 <= i < path.len(),
    ensures
        path[i] != r.txn,
        all_waiters_marked(t, marks, path[i]),
    decreases i,
{
    if i > 0 {
        lemma_closed_never_reaches(t, r, marks, path, i - 1);
        assert(waits_for(t, path[i - 1], path[i - 1 + 1]));
        let (wi, li) = choose|wi: int, li: int|
            0 <= wi < t.waiting.len() && 0 <= li < t.held.len() && (#[trigger] t.waiting[wi]).txn
                == path[i - 1] && (#[trigger] t.held[li]).txn == path[i] && conflicts(
                t.held[li],
                request_of(t.waiting[wi]),
            );
        assert(marks[wi]);
        assert(!in_stack(Seq::<usize>::empty(), wi));
        assert(closed_at(t, r.txn, marks, wi, t.held.len() as int));
    }
}

fn mark_waiters(
    table: &LockTable,
    b: u64,
    marks: &mut Vec<bool>,
    stack: &mut Vec<usize>,
    Ghost(r): Ghost<LockRequest>,
)
    requires
        old(marks)@.len() == table@.waiting.len(),
        stack_ok(old(marks)@, old(stack)@),
        sound(table@, r, old(marks)@),
        blocker_reaches(table@, r, b),
    ensures
        grows(old(marks)@, final(marks)@),
        stack_ok(final(marks)@, final(stack)@),
        sound(table@, r, final(marks)@),
        old(stack)@.is_prefix_of(final(stack)@),
        all_waiters_marked(table@, final(marks)@, b),
        forall|i: int|
            0 <= i < final(marks)@.len() && #[trigger] final(marks)@[i] && !old(marks)@[i]
                ==> in_stack(final(stack)@, i),
        2 * count_false(final(marks)@) + final(stack)@.len() <= 2 * count_false(old(marks)@) + old(
            stack,
        )@.len(),
{
    let n = table.waiting_len();
    let mut wj: usize = 0;
    while wj < n
        invariant
            wj <= n,
            n == table@.waiting.len(),
            marks@.len() == n,
            grows(old(marks)@, marks@),
            stack_ok(marks@, stack@),
            sound(table@, r, marks@),
            blocker_reaches(table@, r, b),
            old(stack)@.is_prefix_of(stack@),
            forall|j: int| 0 <= j < wj && (#[trigger] table@.waiting[j]).txn == b ==> marks@[j],
            forall|i: int|
                0 <= i < marks@.len() && #[trigger] marks@[i] && !old(marks)@[i] ==> in_stack(
                    stack@,
                    i,
                ),
            2 * count_false(marks@) + stack@.len() <= 2 * count_false(old(marks)@) + old(
                stack,
            )@.len(),
        decreases n - wj,
    {
        if table.waiter(wj).txn == b && !marks[wj] {
            let ghost m0 = marks@;
            let ghost s0 = stack@;
            proof {
                lemma_mark(m0, wj as int);
            }
            marks.set(wj, true);
            stack.push(wj);
            proof {
                assert(stack@[s0.len() as int] == wj);
                assert forall|i: int|
                    0 <= i < marks@.len() && #[trigger] marks@[i] && !old(marks)@[i] implies in_stack(
                    stack@,
                    i,
                ) by {
                    if i != wj {
                        assert(m0[i]);
                        let k = choose|k: int| 0 <= k < s0.len() && #[trigger] s0[k] == i;
                        assert(stack@[k] == i);
                    }
                }
                assert forall|k: int| 0 <= k < stack@.len() implies (#[trigger] stack@[k])
                    < marks@.len() && marks@[stack@[k] as int] by {
                    if k < s0.len() {
                        assert(s0[k] == stack@[k]);
                        assert(m0[s0[k] as int]);
                    }
                }
                assert forall|wi: int|
                    0 <= wi < marks@.len() && #[trigger] marks@[wi] implies blocker_reaches(
                    table@,
                    r,
                    table@.waiting[wi].txn,
                ) by {
                    if wi != wj {
                        assert(m0[wi]);
                    }
                }
                assert forall|i: int| 0 <= i < old(marks)@.len() && #[trigger] old(
                    marks,
                )@[i] implies marks@[i] by {
                    assert(m0[i]);
                }
            }
        }
        wj += 1;
    }
}

/// Whether to wait for the request would close a cycle of waits: the
/// search goes from the transactions that stand in the way of the request
/// along the waits, through every waiter once.
pub fn find_cycle(table: &LockTable, txn: u64, cf: u32, key: &[u8], exclusive: bool) -> (found:
    bool)
    ensures
        found == would_deadlock(table@, LockRequest { txn, cf, key: key@, exclusive }),
{
    let ghost r = LockRequest { txn, cf, key: key@, exclusive };
    let ghost t = table@;
    let nw = table.waiting_len();
    let nh = table.held_len();
    let mut marks: Vec<bool> = Vec::new();
    let mut i: usize = 0;
    while i < nw
        invariant
            i <= nw,
            marks@.len() == i,
            forall|j: int| 0 <= j < i ==> !marks@[j],
        decreases nw - i,
    {
        marks.push(false);
        i += 1;
    }
    let mut stack: Vec<usize> = Vec::new();
    let mut li: usize = 0;
    while li < nh
        invariant
            li <= nh,
            nh == t.held.len(),
            nw == t.waiting.len(),
            t == table@,
            r == (LockRequest { txn, cf, key: key@, exclusive }),
            marks@.len() == nw,
            stack_ok(marks@, stack@),
            sound(t, r, marks@),
            seeded(t, r, marks@, li as int),
            forall|x: int| 0 <= x < marks@.len() && #[trigger] marks@[x] ==> in_stack(stack@, x),
        decreases nh - li,
    {
        if lock_conflicts(table.lock(li), txn, cf, key, exclusive) {
            let ghost m0 = marks@;
            let ghost s0 = stack@;
            proof {
                lemma_blocker_itself(t, r, li as int);
            }
            mark_waiters(table, table.lock(li).txn, &mut marks, &mut stack, Ghost(r));
            proof {
                lemma_grow(t, r, m0, marks@, s0, stack@, -1, li as int, 0, 0);
                assert forall|x: int| 0 <= x < marks@.len() && #[trigger] marks@[x] implies in_stack(
                    stack@,
                    x,
                ) by {
                    if m0[x] {
                        let k = choose|k: int| 0 <= k < s0.len() && #[trigger] s0[k] == x;
                        assert(stack@[k] == x);
                    }
                }
            }
        }
        li += 1;
    }
    while stack.len() > 0
        invariant
            nh == t.held.len(),
            nw == t.waiting.len(),
            t == table@,
            r == (LockRequest { txn, cf, key: key@, exclusive }),
            marks@.len() == nw,
            stack_ok(marks@, stack@),
            sound(t, r, marks@),
            seeded(t, r, marks@, nh as int),
            settled(t, r, marks@, stack@, -1),
        decreases 2 * count_false(marks@) + stack@.len(),
    {
        let ghost s_start = stack@;
        let ghost measure = 2 * count_false(marks@) + stack@.len();
        let wi = stack.pop().unwrap();
        assert(s_start[s_start.len() - 1] == wi);
        proof {
            assert forall|x: int|
                0 <= x < marks@.len() && #[trigger] marks@[x] && !in_stack(stack@, x) && x
                    != wi implies closed_at(t, r.txn, marks@, x, t.held.len() as int) by {
                if in_stack(s_start, x) {
                    let k = choose|k: int| 0 <= k < s_start.len() && #[trigger] s_start[k] == x;
                    assert(stack@[k] == x);
                }
            }
            assert forall|k: int| 0 <= k < stack@.len() implies (#[trigger] stack@[k])
                < marks@.len() && marks@[stack@[k] as int] by {
                assert(s_start[k] == stack@[k]);
            }
        }
        let w = table.waiter(wi);
        let mut li: usize = 0;
        while li < nh
            invariant
                li <= nh,
                nh == t.held.len(),
                nw == t.waiting.len(),
                t == table@,
                r == (LockRequest { txn, cf, key: key@, exclusive }),
                marks@.len() == nw,
                wi < nw,
                marks@[wi as int],
                w@ == t.waiting[wi as int],
                stack_ok(marks@, stack@),
                sound(t, r, marks@),
                seeded(t, r, marks@, nh as int),
                settled(t, r, marks@, stack@, wi as int),
                closed_at(t, r.txn, marks@, wi as int, li as int),
                2 * count_false(marks@) + stack@.len() < measure,
            decreases nh - li,
        {
            let l = table.lock(li);
            if lock_conflicts(l, w.txn, w.cf, w.key.as_slice(), w.exclusive) {
                proof {
                    assert(request_of(t.waiting[wi as int]) == (LockRequest {
                        txn: w.txn,
                        cf: w.cf,
                        key: w.key@,
                        exclusive: w.exclusive,
                    }));
                    assert(t.waiting[wi as int].txn == w.txn && t.held[li as int].txn == l.txn);
                    assert(waits_for(t, w.txn, l.txn));
                    lemma_blocker_step(t, r, w.txn, l.txn);
                }
                if l.txn == txn {
                    return true;
                }
                let ghost m0 = marks@;
                let ghost s0 = stack@;
                mark_waiters(table, l.txn, &mut marks, &mut stack, Ghost(r));
                proof {
                    lemma_grow(t, r, m0, marks@, s0, stack@, wi as int, nh as int, wi as int, li as int);
                }
            }
            li += 1;
        }
    }
    proof {
        assert(stack@ =~= Seq::<usize>::empty());
        if would_deadlock(t, r) {
            let (li0, path) = choose|li: int, path: Seq<u64>|
                0 <= li < t.held.len() && conflicts(#[trigger] t.held[li], r) && #[trigger] is_chain(
                    t,
                    path,
                ) && path[0] == t.held[li].txn && path.last() == r.txn;
            lemma_closed_never_reaches(t, r, marks@, path, path.len() - 1);
        }
    }
    false
}

} // verus!
