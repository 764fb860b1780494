//! The banker's safety check used for deadlock avoidance.
//!
//! A state is safe when the live threads can be put in an order in which each
//! one, in turn, needs no more of any resource than is available once all the
//! threads before it have finished and given back what they hold.
use vstd::prelude::*;

verus! {

/// Thread `i` exists (its slot holds a task).
pub open spec fn is_live<T>(tasks: Seq<Option<T>>, i: int) -> bool {
    0 <= i < tasks.len() && tasks[i] is Some
}

/// What the threads listed in `ids` hold of resource `j`.
pub open spec fn held_sum(allocation: Seq<Vec<usize>>, ids: Seq<int>, j: int) -> int
    decreases ids.len(),
{
    if ids.len() == 0 {
        0
    } else {
        held_sum(allocation, ids.drop_last(), j) + allocation[ids.last()]@[j]
    }
}

/// What is available of resource `j` once the threads in `done` have finished.
pub open spec fn available(
    work: Seq<usize>,
    allocation: Seq<Vec<usize>>,
    done: Seq<int>,
    j: int,
) -> int {
    work[j] + held_sum(allocation, done, j)
}

/// A thread with outstanding need `need_row` can run to completion once the
/// threads in `done` have finished.
pub open spec fn can_finish(
    need_row: Seq<usize>,
    work: Seq<usize>,
    allocation: Seq<Vec<usize>>,
    done: Seq<int>,
) -> bool {
    forall|j: int| 0 <= j < work.len() ==> #[trigger] need_row[j] <= available(work, allocation, done, j)
}

/// `order` lists every live thread exactly once, and each can finish after
/// the ones before it.
pub open spec fn is_safe_sequence<T>(
    tasks: Seq<Option<T>>,
    work: Seq<usize>,
    need: Seq<Vec<usize>>,
    allocation: Seq<Vec<usize>>,
    order: Seq<int>,
) -> bool {
    &&& order.no_duplicates()
    &&& forall|k: int| 0 <= k < order.len() ==> is_live(tasks, #[trigger] order[k])
    &&& forall|i: int| is_live(tasks, i) ==> #[trigger] order.contains(i)
    &&& forall|k: int|
        0 <= k < order.len() ==> can_finish(
            need[#[trigger] order[k]]@,
            work,
            allocation,
            order.take(k),
        )
}

/// The state is safe: some order lets every live thread finish.
pub open spec fn safe_state<T>(
    tasks: Seq<Option<T>>,
    work: Seq<usize>,
    need: Seq<Vec<usize>>,
    allocation: Seq<Vec<usize>>,
) -> bool {
    exists|order: Seq<int>| is_safe_sequence(tasks, work, need, allocation, order)
}

/// The shape the safety check needs: a thread slot at least, a need row for
/// each slot, the first as long as `work`, a need row and an allocation row
/// at least as long as `work` for each live thread, and no available count
/// that could pass `usize::MAX` as the live threads give back what they hold.
pub open spec fn banker_inputs_ok<T>(
    tasks: Seq<Option<T>>,
    work: Seq<usize>,
    need: Seq<Vec<usize>>,
    allocation: Seq<Vec<usize>>,
) -> bool {
    &&& tasks.len() > 0
    &&& need.len() == tasks.len()
    &&& need[0]@.len() == work.len()
    &&& forall|i: int| is_live(tasks, i) ==> #[trigger] need[i]@.len() >= work.len()
    &&& forall|i: int| #[trigger] is_live(tasks, i) ==> i < allocation.len()
    &&& forall|i: int| is_live(tasks, i) ==> #[trigger] allocation[i]@.len() >= work.len()
    &&& forall|j: int|
        0 <= j < work.len() ==> #[trigger] available(work, allocation, live_ids(tasks), j)
            <= usize::MAX
}

/// The live threads, in index order.
pub open spec fn live_ids<T>(tasks: Seq<Option<T>>) -> Seq<int>
    decreases tasks.len(),
{
    if tasks.len() == 0 {
        Seq::empty()
    } else {
        let rest = live_ids(tasks.drop_last());
        if tasks.last() is Some {
            rest.push(tasks.len() - 1)
        } else {
            rest
        }
    }
}

/// How many entries of `s` are set.
pub open spec fn count_true(s: Seq<bool>) -> nat
    decreases s.len(),
{
    if s.len() == 0 {
        0
    } else {
        count_true(s.drop_last()) + if s.last() {
            1nat
        } else {
            0nat
        }
    }
}

proof fn lemma_count_true_bounds(s: Seq<bool>)
    ensures
        count_true(s) <= s.len(),
        count_true(s) == s.len() <==> forall|i: int| 0 <= i < s.len() ==> s[i],
    decreases s.len(),
{
    if s.len() > 0 {
        lemma_count_true_bounds(s.drop_last());
        if forall|i: int| 0 <= i < s.len() ==> s[i] {
            assert forall|i: int| 0 <= i < s.drop_last().len() implies s.drop_last()[i] by {
                assert(s[i]);
            }
        }
        if count_true(s) == s.len() {
            assert forall|i: int| 0 <= i < s.len() implies s[i] by {
                if i < s.len() - 1 {
                    assert(s.drop_last()[i] == s[i]);
                }
            }
        }
    }
}

proof fn lemma_count_true_set(s: Seq<bool>, i: int)
    requires
        0 <= i < s.len(),
        !s[i],
    ensures
        count_true(s.update(i, true)) == count_true(s) + 1,
    decreases s.len(),
{
    let t = s.update(i, true);
    if i == s.len() - 1 {
        assert(t.drop_last() =~= s.drop_last());
    } else {
        assert(t.drop_last() =~= s.drop_last().update(i, true));
        lemma_count_true_set(s.drop_last(), i);
    }
}

proof fn lemma_count_true_push(s: Seq<bool>, b: bool)
    ensures
        count_true(s.push(b)) == count_true(s) + if b {
            1nat
        } else {
            0nat
        },
{
    assert(s.push(b).drop_last() =~= s);
}

proof fn lemma_live_ids<T>(tasks: Seq<Option<T>>)
    ensures
        live_ids(tasks).no_duplicates(),
        forall|x: int| #[trigger] live_ids(tasks).contains(x) <==> is_live(tasks, x),
    decreases tasks.len(),
{
    if tasks.len() > 0 {
        let pre = tasks.drop_last();
        lemma_live_ids(pre);
        let rest = live_ids(pre);
        assert forall|x: int| rest.contains(x) implies x < tasks.len() - 1 by {
            assert(is_live(pre, x));
        }
        if tasks.last() is Some {
            let ids = rest.push(tasks.len() - 1);
            assert(ids.no_duplicates()) by {
                assert forall|a: int, b: int|
                    0 <= a < ids.len() && 0 <= b < ids.len() && a != b implies ids[a] != ids[b] by {
                    if a < rest.len() {
                        assert(ids[a] == rest[a]);
                        assert(rest.contains(rest[a]));
                    }
                    if b < rest.len() {
                        assert(ids[b] == rest[b]);
                        assert(rest.contains(rest[b]));
                    }
                }
            }
            assert forall|x: int| #[trigger] ids.contains(x) <==> is_live(tasks, x) by {
                if ids.contains(x) {
                    let k = choose|k: int| 0 <= k < ids.len() && ids[k] == x;
                    if k < rest.len() {
                        assert(rest[k] == x);
                        assert(rest.contains(x));
                        assert(is_live(pre, x));
                    }
                }
                if is_live(tasks, x) {
                    if x < tasks.len() - 1 {
                        assert(is_live(pre, x));
                        assert(rest.contains(x));
                        let k = choose|k: int| 0 <= k < rest.len() && rest[k] == x;
                        assert(ids[k] == x);
                    } else {
                        assert(ids[rest.len() as int] == x);
                    }
                }
            }
        } else {
            assert forall|x: int| #[trigger] rest.contains(x) <==> is_live(tasks, x) by {
                if is_live(tasks, x) {
                    assert(x != tasks.len() - 1);
                    assert(is_live(pre, x));
                }
                if rest.contains(x) {
                    assert(is_live(pre, x));
                }
            }
        }
    }
}

proof fn lemma_held_sum_nonneg(allocation: Seq<Vec<usize>>, ids: Seq<int>, j: int)
    ensures
        held_sum(allocation, ids, j) >= 0,
    decreases ids.len(),
{
    if ids.len() > 0 {
        lemma_held_sum_nonneg(allocation, ids.drop_last(), j);
    }
}

proof fn lemma_held_sum_remove(allocation: Seq<Vec<usize>>, ids: Seq<int>, idx: int, j: int)
    requires
        0 <= idx < ids.len(),
    ensures
        held_sum(allocation, ids, j) == held_sum(allocation, ids.remove(idx), j)
            + allocation[ids[idx]]@[j],
    decreases ids.len(),
{
    if idx == ids.len() - 1 {
        assert(ids.remove(idx) =~= ids.drop_last());
    } else {
        let r = ids.remove(idx);
        assert(r.drop_last() =~= ids.drop_last().remove(idx));
        assert(r.last() == ids.last());
        lemma_held_sum_remove(allocation, ids.drop_last(), idx, j);
    }
}

proof fn lemma_remove_keeps_others(t: Seq<int>, idx: int, y: int)
    requires
        0 <= idx < t.len(),
        t.contains(y),
        y != t[idx],
    ensures
        t.remove(idx).contains(y),
{
    let p = choose|p: int| 0 <= p < t.len() && t[p] == y;
    if p < idx {
        assert(t.remove(idx)[p] == y);
    } else {
        assert(t.remove(idx)[p - 1] == y);
    }
}

proof fn lemma_remove_no_duplicates(t: Seq<int>, idx: int)
    requires
        0 <= idx < t.len(),
        t.no_duplicates(),
    ensures
        t.remove(idx).no_duplicates(),
        !t.remove(idx).contains(t[idx]),
{
    let r = t.remove(idx);
    assert forall|a: int, b: int| 0 <= a < r.len() && 0 <= b < r.len() && a != b implies r[a]
        != r[b] by {
        let ia = if a < idx {
            a
        } else {
            a + 1
        };
        let ib = if b < idx {
            b
        } else {
            b + 1
        };
        assert(r[a] == t[ia]);
        assert(r[b] == t[ib]);
    }
    if r.contains(t[idx]) {
        let p = choose|p: int| 0 <= p < r.len() && r[p] == t[idx];
        let ip = if p < idx {
            p
        } else {
            p + 1
        };
        assert(r[p] == t[ip]);
    }
}

/// What a set of threads holds is at most what a larger set holds.
proof fn lemma_held_sum_subset(allocation: Seq<Vec<usize>>, s: Seq<int>, t: Seq<int>, j: int)
    requires
        s.no_duplicates(),
        t.no_duplicates(),
        forall|x: int| #[trigger] s.contains(x) ==> t.contains(x),
    ensures
        held_sum(allocation, s, j) <= held_sum(allocation, t, j),
    decreases s.len(),
{
    if s.len() == 0 {
        lemma_held_sum_nonneg(allocation, t, j);
    } else {
        let x = s.last();
        let s2 = s.drop_last();
        assert(s.contains(x)) by {
            assert(s[s.len() - 1] == x);
        }
        let idx = choose|idx: int| 0 <= idx < t.len() && t[idx] == x;
        let t2 = t.remove(idx);
        lemma_remove_no_duplicates(t, idx);
        assert forall|y: int| #[trigger] s2.contains(y) implies t2.contains(y) by {
            let p = choose|p: int| 0 <= p < s2.len() && s2[p] == y;
            assert(s[p] == y);
            assert(s.contains(y));
            assert(y != x) by {
                assert(s[p] != s[s.len() - 1]);
            }
            lemma_remove_keeps_others(t, idx, y);
        }
        assert(s2.no_duplicates()) by {
            assert forall|a: int, b: int| 0 <= a < s2.len() && 0 <= b < s2.len() && a != b implies s2[a]
                != s2[b] by {
                assert(s2[a] == s[a]);
                assert(s2[b] == s[b]);
            }
        }
        lemma_held_sum_subset(allocation, s2, t2, j);
        lemma_held_sum_remove(allocation, t, idx, j);
    }
}

proof fn lemma_first_outside(a: Seq<int>, b: Seq<int>, w: int) -> (k: int)
    requires
        0 <= w < a.len(),
        !b.contains(a[w]),
    ensures
        0 <= k < a.len(),
        !b.contains(a[k]),
        forall|l: int| 0 <= l < k ==> b.contains(#[trigger] a[l]),
    decreases a.len(),
{
    if exists|l: int| 0 <= l < a.len() - 1 && !b.contains(a[l]) {
        let l = choose|l: int| 0 <= l < a.len() - 1 && !b.contains(a[l]);
        let pre = a.drop_last();
        assert(pre[l] == a[l]);
        let k = lemma_first_outside(pre, b, l);
        assert forall|l2: int| 0 <= l2 < k implies b.contains(#[trigger] a[l2]) by {
            assert(pre[l2] == a[l2]);
        }
        assert(pre[k] == a[k]);
        k
    } else {
        let k = a.len() - 1;
        assert forall|l2: int| 0 <= l2 < k implies b.contains(#[trigger] a[l2]) by {
        }
        if w < k {
        }
        k
    }
}

/// When the finished threads `done` leave some live thread that cannot
/// finish, and every live thread outside `done` needs more than is
/// available, no order lets all live threads finish.
proof fn lemma_stuck_means_unsafe<T>(
    tasks: Seq<Option<T>>,
    work: Seq<usize>,
    need: Seq<Vec<usize>>,
    allocation: Seq<Vec<usize>>,
    done: Seq<int>,
    u: int,
)
    requires
        done.no_duplicates(),
        is_live(tasks, u),
        !done.contains(u),
        forall|i: int|
            is_live(tasks, i) && !done.contains(i) ==> !#[trigger] can_finish(
                need[i]@,
                work,
                allocation,
                done,
            ),
    ensures
        !safe_state(tasks, work, need, allocation),
{
    if safe_state(tasks, work, need, allocation) {
        let order = choose|order: Seq<int>| is_safe_sequence(tasks, work, need, allocation, order);
        assert(order.contains(u));
        let w = choose|w: int| 0 <= w < order.len() && order[w] == u;
        let k = lemma_first_outside(order, done, w);
        let prefix = order.take(k);
        let v = order[k];
        assert(is_live(tasks, v));
        assert forall|x: int| #[trigger] prefix.contains(x) implies done.contains(x) by {
            let p = choose|p: int| 0 <= p < prefix.len() && prefix[p] == x;
            assert(prefix[p] == order[p]);
        }
        assert(prefix.no_duplicates()) by {
            assert forall|a: int, b: int|
                0 <= a < prefix.len() && 0 <= b < prefix.len() && a != b implies prefix[a]
                != prefix[b] by {
                assert(prefix[a] == order[a]);
                assert(prefix[b] == order[b]);
            }
        }
        assert(can_finish(need[v]@, work, allocation, prefix));
        assert(can_finish(need[v]@, work, allocation, done)) by {
            assert forall|j: int| 0 <= j < work.len() implies #[trigger] need[v]@[j] <= available(
                work,
                allocation,
                done,
                j,
            ) by {
                lemma_held_sum_subset(allocation, prefix, done, j);
                assert(need[v]@[j] <= available(work, allocation, prefix, j));
            }
        }
    }
}

/// Whether every entry of `row` below `m` is at most the matching entry of `work`.
fn row_fits(row: &Vec<usize>, work: &Vec<usize>, m: usize) -> (fits: bool)
    requires
        m <= row.len(),
        m <= work.len(),
    ensures
        fits == forall|j: int| 0 <= j < m ==> #[trigger] row@[j] <= work@[j],
{
    let mut j: usize = 0;
    while j < m
        invariant
            j <= m,
            m <= row.len(),
            m <= work.len(),
            forall|j2: int| 0 <= j2 < j ==> #[trigger] row@[j2] <= work@[j2],
        decreases m - j,
    {
        if row[j] > work[j] {
            return false;
        }
        j = j + 1;
    }
    true
}

/// Adds `row` entrywise into `work`.
fn add_row(work: &mut Vec<usize>, row: &Vec<usize>)
    requires
        old(work).len() <= row.len(),
        forall|j: int| 0 <= j < old(work).len() ==> old(work)@[j] + #[trigger] row@[j] <= usize::MAX,
    ensures
        final(work).len() == old(work).len(),
        forall|j: int|
            0 <= j < old(work).len() ==> #[trigger] final(work)@[j] == old(work)@[j] + row@[j],
{
    let m = work.len();
    let mut j: usize = 0;
    while j < m
        invariant
            j <= m,
            m == work.len(),
            m == old(work).len(),
            m <= row.len(),
            forall|j2: int| 0 <= j2 < m ==> old(work)@[j2] + #[trigger] row@[j2] <= usize::MAX,
            forall|j2: int| 0 <= j2 < j ==> #[trigger] work@[j2] == old(work)@[j2] + row@[j2],
            forall|j2: int| j <= j2 < m ==> #[trigger] work@[j2] == old(work)@[j2],
        decreases m - j,
    {
        let v = work[j] + row[j];
        work.set(j, v);
        j = j + 1;
    }
}

/// Whether some entry of `finish` is unset.
fn has_unfinished(finish: &Vec<bool>) -> (r: bool)
    ensures
        r == exists|i: int| 0 <= i < finish.len() && !#[trigger] finish@[i],
{
    let mut i: usize = 0;
    while i < finish.len()
        invariant
            i <= finish.len(),
            forall|i2: int| 0 <= i2 < i ==> #[trigger] finish@[i2],
        decreases finish.len() - i,
    {
        if !finish[i] {
            return true;
        }
        i = i + 1;
    }
    false
}

fn copy_row(row: &Vec<usize>) -> (out: Vec<usize>)
    ensures
        out@ == row@,
{
    let mut out: Vec<usize> = Vec::new();
    let mut j: usize = 0;
    while j < row.len()
        invariant
            j <= row.len(),
            out@ == row@.take(j as int),
        decreases row.len() - j,
    {
        out.push(row[j]);
        assert(row@.take(j + 1) =~= row@.take(j as int).push(row@[j as int]));
        j = j + 1;
    }
    assert(row@.take(row.len() as int) =~= row@);
    out
}

/// The banker's safety check: repeatedly sweeps the live threads, lets every
/// thread whose need fits into what is available finish and give back what it
/// holds, and fails once a sweep finishes nobody while some thread is left.
///
/// `work` holds what is available of each resource, `need[i]` what thread `i`
/// still needs, and `allocation[i]` what it holds; thread `i` exists when
/// `tasks[i]` holds a task.
pub fn banker_is_safe<T>(
    tasks: &Vec<Option<T>>,
    work: &Vec<usize>,
    need: &Vec<Vec<usize>>,
    allocation: &Vec<Vec<usize>>,
) -> (safe: bool)
    requires
        banker_inputs_ok(tasks@, work@, need@, allocation@),
    ensures
        safe == safe_state(tasks@, work@, need@, allocation@),
{
    let n = tasks.len();
    let m = work.len();
    let ghost work0 = work@;
    let ghost all_live = live_ids(tasks@);
    proof {
        lemma_live_ids(tasks@);
    }
    let mut finish: Vec<bool> = Vec::new();
    let mut safety_threads: usize = 0;
    let mut i: usize = 0;
    while i < n
        invariant
            i <= n,
            n == tasks.len(),
            finish.len() == i,
            forall|k: int| 0 <= k < i ==> #[trigger] finish@[k] == (tasks@[k] is None),
            safety_threads == count_true(finish@),
            safety_threads <= i,
        decreases n - i,
    {
        proof {
            lemma_count_true_push(finish@, tasks@[i as int] is None);
        }
        if tasks[i].is_none() {
            finish.push(true);
            safety_threads = safety_threads + 1;
        } else {
            finish.push(false);
        }
        i = i + 1;
    }
    let mut avail = copy_row(work);
    let ghost mut done: Seq<int> = Seq::empty();
    assert forall|j: int| 0 <= j < m implies #[trigger] avail@[j] == available(
        work0,
        allocation@,
        done,
        j,
    ) by {}
    while safety_threads < n
        invariant
            n == tasks.len(),
            m == work.len(),
            work0 == work@,
            all_live == live_ids(tasks@),
            all_live.no_duplicates(),
            forall|x: int| #[trigger] all_live.contains(x) <==> is_live(tasks@, x),
            need.len() == n,
            forall|i2: int| is_live(tasks@, i2) ==> #[trigger] need@[i2]@.len() >= m,
            forall|i2: int| #[trigger] is_live(tasks@, i2) ==> i2 < allocation@.len(),
            forall|i2: int| is_live(tasks@, i2) ==> #[trigger] allocation@[i2]@.len() >= m,
            forall|j: int|
                0 <= j < m ==> #[trigger] available(work0, allocation@, all_live, j) <= usize::MAX,
            finish.len() == n,
            avail.len() == m,
            safety_threads == count_true(finish@),
            safety_threads <= n,
            done.no_duplicates(),
            forall|k: int| 0 <= k < done.len() ==> is_live(tasks@, #[trigger] done[k]),
            forall|i2: int|
                0 <= i2 < n ==> (#[trigger] finish@[i2] <==> (tasks@[i2] is None || done.contains(
                    i2,
                ))),
            forall|k: int|
                0 <= k < done.len() ==> can_finish(
                    need@[#[trigger] done[k]]@,
                    work0,
                    allocation@,
                    done.take(k),
                ),
            forall|j: int|
                0 <= j < m ==> #[trigger] avail@[j] == available(work0, allocation@, done, j),
        decreases n - safety_threads,
    {
        let ghost start = safety_threads;
        let mut found = false;
        let mut i: usize = 0;
        while i < n
            invariant
                i <= n,
                n == tasks.len(),
                m == work.len(),
                work0 == work@,
                all_live.no_duplicates(),
                forall|x: int| #[trigger] all_live.contains(x) <==> is_live(tasks@, x),
                need.len() == n,
                forall|i2: int| is_live(tasks@, i2) ==> #[trigger] need@[i2]@.len() >= m,
                forall|i2: int| #[trigger] is_live(tasks@, i2) ==> i2 < allocation@.len(),
                forall|i2: int| is_live(tasks@, i2) ==> #[trigger] allocation@[i2]@.len() >= m,
                forall|j: int|
                    0 <= j < m ==> #[trigger] available(work0, allocation@, all_live, j)
                        <= usize::MAX,
                finish.len() == n,
                avail.len() == m,
                safety_threads == count_true(finish@),
                safety_threads <= n,
                done.no_duplicates(),
                forall|k: int| 0 <= k < done.len() ==> is_live(tasks@, #[trigger] done[k]),
                forall|i2: int|
                    0 <= i2 < n ==> (#[trigger] finish@[i2] <==> (tasks@[i2] is None
                        || done.contains(i2))),
                forall|k: int|
                    0 <= k < done.len() ==> can_finish(
                        need@[#[trigger] done[k]]@,
                        work0,
                        allocation@,
                        done.take(k),
                    ),
                forall|j: int|
                    0 <= j < m ==> #[trigger] avail@[j] == available(work0, allocation@, done, j),
                start < n,
                found ==> safety_threads > start,
                !found ==> safety_threads == start,
                !found ==> forall|i2: int|
                    0 <= i2 < i ==> #[trigger] finish@[i2] || !can_finish(
                        need@[i2]@,
                        work0,
                        allocation@,
                        done,
                    ),
            decreases n - i,
        {
            if !finish[i] {
                let satisfy = row_fits(&need[i], &avail, m);
                if satisfy {
                    let ghost old_done = done;
                    let ghost avail_before = avail@;
                    let ghost ii = i as int;
                    let ghost new_done = done.push(ii);
                    proof {
                        assert(is_live(tasks@, ii));
                        assert(!done.contains(ii));
                        assert(new_done.drop_last() =~= done);
                        assert(new_done.no_duplicates()) by {
                            assert forall|a: int, b: int|
                                0 <= a < new_done.len() && 0 <= b < new_done.len() && a
                                    != b implies new_done[a] != new_done[b] by {
                                if a < done.len() && b < done.len() {
                                    assert(new_done[a] == done[a]);
                                    assert(new_done[b] == done[b]);
                                } else if a < done.len() {
                                    assert(new_done[a] == done[a]);
                                    assert(done.contains(done[a]));
                                } else {
                                    assert(new_done[b] == done[b]);
                                    assert(done.contains(done[b]));
                                }
                            }
                        }
                        assert forall|x: int| #[trigger] new_done.contains(x) implies all_live.contains(x) by {
                            let p = choose|p: int| 0 <= p < new_done.len() && new_done[p] == x;
                            if p < done.len() {
                                assert(new_done[p] == done[p]);
                            }
                        }
                        assert forall|j: int| 0 <= j < m implies avail@[j] + #[trigger] allocation@[ii]@[j]
                            <= usize::MAX by {
                            lemma_held_sum_subset(allocation@, new_done, all_live, j);
                            assert(available(work0, allocation@, all_live, j) <= usize::MAX);
                            assert(held_sum(allocation@, new_done, j) == held_sum(allocation@, done, j)
                                + allocation@[ii]@[j]);
                        }
                        lemma_count_true_set(finish@, ii);
                        lemma_count_true_bounds(finish@.update(ii, true));
                    }
                    add_row(&mut avail, &allocation[i]);
                    finish.set(i, true);
                    found = true;
                    safety_threads = safety_threads + 1;
                    proof {
                        done = new_done;
                        assert forall|k: int| 0 <= k < done.len() implies is_live(
                            tasks@,
                            #[trigger] done[k],
                        ) by {
                            if k < old_done.len() {
                                assert(done[k] == old_done[k]);
                            }
                        }
                        assert forall|i2: int| 0 <= i2 < n implies (#[trigger] finish@[i2] <==> (
                        tasks@[i2] is None || done.contains(i2))) by {
                            if i2 != ii {
                                if old_done.contains(i2) {
                                    let p = choose|p: int|
                                        0 <= p < old_done.len() && old_done[p] == i2;
                                    assert(done[p] == i2);
                                }
                                if done.contains(i2) {
                                    let p = choose|p: int| 0 <= p < done.len() && done[p] == i2;
                                    assert(p < old_done.len());
                                    assert(old_done[p] == i2);
                                }
                            } else {
                                assert(done[old_done.len() as int] == ii);
                            }
                        }
                        assert forall|k: int| 0 <= k < done.len() implies can_finish(
                            need@[#[trigger] done[k]]@,
                            work0,
                            allocation@,
                            done.take(k),
                        ) by {
                            if k < old_done.len() {
                                assert(done.take(k) =~= old_done.take(k));
                                assert(done[k] == old_done[k]);
                            } else {
                                assert(done.take(k) =~= old_done);
                                assert forall|j: int| 0 <= j < work0.len() implies #[trigger] need@[ii]@[j]
                                    <= available(work0, allocation@, old_done, j) by {
                                    assert(need@[ii]@[j] <= avail_before[j]);
                                }
                            }
                        }
                    }
                }
            }
            i = i + 1;
        }
        if !found {
            let unfinished = has_unfinished(&finish);
            if !unfinished {
                proof {
                    lemma_count_true_bounds(finish@);
                    assert forall|k: int| 0 <= k < finish.len() implies #[trigger] finish@[k] by {}
                }
            }
        }
        if !found && has_unfinished(&finish) {
            proof {
                let u = choose|u: int| 0 <= u < finish.len() && !#[trigger] finish@[u];
                assert(is_live(tasks@, u));
                assert forall|i2: int|
                    is_live(tasks@, i2) && !done.contains(i2) implies !#[trigger] can_finish(
                    need@[i2]@,
                    work0,
                    allocation@,
                    done,
                ) by {
                    assert(!finish@[i2]);
                }
                lemma_stuck_means_unsafe(tasks@, work0, need@, allocation@, done, u);
            }
            return false;
        }
    }
    proof {
        lemma_count_true_bounds(finish@);
        assert forall|x: int| is_live(tasks@, x) implies #[trigger] done.contains(x) by {
            assert(finish@[x]);
        }
        assert(is_safe_sequence(tasks@, work0, need@, allocation@, done));
    }
    true
}

proof fn lemma_held_sum_mono(a: Seq<Vec<usize>>, b: Seq<Vec<usize>>, ids: Seq<int>, j: int)
    requires
        forall|k: int| 0 <= k < ids.len() ==> a[#[trigger] ids[k]]@[j] <= b[ids[k]]@[j],
    ensures
        held_sum(a, ids, j) <= held_sum(b, ids, j),
    decreases ids.len(),
{
    if ids.len() > 0 {
        let pre = ids.drop_last();
        assert forall|k: int| 0 <= k < pre.len() implies a[#[trigger] pre[k]]@[j] <= b[pre[k]]@[j] by {
            assert(pre[k] == ids[k]);
        }
        lemma_held_sum_mono(a, b, pre, j);
        assert(a[ids[ids.len() - 1]]@[j] <= b[ids[ids.len() - 1]]@[j]);
    }
}

/// More available units, smaller needs and larger holdings never make a
/// safe state unsafe.
pub proof fn law_safe_monotone<T>(
    tasks: Seq<Option<T>>,
    work: Seq<usize>,
    need: Seq<Vec<usize>>,
    allocation: Seq<Vec<usize>>,
    work2: Seq<usize>,
    need2: Seq<Vec<usize>>,
    allocation2: Seq<Vec<usize>>,
)
    requires
        safe_state(tasks, work, need, allocation),
        work2.len() == work.len(),
        forall|j: int| 0 <= j < work.len() ==> #[trigger] work[j] <= work2[j],
        forall|i: int, j: int|
            is_live(tasks, i) && 0 <= j < work.len() ==> #[trigger] need2[i]@[j] <= need[i]@[j],
        forall|i: int, j: int|
            is_live(tasks, i) && 0 <= j < work.len() ==> #[trigger] allocation[i]@[j]
                <= allocation2[i]@[j],
    ensures
        safe_state(tasks, work2, need2, allocation2),
{
    let order = choose|order: Seq<int>| is_safe_sequence(tasks, work, need, allocation, order);
    assert forall|k: int| 0 <= k < order.len() implies can_finish(
        need2[#[trigger] order[k]]@,
        work2,
        allocation2,
        order.take(k),
    ) by {
        let pre = order.take(k);
        assert(can_finish(need[order[k]]@, work, allocation, pre));
        assert forall|j: int| 0 <= j < work2.len() implies #[trigger] need2[order[k]]@[j] <= available(
            work2,
            allocation2,
            pre,
            j,
        ) by {
            assert forall|l: int| 0 <= l < pre.len() implies allocation[#[trigger] pre[l]]@[j]
                <= allocation2[pre[l]]@[j] by {
                assert(pre[l] == order[l]);
                assert(is_live(tasks, order[l]));
            }
            lemma_held_sum_mono(allocation, allocation2, pre, j);
            assert(need[order[k]]@[j] <= available(work, allocation, pre, j));
        }
    }
    assert(is_safe_sequence(tasks, work2, need2, allocation2, order));
}

proof fn lemma_held_sum_renumbered(
    allocation: Seq<Vec<usize>>,
    allocation2: Seq<Vec<usize>>,
    q: Seq<int>,
    ids: Seq<int>,
    j: int,
)
    requires
        forall|k: int| 0 <= k < ids.len() ==> allocation2[q[#[trigger] ids[k]]] == allocation[ids[k]],
    ensures
        held_sum(allocation2, ids.map_values(|x: int| q[x]), j) == held_sum(allocation, ids, j),
    decreases ids.len(),
{
    if ids.len() > 0 {
        let pre = ids.drop_last();
        assert(ids.map_values(|x: int| q[x]).drop_last() =~= pre.map_values(|x: int| q[x]));
        assert forall|k: int| 0 <= k < pre.len() implies allocation2[q[#[trigger] pre[k]]]
            == allocation[pre[k]] by {
            assert(pre[k] == ids[k]);
        }
        lemma_held_sum_renumbered(allocation, allocation2, q, pre, j);
        assert(allocation2[q[ids[ids.len() - 1]]] == allocation[ids[ids.len() - 1]]);
    }
}

proof fn lemma_safe_renumbered<T>(
    tasks: Seq<Option<T>>,
    work: Seq<usize>,
    need: Seq<Vec<usize>>,
    allocation: Seq<Vec<usize>>,
    p: Seq<int>,
    q: Seq<int>,
    tasks2: Seq<Option<T>>,
    need2: Seq<Vec<usize>>,
    allocation2: Seq<Vec<usize>>,
)
    requires
        safe_state(tasks, work, need, allocation),
        tasks2.len() == tasks.len(),
        p.len() == tasks.len(),
        q.len() == tasks.len(),
        forall|i: int|
            #![trigger p[i]]
            #![trigger q[i]]
            0 <= i < tasks.len() ==> 0 <= p[i] < tasks.len() && 0 <= q[i] < tasks.len() && p[q[i]]
                == i && q[p[i]] == i,
        forall|i: int|
            0 <= i < tasks.len() ==> #[trigger] tasks2[i] == tasks[p[i]] && need2[i] == need[p[i]]
                && allocation2[i] == allocation[p[i]],
    ensures
        safe_state(tasks2, work, need2, allocation2),
{
    let n = tasks.len();
    let order = choose|order: Seq<int>| is_safe_sequence(tasks, work, need, allocation, order);
    let order2 = order.map_values(|x: int| q[x]);
    assert forall|k: int| 0 <= k < order.len() implies 0 <= #[trigger] order[k] < n && p[q[order[k]]]
        == order[k] && tasks2[q[order[k]]] == tasks[order[k]] && need2[q[order[k]]]
        == need[order[k]] && allocation2[q[order[k]]] == allocation[order[k]] by {
        assert(is_live(tasks, order[k]));
        let x = order[k];
        assert(0 <= q[x] < n);
        assert(tasks2[q[x]] == tasks[p[q[x]]]);
    }
    assert(order2.no_duplicates()) by {
        assert forall|a: int, b: int|
            0 <= a < order2.len() && 0 <= b < order2.len() && a != b implies order2[a] != order2[b] by {
            assert(order[a] != order[b]);
            assert(p[q[order[a]]] == order[a]);
            assert(p[q[order[b]]] == order[b]);
        }
    }
    assert forall|k: int| 0 <= k < order2.len() implies is_live(tasks2, #[trigger] order2[k]) by {
        assert(is_live(tasks, order[k]));
    }
    assert forall|i: int| is_live(tasks2, i) implies #[trigger] order2.contains(i) by {
        assert(tasks2[i] == tasks[p[i]]);
        assert(is_live(tasks, p[i]));
        assert(order.contains(p[i]));
        let k = choose|k: int| 0 <= k < order.len() && order[k] == p[i];
        assert(order2[k] == q[p[i]]);
    }
    assert forall|k: int| 0 <= k < order2.len() implies can_finish(
        need2[#[trigger] order2[k]]@,
        work,
        allocation2,
        order2.take(k),
    ) by {
        let pre = order.take(k);
        assert(order2.take(k) =~= pre.map_values(|x: int| q[x]));
        assert forall|l: int| 0 <= l < pre.len() implies allocation2[q[#[trigger] pre[l]]]
            == allocation[pre[l]] by {
            assert(pre[l] == order[l]);
        }
        assert(can_finish(need[order[k]]@, work, allocation, pre));
        assert forall|j: int| 0 <= j < work.len() implies #[trigger] need2[order2[k]]@[j] <= available(
            work,
            allocation2,
            order2.take(k),
            j,
        ) by {
            lemma_held_sum_renumbered(allocation, allocation2, q, pre, j);
            assert(need[order[k]]@[j] <= available(work, allocation, pre, j));
        }
    }
    assert(is_safe_sequence(tasks2, work, need2, allocation2, order2));
}

/// Renumbering the threads (slot `i` of the new state holds what slot `p[i]`
/// held, `q` undoing `p`) does not change whether the state is safe.
pub proof fn law_safe_renumbering<T>(
    tasks: Seq<Option<T>>,
    work: Seq<usize>,
    need: Seq<Vec<usize>>,
    allocation: Seq<Vec<usize>>,
    p: Seq<int>,
    q: Seq<int>,
    tasks2: Seq<Option<T>>,
    need2: Seq<Vec<usize>>,
    allocation2: Seq<Vec<usize>>,
)
    requires
        tasks2.len() == tasks.len(),
        p.len() == tasks.len(),
        q.len() == tasks.len(),
        forall|i: int|
            #![trigger p[i]]
            #![trigger q[i]]
            0 <= i < tasks.len() ==> 0 <= p[i] < tasks.len() && 0 <= q[i] < tasks.len() && p[q[i]]
                == i && q[p[i]] == i,
        forall|i: int|
            0 <= i < tasks.len() ==> #[trigger] tasks2[i] == tasks[p[i]] && need2[i] == need[p[i]]
                && allocation2[i] == allocation[p[i]],
    ensures
        safe_state(tasks2, work, need2, allocation2) == safe_state(tasks, work, need, allocation),
{
    let n = tasks.len();
    if safe_state(tasks, work, need, allocation) {
        lemma_safe_renumbered(tasks, work, need, allocation, p, q, tasks2, need2, allocation2);
    }
    if safe_state(tasks2, work, need2, allocation2) {
        assert forall|i: int|
            #![trigger q[i]]
            #![trigger p[i]]
            0 <= i < n implies 0 <= q[i] < n && 0 <= p[i] < n && q[p[i]] == i && p[q[i]] == i by {
            assert(0 <= q[i] < n);
        }
        assert forall|i: int|
            0 <= i < n implies #[trigger] tasks[i] == tasks2[q[i]] && need[i] == need2[q[i]]
            && allocation[i] == allocation2[q[i]] by {
            assert(0 <= q[i] < n);
            assert(p[q[i]] == i);
            assert(tasks2[q[i]] == tasks[p[q[i]]]);
        }
        lemma_safe_renumbered(tasks2, work, need2, allocation2, q, p, tasks, need, allocation);
    }
}

} // verus!
