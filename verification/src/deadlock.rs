//! Deadlock avoidance with the banker's algorithm.
//!
//! A lock matrix maps a thread id to a map from lock id to a count; a
//! missing row or entry counts as zero.  A request is safe when the
//! threads can all run to completion in some order, each one finding
//! what it still needs among the free units plus those released by the
//! threads before it.
use vstd::prelude::*;
use std::collections::BTreeMap;
use crate::process::{ProcessControlBlock, ProcessControlBlockInner};

verus! {

/// The count that `m` records for thread `t` and lock `i`, zero when absent.
pub open spec fn matrix_entry(m: Map<usize, BTreeMap<usize, u8>>, t: usize, i: usize) -> u8 {
    if m.contains_key(t) && m[t]@.contains_key(i) {
        m[t]@[i]
    } else {
        0
    }
}

/// Units of lock `i` that the threads of `s` hold, and release when they finish.
pub open spec fn released(alloc: Map<usize, BTreeMap<usize, u8>>, s: Seq<usize>, i: usize) -> int
    decreases s.len(),
{
    if s.len() == 0 {
        0
    } else {
        released(alloc, s.drop_last(), i) + matrix_entry(alloc, s.last(), i)
    }
}

/// The smaller of `a` and `b`.
pub open spec fn min_int(a: int, b: int) -> int {
    if a <= b {
        a
    } else {
        b
    }
}

/// Thread `t` can run to completion once the threads of `done` have finished.
pub open spec fn can_finish(
    need: Map<usize, BTreeMap<usize, u8>>,
    alloc: Map<usize, BTreeMap<usize, u8>>,
    available: Seq<u8>,
    done: Seq<usize>,
    t: usize,
    lock_count: usize,
) -> bool {
    forall|i: usize|
        i < lock_count ==> #[trigger] matrix_entry(need, t, i) <= available[i as int] + released(
            alloc,
            done,
            i,
        )
}

/// `s` runs every thread below `task_count` exactly once, each after the
/// ones it must wait for.
pub open spec fn is_safe_sequence(
    need: Map<usize, BTreeMap<usize, u8>>,
    alloc: Map<usize, BTreeMap<usize, u8>>,
    available: Seq<u8>,
    s: Seq<usize>,
    task_count: usize,
    lock_count: usize,
) -> bool {
    &&& s.no_duplicates()
    &&& forall|k: int| 0 <= k < s.len() ==> #[trigger] s[k] < task_count
    &&& forall|t: usize| t < task_count ==> #[trigger] s.contains(t)
    &&& forall|k: int|
        0 <= k < s.len() ==> can_finish(need, alloc, available, s.take(k), #[trigger] s[k], lock_count)
}

/// Some order lets every thread finish: the state is safe.
pub open spec fn has_safe_sequence(
    need: Map<usize, BTreeMap<usize, u8>>,
    alloc: Map<usize, BTreeMap<usize, u8>>,
    available: Seq<u8>,
    task_count: usize,
    lock_count: usize,
) -> bool {
    exists|s: Seq<usize>| is_safe_sequence(need, alloc, available, s, task_count, lock_count)
}

/// `new` is `old` with one more unit for thread `t` and lock `i`.
pub open spec fn need_incremented(
    old: Map<usize, BTreeMap<usize, u8>>,
    new: Map<usize, BTreeMap<usize, u8>>,
    t: usize,
    i: usize,
) -> bool {
    &&& new.dom() == old.dom().insert(t)
    &&& forall|t2: usize, i2: usize|
        #[trigger] matrix_entry(new, t2, i2) == if t2 == t && i2 == i {
            matrix_entry(old, t, i) + 1
        } else {
            matrix_entry(old, t2, i2) as int
        }
}

/// A request with these ids asks for the mutex `mutex_id`.
pub open spec fn requests_mutex(mutex_id: isize, semaphore_id: isize) -> bool {
    mutex_id >= 0 && !(mutex_id > 0 && semaphore_id > 0)
}

/// A request with these ids asks for the semaphore `semaphore_id`.
pub open spec fn requests_semaphore(mutex_id: isize, semaphore_id: isize) -> bool {
    mutex_id == -1 && semaphore_id >= 0
}

/// The two process states differ at most in their need matrices.
pub open spec fn same_but_needs(a: &ProcessControlBlockInner, b: &ProcessControlBlockInner) -> bool {
    &&& a.is_zombie == b.is_zombie
    &&& a.memory_set == b.memory_set
    &&& a.parent == b.parent
    &&& a.children == b.children
    &&& a.exit_code == b.exit_code
    &&& a.fd_table == b.fd_table
    &&& a.signals == b.signals
    &&& a.tasks == b.tasks
    &&& a.task_res_allocator == b.task_res_allocator
    &&& a.mutex_list == b.mutex_list
    &&& a.semaphore_list == b.semaphore_list
    &&& a.condvar_list == b.condvar_list
    &&& a.enable_detect_deadlock == b.enable_detect_deadlock
    &&& a.available_mutex == b.available_mutex
    &&& a.available_semaphore == b.available_semaphore
    &&& a.alloc_matrix_for_mutex == b.alloc_matrix_for_mutex
    &&& a.alloc_matrix_for_semaphore == b.alloc_matrix_for_semaphore
}

/// The number of `false` entries of `s`.
spec fn count_unfinished(s: Seq<bool>) -> nat
    decreases s.len(),
{
    if s.len() == 0 {
        0
    } else {
        count_unfinished(s.drop_last()) + if s.last() {
            0nat
        } else {
            1nat
        }
    }
}

proof fn lemma_count_unfinished_mark(s: Seq<bool>, t: int)
    requires
        0 <= t < s.len(),
        !s[t],
    ensures
        count_unfinished(s.update(t, true)) + 1 == count_unfinished(s),
    decreases s.len(),
{
    if t < s.len() - 1 {
        lemma_count_unfinished_mark(s.drop_last(), t);
        assert(s.update(t, true).drop_last() =~= s.drop_last().update(t, true));
    } else {
        assert(s.update(t, true).drop_last() =~= s.drop_last());
    }
}

proof fn lemma_released_nonneg(alloc: Map<usize, BTreeMap<usize, u8>>, s: Seq<usize>, i: usize)
    ensures
        released(alloc, s, i) >= 0,
    decreases s.len(),
{
    if s.len() > 0 {
        lemma_released_nonneg(alloc, s.drop_last(), i);
    }
}

/// Removing one thread from `s` removes exactly its units from the total.
proof fn lemma_released_remove(
    alloc: Map<usize, BTreeMap<usize, u8>>,
    s: Seq<usize>,
    j: int,
    i: usize,
)
    requires
        0 <= j < s.len(),
    ensures
        released(alloc, s, i) == released(alloc, s.remove(j), i) + matrix_entry(alloc, s[j], i),
    decreases s.len(),
{
    if j == s.len() - 1 {
        assert(s.remove(j) =~= s.drop_last());
    } else {
        let d = s.drop_last();
        lemma_released_remove(alloc, d, j, i);
        assert(s.remove(j).drop_last() =~= d.remove(j));
        assert(s.remove(j).last() == s.last());
    }
}

/// The threads of `a` all occur in `b`, so they release no more than `b`'s.
proof fn lemma_released_subset(
    alloc: Map<usize, BTreeMap<usize, u8>>,
    a: Seq<usize>,
    b: Seq<usize>,
    i: usize,
)
    requires
        a.no_duplicates(),
        b.no_duplicates(),
        forall|k: int| 0 <= k < a.len() ==> b.contains(#[trigger] a[k]),
    ensures
        released(alloc, a, i) <= released(alloc, b, i),
    decreases a.len(),
{
    if a.len() == 0 {
        lemma_released_nonneg(alloc, b, i);
    } else {
        let x = a.last();
        assert(b.contains(a[a.len() - 1]));
        let j = choose|j: int| 0 <= j < b.len() && b[j] == x;
        let b2 = b.remove(j);
        let a2 = a.drop_last();
        lemma_released_remove(alloc, b, j, i);
        assert(b2.no_duplicates()) by {
            assert forall|p: int, q: int| 0 <= p < b2.len() && 0 <= q < b2.len() && p != q implies b2[p]
                != b2[q] by {
                let pp = if p < j {
                    p
                } else {
                    p + 1
                };
                let qq = if q < j {
                    q
                } else {
                    q + 1
                };
                assert(b2[p] == b[pp]);
                assert(b2[q] == b[qq]);
            }
        }
        assert forall|k: int| 0 <= k < a2.len() implies b2.contains(#[trigger] a2[k]) by {
            assert(a2[k] == a[k]);
            assert(b.contains(a[k]));
            let m = choose|m: int| 0 <= m < b.len() && b[m] == a[k];
            assert(a[k] != a[a.len() - 1]);
            assert(m != j);
            if m < j {
                assert(b2[m] == a[k]);
            } else {
                assert(b2[m - 1] == a[k]);
            }
        }
        lemma_released_subset(alloc, a2, b2, i);
    }
}

/// Within `s` some position holds a thread outside `done`: the first such
/// position has only threads of `done` before it.
proof fn lemma_first_outside(s: Seq<usize>, done: Seq<usize>, k0: int) -> (k: int)
    requires
        0 <= k0 < s.len(),
        !done.contains(s[k0]),
    ensures
        0 <= k <= k0,
        !done.contains(s[k]),
        forall|j: int| 0 <= j < k ==> done.contains(#[trigger] s[j]),
    decreases k0,
{
    if exists|j: int| 0 <= j < k0 && !done.contains(#[trigger] s[j]) {
        let j = choose|j: int| 0 <= j < k0 && !done.contains(#[trigger] s[j]);
        lemma_first_outside(s, done, j)
    } else {
        k0
    }
}

/// When no unfinished thread can proceed after the threads of `done`,
/// no order lets every thread finish.
proof fn lemma_stuck_means_unsafe(
    need: Map<usize, BTreeMap<usize, u8>>,
    alloc: Map<usize, BTreeMap<usize, u8>>,
    available: Seq<u8>,
    done: Seq<usize>,
    task_count: usize,
    lock_count: usize,
    u: usize,
)
    requires
        done.no_duplicates(),
        u < task_count,
        !done.contains(u),
        forall|t: usize|
            t < task_count && !done.contains(t) ==> !#[trigger] can_finish(
                need,
                alloc,
                available,
                done,
                t,
                lock_count,
            ),
    ensures
        !has_safe_sequence(need, alloc, available, task_count, lock_count),
{
    if has_safe_sequence(need, alloc, available, task_count, lock_count) {
        let s = choose|s: Seq<usize>|
            is_safe_sequence(need, alloc, available, s, task_count, lock_count);
        assert(s.contains(u));
        let k0 = choose|k0: int| 0 <= k0 < s.len() && s[k0] == u;
        let k = lemma_first_outside(s, done, k0);
        let t = s[k];
        let prefix = s.take(k);
        assert(can_finish(need, alloc, available, prefix, t, lock_count));
        assert(prefix.no_duplicates()) by {
            assert forall|p: int, q: int| 0 <= p < prefix.len() && 0 <= q < prefix.len() && p != q implies prefix[p]
                != prefix[q] by {
                assert(prefix[p] == s[p]);
                assert(prefix[q] == s[q]);
            }
        }
        assert forall|j: int| 0 <= j < prefix.len() implies done.contains(#[trigger] prefix[j]) by {
            assert(prefix[j] == s[j]);
        }
        assert(can_finish(need, alloc, available, done, t, lock_count)) by {
            assert forall|i: usize| i < lock_count implies #[trigger] matrix_entry(need, t, i)
                <= available[i as int] + released(alloc, done, i) by {
                lemma_released_subset(alloc, prefix, done, i);
            }
        }
        assert(t < task_count);
    }
}

/// More free units never turn a safe state into an unsafe one: the same
/// order still lets every thread finish.
pub proof fn lemma_safe_monotone(
    need: Map<usize, BTreeMap<usize, u8>>,
    alloc: Map<usize, BTreeMap<usize, u8>>,
    available: Seq<u8>,
    more: Seq<u8>,
    task_count: usize,
    lock_count: usize,
)
    requires
        has_safe_sequence(need, alloc, available, task_count, lock_count),
        lock_count <= available.len(),
        lock_count <= more.len(),
        forall|i: int| 0 <= i < lock_count ==> available[i] <= #[trigger] more[i],
    ensures
        has_safe_sequence(need, alloc, more, task_count, lock_count),
{
    let s = choose|s: Seq<usize>| is_safe_sequence(need, alloc, available, s, task_count, lock_count);
    assert forall|k: int| 0 <= k < s.len() implies can_finish(
        need,
        alloc,
        more,
        s.take(k),
        #[trigger] s[k],
        lock_count,
    ) by {
        assert(can_finish(need, alloc, available, s.take(k), s[k], lock_count));
        assert forall|i: usize| i < lock_count implies #[trigger] matrix_entry(need, s[k], i)
            <= more[i as int] + released(alloc, s.take(k), i) by {
            assert(matrix_entry(need, s[k], i) <= available[i as int] + released(alloc, s.take(k), i));
            assert(available[i as int] <= more[i as int]);
        }
    }
    assert(is_safe_sequence(need, alloc, more, s, task_count, lock_count));
}

impl ProcessControlBlock {
    /// The count that `map` records for thread `tid` and lock `lock_id`, if any.
    pub fn get_from_btreemap(map: &BTreeMap<usize, BTreeMap<usize, u8>>, tid: usize, lock_id: usize) -> (r:
        Option<u8>)
        ensures
            r == (if map@.contains_key(tid) && map@[tid]@.contains_key(lock_id) {
                Some(map@[tid]@[lock_id])
            } else {
                None::<u8>
            }),
    {
        match map.get(&tid) {
            None => None,
            Some(row) => match row.get(&lock_id) {
                None => None,
                Some(v) => Some(*v),
            },
        }
    }

    /// Adds `increment` to the count recorded for thread `tid` and lock
    /// `lock_id`, and returns the new count; a missing entry is left alone
    /// and gives `None`.
    pub fn change_from_btreemap(
        map: &mut BTreeMap<usize, BTreeMap<usize, u8>>,
        tid: usize,
        lock_id: usize,
        increment: u8,
    ) -> (r: Option<u8>)
        requires
            old(map)@.contains_key(tid) && old(map)@[tid]@.contains_key(lock_id) ==> old(
                map,
            )@[tid]@[lock_id] + increment <= u8::MAX,
        ensures
            old(map)@.contains_key(tid) && old(map)@[tid]@.contains_key(lock_id) ==> {
                let v = (old(map)@[tid]@[lock_id] + increment) as u8;
                &&& r == Some(v)
                &&& final(map)@.dom() == old(map)@.dom()
                &&& final(map)@[tid]@ == old(map)@[tid]@.insert(lock_id, v)
                &&& forall|t: usize| t != tid ==> #[trigger] final(map)@.get(t) == old(map)@.get(t)
            },
            !(old(map)@.contains_key(tid) && old(map)@[tid]@.contains_key(lock_id)) ==> r is None
                && final(map)@ == old(map)@,
    {
        match map.remove(&tid) {
            None => None,
            Some(mut row) => {
                let r = match row.get(&lock_id) {
                    None => None,
                    Some(v) => {
                        let nv = *v + increment;
                        row.insert(lock_id, nv);
                        Some(nv)
                    },
                };
                map.insert(tid, row);
                proof {
                    if r is None {
                        assert(map@ =~= old(map)@);
                    } else {
                        assert(map@.dom() =~= old(map)@.dom());
                    }
                }
                r
            },
        }
    }

    /// Forgets every count recorded for thread `tid`.
    pub fn remove_from_btreemap(map: &mut BTreeMap<usize, BTreeMap<usize, u8>>, tid: usize)
        ensures
            final(map)@ == old(map)@.remove(tid),
    {
        map.remove(&tid);
    }

    /// Records one more unit of lock `i` requested by thread `t`.
    fn increment_need(map: &mut BTreeMap<usize, BTreeMap<usize, u8>>, t: usize, i: usize)
        requires
            matrix_entry(old(map)@, t, i) < 255,
        ensures
            need_incremented(old(map)@, final(map)@, t, i),
    {
        let mut row = match map.remove(&t) {
            Some(r) => r,
            None => BTreeMap::new(),
        };
        let cur = match row.get(&i) {
            Some(v) => *v,
            None => 0,
        };
        row.insert(i, cur + 1);
        map.insert(t, row);
        proof {
            assert(map@.dom() =~= old(map)@.dom().insert(t));
            assert forall|t2: usize, i2: usize|
                #[trigger] matrix_entry(map@, t2, i2) == if t2 == t && i2 == i {
                    matrix_entry(old(map)@, t, i) + 1
                } else {
                    matrix_entry(old(map)@, t2, i2) as int
                } by {
                if t2 != t {
                    assert(map@[t2] == old(map)@[t2]);
                }
            }
        }
    }

    /// Records that thread `tid` requests one more unit of a mutex or of a
    /// semaphore, and tells whether the state may then deadlock.
    ///
    /// Exactly one of `mutex_id` and `semaphore_id` names a lock; the other
    /// is -1.  When both are positive or both negative the request is
    /// ignored and `false` is returned.  With `mutex_id == -1` the
    /// semaphore is requested; otherwise the mutex.
    pub fn detect_deadlock(&mut self, tid: usize, mutex_id: isize, semaphore_id: isize) -> (deadlock: bool)
        requires
            mutex_id >= -1,
            semaphore_id >= -1,
            requests_semaphore(mutex_id, semaphore_id) ==> matrix_entry(
                old(self).inner.need_matrix_for_semaphore@,
                tid,
                semaphore_id as usize,
            ) < 255 && old(self).inner.semaphore_list@.len() <= old(
                self,
            ).inner.available_semaphore@.len(),
            requests_mutex(mutex_id, semaphore_id) ==> matrix_entry(
                old(self).inner.need_matrix_for_mutex@,
                tid,
                mutex_id as usize,
            ) < 255 && old(self).inner.mutex_list@.len() <= old(self).inner.available_mutex@.len(),
        ensures
            final(self).pid == old(self).pid,
            same_but_needs(&final(self).inner, &old(self).inner),
            (mutex_id > 0 && semaphore_id > 0) || (mutex_id < 0 && semaphore_id < 0) ==> {
                &&& !deadlock
                &&& final(self).inner.need_matrix_for_mutex == old(self).inner.need_matrix_for_mutex
                &&& final(self).inner.need_matrix_for_semaphore == old(
                    self,
                ).inner.need_matrix_for_semaphore
            },
            requests_semaphore(mutex_id, semaphore_id) ==> {
                let inner = final(self).inner;
                &&& need_incremented(
                    old(self).inner.need_matrix_for_semaphore@,
                    inner.need_matrix_for_semaphore@,
                    tid,
                    semaphore_id as usize,
                )
                &&& inner.need_matrix_for_mutex == old(self).inner.need_matrix_for_mutex
                &&& deadlock == !has_safe_sequence(
                    inner.need_matrix_for_semaphore@,
                    inner.alloc_matrix_for_semaphore@,
                    inner.available_semaphore@,
                    inner.tasks@.len() as usize,
                    inner.semaphore_list@.len() as usize,
                )
            },
            requests_mutex(mutex_id, semaphore_id) ==> {
                let inner = final(self).inner;
                &&& need_incremented(
                    old(self).inner.need_matrix_for_mutex@,
                    inner.need_matrix_for_mutex@,
                    tid,
                    mutex_id as usize,
                )
                &&& inner.need_matrix_for_semaphore == old(self).inner.need_matrix_for_semaphore
                &&& deadlock == !has_safe_sequence(
                    inner.need_matrix_for_mutex@,
                    inner.alloc_matrix_for_mutex@,
                    inner.available_mutex@,
                    inner.tasks@.len() as usize,
                    inner.mutex_list@.len() as usize,
                )
            },
    {
        if (mutex_id > 0 && semaphore_id > 0) || (mutex_id < 0 && semaphore_id < 0) {
            return false;
        }
        let inner = self.inner_exclusive_access();
        let task_count = inner.thread_count();
        if mutex_id == -1 {
            Self::increment_need(&mut inner.need_matrix_for_semaphore, tid, semaphore_id as usize);
            let lock_count = inner.semaphore_list.len();
            Self::bank_algo(
                &inner.available_semaphore,
                &inner.need_matrix_for_semaphore,
                &inner.alloc_matrix_for_semaphore,
                task_count,
                lock_count,
            )
        } else {
            Self::increment_need(&mut inner.need_matrix_for_mutex, tid, mutex_id as usize);
            let lock_count = inner.mutex_list.len();
            Self::bank_algo(
                &inner.available_mutex,
                &inner.need_matrix_for_mutex,
                &inner.alloc_matrix_for_mutex,
                task_count,
                lock_count,
            )
        }
    }

    /// The count of thread `t` and lock `i`, zero when absent.
    fn matrix_get(map: &BTreeMap<usize, BTreeMap<usize, u8>>, t: usize, i: usize) -> (v: u8)
        ensures
            v == matrix_entry(map@, t, i),
    {
        match Self::get_from_btreemap(map, t, i) {
            Some(v) => v,
            None => 0,
        }
    }

    /// Whether thread `t`'s needs all fit within `work`.
    fn needs_fit(
        need_matrix: &BTreeMap<usize, BTreeMap<usize, u8>>,
        work: &Vec<u8>,
        t: usize,
        lock_count: usize,
    ) -> (b: bool)
        requires
            lock_count <= work@.len(),
        ensures
            b == forall|i: usize| i < lock_count ==> #[trigger] matrix_entry(need_matrix@, t, i) <= work@[i as int],
    {
        let mut i: usize = 0;
        while i < lock_count
            invariant
                i <= lock_count <= work@.len(),
                forall|j: usize| j < i ==> #[trigger] matrix_entry(need_matrix@, t, j) <= work@[j as int],
            decreases lock_count - i,
        {
            if Self::matrix_get(need_matrix, t, i) > work[i] {
                return false;
            }
            i = i + 1;
        }
        true
    }

    /// Whether some thread is not yet marked finished.
    fn has_unfinished(finish: &Vec<bool>) -> (b: bool)
        ensures
            b == exists|k: int| 0 <= k < finish@.len() && !#[trigger] finish@[k],
    {
        let mut k: usize = 0;
        while k < finish.len()
            invariant
                k <= finish@.len(),
                forall|j: int| 0 <= j < k ==> #[trigger] finish@[j],
            decreases finish@.len() - k,
        {
            if !finish[k] {
                return true;
            }
            k = k + 1;
        }
        false
    }

    /// The lowest-numbered unfinished thread whose needs all fit within `work`.
    fn find_runnable(
        finish: &Vec<bool>,
        need_matrix: &BTreeMap<usize, BTreeMap<usize, u8>>,
        work: &Vec<u8>,
        lock_count: usize,
    ) -> (target: Option<usize>)
        requires
            lock_count <= work@.len(),
        ensures
            match target {
                Some(t) => {
                    &&& t < finish@.len()
                    &&& !finish@[t as int]
                    &&& forall|j: usize|
                        j < lock_count ==> #[trigger] matrix_entry(need_matrix@, t, j) <= work@[j as int]
                    &&& forall|u: usize|
                        u < t && !finish@[u as int] ==> !(forall|j: usize|
                            j < lock_count ==> #[trigger] matrix_entry(need_matrix@, u, j)
                                <= work@[j as int])
                },
                None => forall|u: usize|
                    u < finish@.len() && !finish@[u as int] ==> !(forall|j: usize|
                        j < lock_count ==> #[trigger] matrix_entry(need_matrix@, u, j)
                            <= work@[j as int]),
            },
    {
        let mut idx: usize = 0;
        while idx < finish.len()
            invariant
                idx <= finish@.len(),
                lock_count <= work@.len(),
                forall|u: usize|
                    u < idx && !finish@[u as int] ==> !(forall|j: usize|
                        j < lock_count ==> #[trigger] matrix_entry(need_matrix@, u, j)
                            <= work@[j as int]),
            decreases finish@.len() - idx,
        {
            if !finish[idx] && Self::needs_fit(need_matrix, work, idx, lock_count) {
                return Some(idx);
            }
            idx = idx + 1;
        }
        None
    }

    /// The banker's safety check: `true` when no order lets every thread
    /// below `task_count` finish, that is when the state may deadlock.
    /// It repeatedly lets the lowest-numbered unfinished thread whose needs
    /// fit in the free units finish and release what it holds.
    fn bank_algo(
        available: &Vec<u8>,
        need_matrix: &BTreeMap<usize, BTreeMap<usize, u8>>,
        alloc_matrix: &BTreeMap<usize, BTreeMap<usize, u8>>,
        task_count: usize,
        lock_count: usize,
    ) -> (deadlock: bool)
        requires
            lock_count <= available@.len(),
        ensures
            deadlock == !has_safe_sequence(
                need_matrix@,
                alloc_matrix@,
                available@,
                task_count,
                lock_count,
            ),
    {
        let ghost need = need_matrix@;
        let ghost alloc = alloc_matrix@;
        let ghost avail = available@;
        let mut finish: Vec<bool> = Vec::new();
        let mut n: usize = 0;
        while n < task_count
            invariant
                n <= task_count,
                finish@.len() == n,
                forall|k: int| 0 <= k < n ==> !#[trigger] finish@[k],
            decreases task_count - n,
        {
            finish.push(false);
            n = n + 1;
        }
        // `work[i]` is the number of free units of lock `i`, capped at the
        // largest count a need can hold.
        let mut work: Vec<u8> = Vec::new();
        let mut i: usize = 0;
        while i < lock_count
            invariant
                i <= lock_count <= avail.len(),
                avail == available@,
                work@.len() == i,
                forall|j: int| 0 <= j < i ==> #[trigger] work@[j] == avail[j],
            decreases lock_count - i,
        {
            work.push(available[i]);
            i = i + 1;
        }
        let ghost mut order: Seq<usize> = Seq::empty();
        proof {
            assert forall|j: usize| j < lock_count implies #[trigger] work@[j as int] == min_int(
                255,
                avail[j as int] + released(alloc, order, j),
            ) by {}
        }
        while Self::has_unfinished(&finish)
            invariant
                need == need_matrix@,
                alloc == alloc_matrix@,
                avail == available@,
                lock_count <= avail.len(),
                finish@.len() == task_count,
                work@.len() == lock_count,
                order.no_duplicates(),
                forall|k: int| 0 <= k < order.len() ==> #[trigger] order[k] < task_count,
                forall|t: usize| t < task_count ==> (#[trigger] finish@[t as int] <==> order.contains(t)),
                forall|j: usize|
                    j < lock_count ==> #[trigger] work@[j as int] == min_int(
                        255,
                        avail[j as int] + released(alloc, order, j),
                    ),
                forall|k: int|
                    0 <= k < order.len() ==> can_finish(
                        need,
                        alloc,
                        avail,
                        order.take(k),
                        #[trigger] order[k],
                        lock_count,
                    ),
            decreases count_unfinished(finish@),
        {
            // The lowest unfinished thread whose needs fit.
            let target = Self::find_runnable(&finish, need_matrix, &work, lock_count);
            match target {
                None => {
                    proof {
                        let u = choose|k: int| 0 <= k < finish@.len() && !#[trigger] finish@[k];
                        assert(!finish@[(u as usize) as int]);
                        assert forall|t: usize|
                            t < task_count && !order.contains(t) implies !#[trigger] can_finish(
                            need,
                            alloc,
                            avail,
                            order,
                            t,
                            lock_count,
                        ) by {
                            assert(!finish@[t as int]);
                            let j = choose|j: usize|
                                j < lock_count && !(#[trigger] matrix_entry(need, t, j)
                                    <= work@[j as int]);
                            assert(work@[j as int] == min_int(255, avail[j as int] + released(alloc, order, j)));
                            assert(!(matrix_entry(need, t, j) <= avail[j as int] + released(
                                alloc,
                                order,
                                j,
                            )));
                        }
                        lemma_stuck_means_unsafe(need, alloc, avail, order, task_count, lock_count, u as usize);
                    }
                    return true;
                },
                Some(t) => {
                    proof {
                        assert(!order.contains(t));
                        assert forall|j: usize| j < lock_count implies #[trigger] matrix_entry(need, t, j)
                            <= avail[j as int] + released(alloc, order, j) by {
                            assert(matrix_entry(need, t, j) <= work@[j as int]);
                        }
                        assert(can_finish(need, alloc, avail, order, t, lock_count));
                    }
                    proof {
                        lemma_count_unfinished_mark(finish@, t as int);
                    }
                    finish.set(t, true);
                    let mut j: usize = 0;
                    while j < lock_count
                        invariant
                            j <= lock_count,
                            work@.len() == lock_count,
                            alloc == alloc_matrix@,
                            forall|m: usize|
                                m < j ==> #[trigger] work@[m as int] == min_int(
                                    255,
                                    avail[m as int] + released(alloc, order, m) + matrix_entry(
                                        alloc,
                                        t,
                                        m,
                                    ),
                                ),
                            forall|m: usize|
                                j <= m < lock_count ==> #[trigger] work@[m as int] == min_int(
                                    255,
                                    avail[m as int] + released(alloc, order, m),
                                ),
                        decreases lock_count - j,
                    {
                        let a = Self::matrix_get(alloc_matrix, t, j);
                        proof {
                            lemma_released_nonneg(alloc, order, j);
                        }
                        let w = work[j].saturating_add(a);
                        work.set(j, w);
                        j = j + 1;
                    }
                    proof {
                        let old_order = order;
                        order = order.push(t);
                        assert(order.drop_last() =~= old_order);
                        assert(order.take(old_order.len() as int) =~= old_order);
                        assert forall|k: int|
                            0 <= k < order.len() implies can_finish(
                            need,
                            alloc,
                            avail,
                            order.take(k),
                            #[trigger] order[k],
                            lock_count,
                        ) by {
                            if k < old_order.len() {
                                assert(order.take(k) =~= old_order.take(k));
                                assert(order[k] == old_order[k]);
                            }
                        }
                        assert forall|p: usize| p < task_count implies (#[trigger] finish@[p as int]
                            <==> order.contains(p)) by {
                            if p == t {
                                assert(order[old_order.len() as int] == t);
                            } else if old_order.contains(p) {
                                let k = choose|k: int| 0 <= k < old_order.len() && old_order[k] == p;
                                assert(order[k] == p);
                            } else if order.contains(p) {
                                let k = choose|k: int| 0 <= k < order.len() && order[k] == p;
                                assert(old_order[k] == p);
                            }
                        }
                        assert forall|p: int, q: int|
                            0 <= p < order.len() && 0 <= q < order.len() && p != q implies order[p]
                            != order[q] by {
                            if p < old_order.len() && q < old_order.len() {
                            } else if p < old_order.len() {
                                assert(old_order.contains(order[p]));
                            } else {
                                assert(old_order.contains(order[q]));
                            }
                        }
                    }
                },
            }
        }
        proof {
            assert forall|t: usize| t < task_count implies #[trigger] order.contains(t) by {
                assert(finish@[t as int]);
            }
            assert(is_safe_sequence(need, alloc, avail, order, task_count, lock_count));
        }
        false
    }
}

} // verus!
