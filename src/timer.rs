use vstd::prelude::*;

verus! {

/// One registered wake-up: the task `task` is to be woken once the clock reaches `deadline`.
/// `seq` is the registration number, which breaks ties between equal deadlines.
#[derive(Clone, Copy, PartialEq, Eq, Debug)]
pub struct TimerEntry {
    pub deadline: u64,
    pub seq: u64,
    pub task: usize,
}

/// Entry `a` fires before entry `b`: earlier deadline, or equal deadline and earlier registration.
pub open spec fn fires_before(a: TimerEntry, b: TimerEntry) -> bool {
    a.deadline < b.deadline || (a.deadline == b.deadline && a.seq < b.seq)
}

/// Entries in firing order: by deadline, ties by registration order.
pub open spec fn timer_sorted(s: Seq<TimerEntry>) -> bool {
    forall|i: int, j: int| 0 <= i < j < s.len() ==> #[trigger] fires_before(s[i], s[j])
}

/// The task ids of a sequence of entries.
pub open spec fn tasks_of(s: Seq<TimerEntry>) -> Seq<usize> {
    s.map_values(|e: TimerEntry| e.task)
}

/// The first `k` entries of `s` have deadlines at or before `d`, and the entry after them,
/// if any, a later one.
pub open spec fn le_prefix(s: Seq<TimerEntry>, k: int, d: u64) -> bool {
    &&& 0 <= k <= s.len()
    &&& forall|i: int| 0 <= i < k ==> (#[trigger] s[i]).deadline <= d
    &&& k < s.len() ==> s[k].deadline > d
}

/// How many leading entries have deadlines at or before `d`: where an entry with deadline
/// `d` is inserted, and how many entries are due at instant `d`.
pub open spec fn le_count(s: Seq<TimerEntry>, d: u64) -> int {
    choose|k: int| le_prefix(s, k, d)
}

/// At most one length satisfies `le_prefix`, so it is the one `le_count` names.
pub proof fn lemma_le_count(s: Seq<TimerEntry>, k: int, d: u64)
    requires
        le_prefix(s, k, d),
    ensures
        le_count(s, d) == k,
{
    let c = le_count(s, d);
    assert(le_prefix(s, c, d));
    if c < k {
        assert(s[c].deadline <= d);
    } else if k < c {
        assert(s[k].deadline <= d);
    }
}

/// Keeps the entries of every task but `task`.
pub open spec fn not_of_task(task: usize) -> spec_fn(TimerEntry) -> bool {
    |e: TimerEntry| e.task != task
}

proof fn lemma_le_prefix_from(s: Seq<TimerEntry>, d: u64, k: int)
    requires
        0 <= k <= s.len(),
        forall|i: int| 0 <= i < k ==> (#[trigger] s[i]).deadline <= d,
    ensures
        exists|p: int| le_prefix(s, p, d),
    decreases s.len() - k,
{
    if k < s.len() && s[k].deadline <= d {
        lemma_le_prefix_from(s, d, k + 1);
    } else {
        assert(le_prefix(s, k, d));
    }
}

/// Every sequence of entries has a due prefix at every instant, so `le_count` always names
/// one.
pub proof fn lemma_le_prefix_exists(s: Seq<TimerEntry>, d: u64)
    ensures
        le_prefix(s, le_count(s, d), d),
{
    lemma_le_prefix_from(s, d, 0);
}

/// A time-ordered registry of (deadline, task) pairs.
pub struct TimerQueue {
    entries: Vec<TimerEntry>,
    next_seq: u64,
}

impl TimerQueue {
    pub closed spec fn view(&self) -> Seq<TimerEntry> {
        self.entries@
    }

    pub closed spec fn next_seq(&self) -> u64 {
        self.next_seq
    }

    /// Entries are in firing order and every registration number was issued already.
    pub closed spec fn wf(&self) -> bool {
        &&& timer_sorted(self.entries@)
        &&& forall|i: int| 0 <= i < self.entries@.len() ==> #[trigger] self.entries@[i].seq < self.next_seq
    }

    pub fn new() -> (r: TimerQueue)
        ensures
            r.wf(),
            r@ == Seq::<TimerEntry>::empty(),
            r.next_seq() == 0,
    {
        TimerQueue { entries: Vec::new(), next_seq: 0 }
    }

    pub fn len(&self) -> (r: usize)
        ensures
            r == self@.len(),
    {
        self.entries.len()
    }

    /// The deadline that fires first, if any.
    pub fn earliest(&self) -> (r: Option<u64>)
        ensures
            self@.len() == 0 ==> r.is_none(),
            self@.len() > 0 ==> r == Some(self@[0].deadline),
    {
        if self.entries.len() == 0 {
            None
        } else {
            Some(self.entries[0].deadline)
        }
    }

    /// Registers `task` to be woken at `deadline`; returns the registration number,
    /// which `cancel` accepts. The entry goes after every entry that fires no later.
    pub fn insert(&mut self, deadline: u64, task: usize) -> (r: u64)
        requires
            old(self).wf(),
            old(self).next_seq() < u64::MAX,
        ensures
            final(self).wf(),
            r == old(self).next_seq(),
            final(self).next_seq() == r + 1,
            le_prefix(old(self)@, le_count(old(self)@, deadline), deadline),
            final(self)@ == old(self)@.insert(
                le_count(old(self)@, deadline),
                TimerEntry { deadline, seq: r, task },
            ),
    {
        let seq = self.next_seq;
        let e = TimerEntry { deadline, seq, task };
        let n = self.entries.len();
        let mut p: usize = 0;
        while p < n && self.entries[p].deadline <= deadline
            invariant
                p <= n,
                n == self.entries@.len(),
                forall|i: int| 0 <= i < p ==> (#[trigger] self.entries@[i]).deadline <= deadline,
            decreases n - p,
        {
            p = p + 1;
        }
        let ghost s0 = self.entries@;
        assert(timer_sorted(s0));
        self.entries.insert(p, e);
        self.next_seq = seq + 1;
        assert(self@ == old(self)@.insert(p as int, e));
        proof {
            lemma_le_count(s0, p as int, deadline);
        }
        assert forall|i: int, j: int| 0 <= i < j < self.entries@.len() implies #[trigger] fires_before(
            self.entries@[i],
            self.entries@[j],
        ) by {
            if j < p {
            } else if j == p {
                assert(s0[i].seq < seq);
            } else if i < p {
                assert(fires_before(s0[i], s0[j - 1]));
            } else if i == p {
                assert(s0[j - 1].seq < seq);
                if j - 1 > p {
                    assert(fires_before(s0[p as int], s0[j - 1]));
                }
            } else {
                assert(fires_before(s0[i - 1], s0[j - 1]));
            }
        }
        assert forall|i: int| 0 <= i < self.entries@.len() implies #[trigger] self.entries@[i].seq
            < self.next_seq by {
            if i < p {
                assert(s0[i].seq < seq);
            } else if i > p {
                assert(s0[i - 1].seq < seq);
            }
        }
        seq
    }

    /// Removes every entry whose deadline is at or before `now` and returns their tasks
    /// in firing order.
    pub fn pop_expired(&mut self, now: u64) -> (r: Vec<usize>)
        requires
            old(self).wf(),
        ensures
            final(self).wf(),
            final(self).next_seq() == old(self).next_seq(),
            r@.len() <= old(self)@.len(),
            forall|i: int| 0 <= i < r@.len() ==> (#[trigger] old(self)@[i]).deadline <= now,
            r@.len() < old(self)@.len() ==> old(self)@[r@.len() as int].deadline > now,
            r@.len() == le_count(old(self)@, now),
            r@ == tasks_of(old(self)@.take(r@.len() as int)),
            final(self)@ == old(self)@.skip(r@.len() as int),
    {
        let n = self.entries.len();
        let mut k: usize = 0;
        let mut fired: Vec<usize> = Vec::new();
        while k < n && self.entries[k].deadline <= now
            invariant
                k <= n,
                n == self.entries@.len(),
                forall|i: int| 0 <= i < k ==> (#[trigger] self.entries@[i]).deadline <= now,
                fired@ == tasks_of(self.entries@.take(k as int)),
            decreases n - k,
        {
            fired.push(self.entries[k].task);
            assert(self.entries@.take(k + 1) == self.entries@.take(k as int).push(self.entries@[k as int]));
            k = k + 1;
        }
        let mut rest: Vec<TimerEntry> = Vec::new();
        let mut j: usize = k;
        while j < n
            invariant
                k <= j <= n,
                n == self.entries@.len(),
                rest@ == self.entries@.subrange(k as int, j as int),
            decreases n - j,
        {
            rest.push(self.entries[j]);
            j = j + 1;
        }
        let ghost s0 = self.entries@;
        proof {
            lemma_le_count(s0, k as int, now);
        }
        self.entries = rest;
        assert(self.entries@ == s0.skip(k as int));
        fired
    }

    /// Removes the entry with registration number `seq`, if it is still registered.
    pub fn cancel(&mut self, seq: u64) -> (r: bool)
        requires
            old(self).wf(),
        ensures
            final(self).wf(),
            final(self).next_seq() == old(self).next_seq(),
            r <==> exists|i: int| 0 <= i < old(self)@.len() && (#[trigger] old(self)@[i]).seq == seq,
            r ==> exists|i: int|
                0 <= i < old(self)@.len() && (#[trigger] old(self)@[i]).seq == seq && final(self)@
                    == old(self)@.remove(i),
            !r ==> final(self)@ == old(self)@,
    {
        let n = self.entries.len();
        let mut i: usize = 0;
        while i < n
            invariant
                i <= n,
                n == self.entries@.len(),
                self.entries@ == old(self).entries@,
                self.next_seq == old(self).next_seq,
                self.wf(),
                forall|k: int| 0 <= k < i ==> (#[trigger] self.entries@[k]).seq != seq,
            decreases n - i,
        {
            if self.entries[i].seq == seq {
                let ghost s0 = self.entries@;
                assert(timer_sorted(s0));
                self.entries.remove(i);
                assert(self.entries@ == s0.remove(i as int));
                assert forall|a: int, b: int| 0 <= a < b < self.entries@.len() implies #[trigger] fires_before(
                    self.entries@[a],
                    self.entries@[b],
                ) by {
                    let a0 = if a < i { a } else { a + 1 };
                    let b0 = if b < i { b } else { b + 1 };
                    assert(fires_before(s0[a0], s0[b0]));
                }
                assert forall|a: int| 0 <= a < self.entries@.len() implies #[trigger] self.entries@[a].seq
                    < self.next_seq by {
                    let a0 = if a < i { a } else { a + 1 };
                    assert(s0[a0].seq < self.next_seq);
                }
                assert(old(self)@[i as int].seq == seq);
                assert(self@ == old(self)@.remove(i as int));
                return true;
            }
            i = i + 1;
        }
        false
    }

    /// Removes every entry of `task`, keeping the others in order: what a dropped task
    /// releases.
    pub fn cancel_task(&mut self, task: usize)
        requires
            old(self).wf(),
        ensures
            final(self).wf(),
            final(self).next_seq() == old(self).next_seq(),
            final(self)@ == old(self)@.filter(not_of_task(task)),
            forall|i: int| 0 <= i < final(self)@.len() ==> old(self)@.contains(#[trigger] final(self)@[i]),
    {
        let ghost s0 = self.entries@;
        let n = self.entries.len();
        let mut kept: Vec<TimerEntry> = Vec::new();
        let ghost mut idx: Seq<int> = Seq::empty();
        proof {
            reveal(Seq::filter);
            assert(s0.take(0).filter(not_of_task(task)) =~= Seq::<TimerEntry>::empty());
        }
        let mut i: usize = 0;
        while i < n
            invariant
                i <= n,
                n == s0.len(),
                self.entries@ == s0,
                self.wf(),
                kept@ == s0.take(i as int).filter(not_of_task(task)),
                idx.len() == kept@.len(),
                forall|a: int| 0 <= a < idx.len() ==> 0 <= #[trigger] idx[a] < i && kept@[a] == s0[idx[a]],
                forall|a: int, b: int| 0 <= a < b < idx.len() ==> #[trigger] idx[a] < #[trigger] idx[b],
            decreases n - i,
        {
            let e = self.entries[i];
            proof {
                assert(s0.take(i + 1) == s0.take(i as int).push(e));
                s0.take(i as int).lemma_filter_push(e, not_of_task(task));
            }
            if e.task != task {
                kept.push(e);
                proof {
                    idx = idx.push(i as int);
                }
            }
            i = i + 1;
        }
        assert(s0.take(n as int) == s0);
        assert forall|a: int, b: int| 0 <= a < b < kept@.len() implies #[trigger] fires_before(
            kept@[a],
            kept@[b],
        ) by {
            assert(idx[a] < idx[b]);
            assert(fires_before(s0[idx[a]], s0[idx[b]]));
        }
        assert forall|a: int| 0 <= a < kept@.len() implies #[trigger] kept@[a].seq < self.next_seq
            && s0.contains(kept@[a]) by {
            assert(kept@[a] == s0[idx[a]]);
        }
        self.entries = kept;
        assert forall|i: int| 0 <= i < self.entries@.len() implies s0.contains(
            #[trigger] self.entries@[i],
        ) by {
            assert(s0[idx[i]] == self.entries@[i]);
        }
    }
}

} // verus!
