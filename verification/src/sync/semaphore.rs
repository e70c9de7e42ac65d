//! Counting semaphores with a queue of waiting tasks.
//!
//! A task is named by a number. Blocking a task and waking it is up to the
//! scheduler: `down` says when the caller must block, `up` which task to wake.
use std::collections::VecDeque;
use vstd::prelude::*;

verus! {

/// What `down` returns to a task that was woken because of a deadlock.
pub const DEADLOCK: isize = -0xdead;

/// The semaphore structure.
pub struct Semaphore {
    /// What the semaphore holds.
    pub inner: SemaphoreInner,
}

/// The number of resources that are left, or the negated number of tasks that
/// wait; and the tasks that wait, in order.
pub struct SemaphoreInner {
    pub count: isize,
    pub wait_queue: VecDeque<usize>,
}

/// What there is to know of a semaphore.
#[verifier::ext_equal]
pub struct SemView {
    pub count: int,
    pub queue: Seq<usize>,
}

/// What the caller of `down` has to do.
#[derive(Clone, Copy, Debug, PartialEq, Eq, Structural)]
pub enum Down {
    /// Go on with this result.
    Done(isize),
    /// Block, and ask `down_resumed` for the result once it runs again.
    Block,
}

impl SemView {
    /// As many tasks wait as the count is below 0.
    pub open spec fn wf(self) -> bool {
        self.queue.len() == if self.count < 0 {
            -self.count
        } else {
            0
        }
    }

    /// After task `t` took a resource or began to wait for one.
    pub open spec fn down(self, t: usize) -> SemView {
        SemView {
            count: self.count - 1,
            queue: if self.count - 1 < 0 {
                self.queue.push(t)
            } else {
                self.queue
            },
        }
    }

    /// The task that is woken when a resource is given back.
    pub open spec fn woken(self) -> Option<usize> {
        if self.count + 1 <= 0 && self.queue.len() > 0 {
            Some(self.queue[0])
        } else {
            None
        }
    }

    /// After a resource was given back.
    pub open spec fn up(self) -> SemView {
        SemView {
            count: self.count + 1,
            queue: if self.woken() is Some {
                self.queue.skip(1)
            } else {
                self.queue
            },
        }
    }

    /// After `n` resources were given back.
    pub open spec fn ups(self, n: nat) -> SemView
        decreases n,
    {
        if n == 0 {
            self
        } else {
            self.ups((n - 1) as nat).up()
        }
    }

    /// After the tasks `ts` called `down` in turn.
    pub open spec fn downs(self, ts: Seq<usize>) -> SemView
        decreases ts.len(),
    {
        if ts.len() == 0 {
            self
        } else {
            self.downs(ts.drop_last()).down(ts.last())
        }
    }
}

impl View for Semaphore {
    type V = SemView;

    open spec fn view(&self) -> SemView {
        SemView { count: self.inner.count as int, queue: self.inner.wait_queue@ }
    }
}

impl Semaphore {
    /// Create a new semaphore with this number of resources.
    pub fn new(res_count: usize) -> (r: Semaphore)
        ensures
            r@.count == res_count as isize,
            r@.queue == Seq::<usize>::empty(),
            res_count <= isize::MAX ==> r@.wf(),
    {
        Semaphore {
            inner: SemaphoreInner { count: res_count as isize, wait_queue: VecDeque::new() },
        }
    }

    /// Give a resource back. The result is the task to wake.
    pub fn up(&mut self) -> (r: Option<usize>)
        requires
            old(self)@.count < isize::MAX,
        ensures
            final(self)@ == old(self)@.up(),
            r == old(self)@.woken(),
    {
        self.inner.count = self.inner.count + 1;
        if self.inner.count <= 0 {
            let task = self.inner.wait_queue.pop_front();
            assert(self@ =~= old(self)@.up());
            task
        } else {
            None
        }
    }

    /// Take a resource, or begin to wait for one as task `current`.
    pub fn down(&mut self, current: usize) -> (r: Down)
        requires
            old(self)@.count > isize::MIN,
        ensures
            final(self)@ == old(self)@.down(current),
            r == (if old(self)@.count - 1 < 0 { Down::Block } else { Down::Done(0) }),
    {
        self.inner.count = self.inner.count - 1;
        if self.inner.count < 0 {
            self.inner.wait_queue.push_back(current);
            Down::Block
        } else {
            Down::Done(0)
        }
    }

    /// What `down` returns to a task that had to block and runs again: 0, or
    /// `DEADLOCK` where deadlocks are looked for and one was found. The task is
    /// then no longer in the queue, and no longer counts.
    pub fn down_resumed(&mut self, detect_enabled: bool, found_deadlock: bool) -> (r: isize)
        requires
            detect_enabled && found_deadlock ==> old(self)@.count < isize::MAX,
        ensures
            detect_enabled && found_deadlock ==> {
                &&& r == DEADLOCK
                &&& final(self)@ == (SemView { count: old(self)@.count + 1, ..old(self)@ })
            },
            !(detect_enabled && found_deadlock) ==> r == 0 && final(self)@ == old(self)@,
    {
        if detect_enabled && found_deadlock {
            self.inner.count = self.inner.count + 1;
            return DEADLOCK;
        }
        0
    }
}

/// Taking and giving back keep the number of waiting tasks what the count says. So
/// does a task that leaves the queue because of a deadlock and gives up its place.
pub proof fn law_count_matches_queue(v: SemView, t: usize, k: int)
    requires
        v.wf(),
    ensures
        v.down(t).wf(),
        v.up().wf(),
        0 <= k < v.queue.len() ==> (SemView { count: v.count + 1, queue: v.queue.remove(k) }).wf(),
{
}

/// Where resources are left, giving one back after taking one changes nothing and
/// wakes nobody. Else it wakes the task that has waited longest, which is the one
/// that just came where none waited before.
pub proof fn law_up_after_down(v: SemView, t: usize)
    requires
        v.wf(),
    ensures
        v.down(t).up().count == v.count,
        v.count > 0 ==> v.down(t).up() == v && v.down(t).woken() is None,
        v.count <= 0 ==> v.down(t).woken() == Some(v.queue.push(t)[0]),
        v.count <= 0 ==> v.down(t).up().queue == v.queue.push(t).skip(1),
        v.count == 0 ==> v.down(t).woken() == Some(t) && v.down(t).up() == v,
{
    if v.count == 0 {
        assert(v.down(t).up() =~= v);
    }
}

/// Tasks are woken in the order in which they began to wait.
pub proof fn law_first_come_first_served(v: SemView, n: nat)
    requires
        v.wf(),
        n < v.queue.len(),
    ensures
        v.ups(n).wf(),
        v.ups(n).count == v.count + n,
        v.ups(n).queue == v.queue.skip(n as int),
        v.ups(n).woken() == Some(v.queue[n as int]),
    decreases n,
{
    if n > 0 {
        law_first_come_first_served(v, (n - 1) as nat);
        assert(v.queue.skip(n - 1).skip(1) =~= v.queue.skip(n as int));
    } else {
        assert(v.queue.skip(0) =~= v.queue);
    }
}

/// As many tasks as there are resources take one without waiting; the tasks after
/// them wait, in the order in which they came.
pub proof fn law_resources_are_enough(n: nat, ts: Seq<usize>)
    ensures
        ({
            let v = SemView { count: n as int, queue: Seq::empty() }.downs(ts);
            &&& v.wf()
            &&& v.count == n - ts.len()
            &&& v.queue == if ts.len() <= n {
                Seq::empty()
            } else {
                ts.skip(n as int)
            }
        }),
    decreases ts.len(),
{
    if ts.len() > 0 {
        law_resources_are_enough(n, ts.drop_last());
        if ts.len() == n + 1 {
            assert(Seq::<usize>::empty().push(ts.last()) =~= ts.skip(n as int));
        } else if ts.len() > n + 1 {
            assert(ts.drop_last().skip(n as int).push(ts.last()) =~= ts.skip(n as int));
        }
    }
}

/// Taking a resource lowers the count by one, in every state; the task joins the end of the
/// queue where no resource was left, and nobody else moves.
pub proof fn law_taking_one(v: SemView, t: usize)
    ensures
        v.down(t).count == v.count - 1,
        v.count >= 1 ==> v.down(t).queue == v.queue,
        v.count <= 0 ==> {
            &&& v.down(t).queue.len() == v.queue.len() + 1
            &&& v.down(t).queue.last() == t
            &&& forall|i: int|
                0 <= i < v.queue.len() ==> #[trigger] v.down(t).queue[i] == v.queue[i]
        },
{
}

/// Giving a resource back raises the count by one, in every state. A task is woken exactly
/// where tasks wait and the count was below 0; it is the first of the queue, and the others
/// stay in their order.
pub proof fn law_giving_one_back(v: SemView)
    ensures
        v.up().count == v.count + 1,
        v.woken() is Some == (v.count < 0 && v.queue.len() > 0),
        v.woken() is None ==> v.up().queue == v.queue,
        v.woken() matches Some(t) ==> v.queue == seq![t] + v.up().queue,
{
    if v.woken() is Some {
        assert(v.queue =~= seq![v.woken()->0] + v.up().queue);
    }
}

/// What a task is told that was woken because of a deadlock is none of the other answers.
pub proof fn law_deadlock_code()
    ensures
        DEADLOCK == -57005,
{
}

} // verus!
