//! Which item a worker takes next, and when a run is over.
//!
//! Two shapes: a list that is fixed before the run starts, and one that the
//! workers drawing from it extend as they go. What is here is the bookkeeping
//! that each takes under a lock; running it on threads is somebody else's.

use vstd::prelude::*;

verus! {

/// No more workers than there is work.
pub fn drain_width(workers: usize, items: usize) -> (width: usize)
    ensures
        width == if workers <= items {
            workers
        } else {
            items
        },
{
    if workers <= items {
        workers
    } else {
        items
    }
}

/// A list that grows is never capped at what it was seeded with: one seed may
/// fan out to thousands.
pub fn crawl_width(workers: usize) -> (width: usize)
    ensures
        width == if workers >= 1 {
            workers
        } else {
            1
        },
{
    if workers >= 1 {
        workers
    } else {
        1
    }
}

/// The claims on a fixed list: which items were handed out, and whether one
/// has failed.
#[derive(Debug)]
pub struct Claims {
    items: usize,
    next: usize,
    failed: bool,
}

impl Claims {
    /// How many items there are.
    pub closed spec fn items(&self) -> nat {
        self.items as nat
    }

    /// How many were handed out. They are always the first so many.
    pub closed spec fn claimed(&self) -> nat {
        self.next as nat
    }

    /// Has one failed?
    pub closed spec fn stopped(&self) -> bool {
        self.failed
    }

    #[verifier::type_invariant]
    spec fn well_formed(self) -> bool {
        self.next <= self.items
    }

    /// Claims on a list of so many items.
    pub fn new(items: usize) -> (claims: Self)
        ensures
            claims.items() == items,
            claims.claimed() == 0,
            !claims.stopped(),
    {
        Claims { items, next: 0, failed: false }
    }

    /// Claim the next item. Nothing new is claimed once something failed.
    pub fn claim(&mut self) -> (index: Option<usize>)
        ensures
            final(self).items() == old(self).items(),
            final(self).stopped() == old(self).stopped(),
            final(self).claimed() <= final(self).items(),
            match index {
                Some(index) => {
                    &&& !old(self).stopped()
                    &&& index == old(self).claimed()
                    &&& index < old(self).items()
                    &&& final(self).claimed() == index + 1
                },
                None => {
                    &&& old(self).stopped() || old(self).claimed() == old(self).items()
                    &&& final(self).claimed() == old(self).claimed()
                },
            },
    {
        proof {
            use_type_invariant(&*self);
        }
        if self.failed || self.next >= self.items {
            return None;
        }
        let index: usize = self.next;
        *self = Claims { items: self.items, next: index + 1, failed: false };
        Some(index)
    }

    /// Note that an item failed.
    pub fn fail(&mut self)
        ensures
            final(self).stopped(),
            final(self).items() == old(self).items(),
            final(self).claimed() == old(self).claimed(),
    {
        proof {
            use_type_invariant(&*self);
        }
        *self = Claims { items: self.items, next: self.next, failed: true };
    }
}

/// The lowest of the items that failed: the failure to report, so that it is
/// the same one on every run.
pub fn lowest_failure(failed: &Vec<usize>) -> (lowest: Option<usize>)
    ensures
        match lowest {
            Some(index) => failed@.contains(index) && forall|i: int|
                0 <= i < failed@.len() ==> index <= #[trigger] failed@[i],
            None => failed@.len() == 0,
        },
{
    if failed.len() == 0 {
        return None;
    }
    let mut lowest: usize = failed[0];
    assert(failed@.contains(lowest));
    let mut i: usize = 1;
    while i < failed.len()
        invariant
            1 <= i <= failed@.len(),
            failed@.contains(lowest),
            forall|j: int| 0 <= j < i ==> lowest <= #[trigger] failed@[j],
        decreases failed.len() - i,
    {
        if failed[i] < lowest {
            lowest = failed[i];
            assert(failed@[i as int] == lowest);
        }
        i = i + 1;
    }
    Some(lowest)
}

/// Items are claimed from the front and in order, so the lowest item that
/// would fail is always among those that were claimed before claiming
/// stopped.
pub proof fn the_lowest_failure_is_always_claimed(claimed: nat, failing: Set<nat>, seen: nat)
    requires
        failing.contains(seen),
        seen < claimed,
    ensures
        exists|lowest: nat|
            failing.contains(lowest) && lowest < claimed && forall|other: nat|
                failing.contains(other) ==> lowest <= other,
    decreases seen,
{
    if forall|other: nat| failing.contains(other) ==> seen <= other {
        assert(failing.contains(seen) && seen < claimed);
    } else {
        let lower = choose|other: nat| failing.contains(other) && other < seen;
        the_lowest_failure_is_always_claimed(claimed, failing, lower);
    }
}

/// A work list that the workers drawing from it may extend.
#[derive(Debug)]
pub struct Worklist<T> {
    workers: usize,
    queue: Vec<T>,
    idle: usize,
    done: bool,
}

/// What a worker finds on the list.
#[derive(Debug)]
pub enum Taken<T> {
    /// An item to work on.
    Item(T),
    /// Nothing yet: wait to be woken.
    Wait,
    /// The run is over.
    Over,
}

impl<T> Worklist<T> {
    /// How many workers draw from the list.
    pub closed spec fn workers(&self) -> nat {
        self.workers as nat
    }

    /// What is on the list, the most recent item last.
    pub closed spec fn queue(&self) -> Seq<T> {
        self.queue@
    }

    /// How many workers are waiting.
    pub closed spec fn idle(&self) -> nat {
        self.idle as nat
    }

    /// Is the run over?
    pub closed spec fn over(&self) -> bool {
        self.done
    }

    /// A list seeded with some items.
    pub fn new(seeds: Vec<T>, workers: usize) -> (list: Self)
        ensures
            list.queue() == seeds@,
            list.idle() == 0,
            !list.over(),
            list.workers() == if workers >= 1 {
                workers as nat
            } else {
                1
            },
    {
        Worklist { workers: crawl_width(workers), queue: seeds, idle: 0, done: false }
    }

    /// Add an item. It may be taken by any worker.
    pub fn push(&mut self, item: T)
        ensures
            final(self).queue() == old(self).queue().push(item),
            final(self).workers() == old(self).workers(),
            final(self).idle() == old(self).idle(),
            final(self).over() == old(self).over(),
    {
        self.queue.push(item);
    }

    /// End the run, leaving whatever is still on the list untaken.
    pub fn stop(&mut self)
        ensures
            final(self).over(),
            final(self).queue() == old(self).queue(),
            final(self).workers() == old(self).workers(),
            final(self).idle() == old(self).idle(),
    {
        self.done = true;
    }

    /// What a worker that is not waiting finds: the most recent item, unless
    /// the run is over. The run ends when the list is empty and every worker
    /// is waiting, because then nothing more can arrive.
    pub fn take(&mut self) -> (taken: Taken<T>)
        requires
            old(self).idle() < old(self).workers(),
        ensures
            final(self).workers() == old(self).workers(),
            match taken {
                Taken::Item(item) => {
                    &&& !old(self).over()
                    &&& old(self).queue().len() > 0
                    &&& item == old(self).queue().last()
                    &&& final(self).queue() == old(self).queue().drop_last()
                    &&& final(self).idle() == old(self).idle()
                    &&& !final(self).over()
                },
                Taken::Wait => {
                    &&& !old(self).over()
                    &&& old(self).queue().len() == 0
                    &&& old(self).idle() + 1 < old(self).workers()
                    &&& final(self).queue() == old(self).queue()
                    &&& final(self).idle() == old(self).idle() + 1
                    &&& !final(self).over()
                },
                Taken::Over => {
                    &&& final(self).over()
                    &&& final(self).queue() == old(self).queue()
                    &&& old(self).over() || (old(self).queue().len() == 0 && old(self).idle() + 1
                        == old(self).workers())
                },
            },
    {
        if self.done {
            return Taken::Over;
        }
        match self.queue.pop() {
            Some(item) => {
                return Taken::Item(item);
            },
            None => {},
        }
        self.idle = self.idle + 1;
        if self.idle == self.workers {
            self.done = true;
            return Taken::Over;
        }
        Taken::Wait
    }

    /// A waiting worker was woken, and will look at the list again.
    pub fn woken(&mut self)
        requires
            old(self).idle() > 0,
        ensures
            final(self).idle() == old(self).idle() - 1,
            final(self).queue() == old(self).queue(),
            final(self).workers() == old(self).workers(),
            final(self).over() == old(self).over(),
    {
        self.idle = self.idle - 1;
    }
}

} // verus!
