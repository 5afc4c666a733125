//! Meeting points for calls, by which a test tells calls that overlap from
//! calls that come one after another.

use vstd::prelude::*;
use vstd::string::*;
use crate::sorted::SortedSet;

verus! {

/// One more, or none again where there is no more.
pub open spec fn one_more(n: usize) -> usize {
    if n == usize::MAX {
        0
    } else {
        (n + 1) as usize
    }
}

/// Count one more.
pub fn count_up(n: usize) -> (m: usize)
    ensures
        m == one_more(n),
{
    if n == usize::MAX {
        0
    } else {
        n + 1
    }
}

/// A point that callers meet at: each waits until enough of them are there.
#[derive(Debug)]
pub struct Rendezvous {
    pub width: usize,
    /// The names that meet here, or none for every caller.
    pub only: Option<SortedSet<String>>,
    /// How many callers were ever here at once.
    pub high_water: usize,
    /// Is the way open, now and for good?
    pub released: bool,
    /// Did a caller give up on the others?
    pub broken: bool,
}

/// What a [`Rendezvous`] means.
pub struct RendezvousModel {
    pub width: usize,
    pub only: Option<Set<Seq<char>>>,
    pub high_water: usize,
    pub released: bool,
    pub broken: bool,
}

impl DeepView for Rendezvous {
    type V = RendezvousModel;

    open spec fn deep_view(&self) -> RendezvousModel {
        RendezvousModel {
            width: self.width,
            only: self.only.deep_view(),
            high_water: self.high_water,
            released: self.released,
            broken: self.broken,
        }
    }
}

/// A meeting point that nobody has come to.
pub open spec fn new_rendezvous(width: usize, only: Option<Set<Seq<char>>>) -> RendezvousModel {
    RendezvousModel { width, only, high_water: 0, released: false, broken: false }
}

/// A meeting point that one caller came to, on its own. Where others were
/// needed, and never had come, it gives up, and lets everyone pass from then
/// on.
pub open spec fn met_alone(gate: RendezvousModel) -> RendezvousModel {
    let there = RendezvousModel {
        high_water: if gate.high_water > 1 {
            gate.high_water
        } else {
            1
        },
        released: true,
        ..gate
    };
    if gate.width > 1 && !gate.released {
        RendezvousModel { broken: true, ..there }
    } else {
        there
    }
}

/// Some names as a set.
pub open spec fn names_in(names: Seq<&str>) -> Set<Seq<char>>
    decreases names.len(),
{
    if names.len() == 0 {
        Set::empty()
    } else {
        names_in(names.drop_last()).insert(names.last()@)
    }
}

fn collect_names(names: &[&str]) -> (set: SortedSet<String>)
    ensures
        set.deep_view() == names_in(names@),
{
    let mut set: SortedSet<String> = SortedSet::new();
    let mut i: usize = 0;
    while i < names.len()
        invariant
            i <= names@.len(),
            set.deep_view() == names_in(names@.take(i as int)),
        decreases names.len() - i,
    {
        assert(names@.take(i + 1).drop_last() =~= names@.take(i as int));
        set.insert(names[i].to_owned());
        i = i + 1;
    }
    assert(names@.take(names@.len() as int) =~= names@);
    set
}

impl Rendezvous {
    /// A point that this many callers meet at.
    pub fn new(width: usize) -> (gate: Self)
        ensures
            gate.deep_view() == new_rendezvous(width, None),
    {
        Rendezvous { width, only: None, high_water: 0, released: false, broken: false }
    }

    /// A point that only callers for these names meet at. Others pass by.
    pub fn only(names: &[&str], width: usize) -> (gate: Self)
        ensures
            gate.deep_view() == new_rendezvous(width, Some(names_in(names@))),
    {
        Rendezvous {
            width,
            only: Some(collect_names(names)),
            high_water: 0,
            released: false,
            broken: false,
        }
    }

    /// Does a caller for this name meet here at all?
    pub fn admits(&self, name: &str) -> (yes: bool)
        ensures
            yes == match self.deep_view().only {
                None => true,
                Some(only) => only.contains(name@),
            },
    {
        match &self.only {
            None => true,
            Some(only) => only.has(name),
        }
    }

    /// Come here, on one's own.
    pub fn meet(&mut self)
        ensures
            final(self).deep_view() == met_alone(old(self).deep_view()),
    {
        if self.high_water < 1 {
            self.high_water = 1;
        }
        if self.width > 1 && !self.released {
            self.broken = true;
        }
        self.released = true;
    }
}

/// A door between two kinds of call: one kind waits at it, and the other opens
/// it for good.
#[derive(Debug)]
pub struct Handshake {
    /// The names that wait here.
    pub only: SortedSet<String>,
    pub open: bool,
    /// Did a caller give up waiting?
    pub broken: bool,
}

/// What a [`Handshake`] means.
pub struct HandshakeModel {
    pub only: Set<Seq<char>>,
    pub open: bool,
    pub broken: bool,
}

impl DeepView for Handshake {
    type V = HandshakeModel;

    open spec fn deep_view(&self) -> HandshakeModel {
        HandshakeModel { only: self.only.deep_view(), open: self.open, broken: self.broken }
    }
}

/// A door that one caller came to, on its own. Where it waits, and nobody had
/// opened it, it gives up, and lets everyone pass from then on.
pub open spec fn waited_alone(gate: HandshakeModel, name: Seq<char>) -> HandshakeModel {
    if gate.only.contains(name) && !gate.open {
        HandshakeModel { open: true, broken: true, ..gate }
    } else {
        gate
    }
}

impl Handshake {
    /// A closed door that callers for these names wait at.
    pub fn new(names: &[&str]) -> (gate: Self)
        ensures
            gate.deep_view() == (HandshakeModel {
                only: names_in(names@),
                open: false,
                broken: false,
            }),
    {
        Handshake { only: collect_names(names), open: false, broken: false }
    }

    /// Let everyone through, now and from now on.
    pub fn open(&mut self)
        ensures
            final(self).deep_view() == (HandshakeModel { open: true, ..old(self).deep_view() }),
    {
        self.open = true;
    }

    /// Come here, on one's own.
    pub fn wait(&mut self, name: &str)
        ensures
            final(self).deep_view() == waited_alone(old(self).deep_view(), name@),
    {
        if self.only.has(name) && !self.open {
            self.open = true;
            self.broken = true;
        }
    }

    /// Was nobody let down?
    pub fn held(&self) -> (yes: bool)
        ensures
            yes == !self.deep_view().broken,
    {
        !self.broken
    }
}

/// How many calls are inside a method, and how many there ever were at once.
#[derive(Debug, Clone, Copy, PartialEq, Eq, Structural)]
pub struct InFlight {
    pub current: usize,
    pub peak: usize,
}

impl InFlight {
    /// Nobody, so far.
    pub fn none() -> (counter: Self)
        ensures
            counter == (InFlight { current: 0, peak: 0 }),
    {
        InFlight { current: 0, peak: 0 }
    }

    /// One call more.
    pub fn enter(&mut self)
        requires
            old(self).current < usize::MAX,
        ensures
            final(self).current == old(self).current + 1,
            final(self).peak == if old(self).peak > old(self).current {
                old(self).peak
            } else {
                (old(self).current + 1) as usize
            },
    {
        self.current = self.current + 1;
        if self.peak < self.current {
            self.peak = self.current;
        }
    }

    /// One call fewer.
    pub fn leave(&mut self)
        requires
            old(self).current > 0,
        ensures
            final(self).current == old(self).current - 1,
            final(self).peak == old(self).peak,
    {
        self.current = self.current - 1;
    }
}

} // verus!
