//! A table of players under their handles.

use vstd::hash_map::StringHashMap;
use vstd::prelude::*;

verus! {

/// Players, each under a handle of its own, in the order in which they were added.
pub struct Roster<P> {
    entries: Vec<(String, P)>,
    index: StringHashMap<usize>,
}

/// No handle occurs twice.
pub open spec fn distinct<P>(list: Seq<(Seq<char>, P)>) -> bool {
    forall|i: int, j: int|
        0 <= i < j < list.len() ==> (#[trigger] list[i]).0 != (#[trigger] list[j]).0
}

/// Some player has the handle.
pub open spec fn has_handle<P>(list: Seq<(Seq<char>, P)>, handle: Seq<char>) -> bool {
    exists|i: int| 0 <= i < list.len() && (#[trigger] list[i]).0 == handle
}

impl<P> View for Roster<P> {
    type V = Seq<(Seq<char>, P)>;

    closed spec fn view(&self) -> Seq<(Seq<char>, P)> {
        Seq::new(self.entries@.len(), |i: int| (self.entries@[i].0@, self.entries@[i].1))
    }
}

impl<P> Roster<P> {
    /// The index knows just the handles of the table, each with its place.
    pub closed spec fn wf(&self) -> bool {
        &&& forall|i: int|
            0 <= i < self.entries@.len() ==> {
                &&& self.index@.contains_key((#[trigger] self.entries@[i]).0@)
                &&& self.index@[self.entries@[i].0@] == i
            }
        &&& forall|h: Seq<char>| #[trigger]
            self.index@.contains_key(h) ==> {
                &&& self.index@[h] < self.entries@.len()
                &&& self.entries@[self.index@[h] as int].0@ == h
            }
    }

    /// A table holds no handle twice, and no more players than a machine word counts.
    pub proof fn lemma_distinct(&self)
        requires
            self.wf(),
        ensures
            distinct(self@),
            self@.len() <= usize::MAX,
    {
        assert forall|i: int, j: int| 0 <= i < j < self@.len() implies (#[trigger] self@[i]).0 != (
        #[trigger] self@[j]).0 by {
            assert(self.index@[self.entries@[i].0@] == i);
            assert(self.index@[self.entries@[j].0@] == j);
        }
        assert(self.entries.len() == self.entries@.len());
    }

    /// A handle is in a table just if it stands at one of the places.
    pub proof fn lemma_has_handle(&self, handle: Seq<char>)
        ensures
            !has_handle(self@, handle) <==> forall|i: int|
                0 <= i < self@.len() ==> (#[trigger] self@[i]).0 != handle,
    {
    }

    /// A table without players.
    pub fn new() -> (roster: Self)
        ensures
            roster.wf(),
            roster@ == Seq::<(Seq<char>, P)>::empty(),
    {
        let roster = Roster { entries: Vec::new(), index: StringHashMap::new() };
        proof {
            assert(roster@ =~= Seq::<(Seq<char>, P)>::empty());
        }
        roster
    }

    /// The number of players.
    pub fn len(&self) -> (n: usize)
        ensures
            n == self@.len(),
    {
        self.entries.len()
    }

    /// The place of a handle in the table, if it has one.
    pub fn find(&self, handle: &str) -> (place: Option<usize>)
        requires
            self.wf(),
        ensures
            match place {
                Some(i) => i < self@.len() && self@[i as int].0 == handle@,
                None => !has_handle(self@, handle@),
            },
            place is None <==> forall|i: int|
                0 <= i < self@.len() ==> (#[trigger] self@[i]).0 != handle@,
    {
        match self.index.get(handle) {
            Some(i) => {
                assert(self@[*i as int].0 == handle@);
                Some(*i)
            },
            None => {
                proof {
                    if has_handle(self@, handle@) {
                        let i = choose|i: int|
                            0 <= i < self@.len() && (#[trigger] self@[i]).0 == handle@;
                        assert(self.index@.contains_key(self.entries@[i].0@));
                    }
                }
                None
            },
        }
    }

    /// The handle at a place.
    pub fn handle(&self, place: usize) -> (handle: &String)
        requires
            place < self@.len(),
        ensures
            handle@ == self@[place as int].0,
    {
        &self.entries[place].0
    }

    /// The player at a place.
    pub fn get(&self, place: usize) -> (player: &P)
        requires
            place < self@.len(),
        ensures
            *player == self@[place as int].1,
    {
        &self.entries[place].1
    }

    /// The player at a place, to be changed.
    pub fn get_mut(&mut self, place: usize) -> (player: &mut P)
        requires
            old(self).wf(),
            place < old(self)@.len(),
        ensures
            *player == old(self)@[place as int].1,
            final(self).wf(),
            final(self)@ == old(self)@.update(
                place as int,
                (old(self)@[place as int].0, *final(player)),
            ),
    {
        &mut self.entries[place].1
    }

    /// Adds a player under a new handle, behind the others.
    pub fn add(&mut self, handle: String, player: P)
        requires
            old(self).wf(),
            !has_handle(old(self)@, handle@),
        ensures
            final(self).wf(),
            final(self)@ == old(self)@.push((handle@, player)),
    {
        let place: usize = self.entries.len();
        proof {
            assert forall|i: int| 0 <= i < self.entries@.len() implies (
            #[trigger] self.entries@[i]).0@ != handle@ by {
                assert(self@[i].0 == self.entries@[i].0@);
            }
        }
        self.index.insert(handle.clone(), place);
        self.entries.push((handle, player));
        proof {
            assert(self@ =~= old(self)@.push((handle@, player)));
        }
    }
}

} // verus!
