//! Lists of distinct names, and a set of names kept as such a list.

use vstd::prelude::*;
use crate::wire::{texts, Text};

verus! {

/// In a list without duplicates, each name is found at its own position.
pub proof fn lemma_index(names: Seq<Text>, i: int)
    requires
        names.no_duplicates(),
        0 <= i < names.len(),
    ensures
        names.contains(names[i]),
        names.index_of(names[i]) == i,
{
    assert(names.contains(names[i]));
    let k = names.index_of(names[i]);
    assert(0 <= k < names.len() && names[k] == names[i]);
}

/// Appending a new name keeps the list free of duplicates and every earlier
/// name in its place.
pub proof fn lemma_names_push(names: Seq<Text>, name: Text)
    requires
        names.no_duplicates(),
        !names.contains(name),
    ensures
        names.push(name).no_duplicates(),
        names.push(name).index_of(name) == names.len(),
        forall|m: Text| #[trigger]
            names.push(name).contains(m) <==> names.contains(m) || m == name,
        forall|m: Text| #[trigger]
            names.contains(m) ==> names.push(name).index_of(m) == names.index_of(m),
{
    let grown = names.push(name);
    assert forall|i: int, j: int| 0 <= i < grown.len() && 0 <= j < grown.len() && i
        != j implies grown[i] != grown[j] by {
        if i < names.len() && j < names.len() {
        } else if i < names.len() {
            assert(names.contains(names[i]));
        } else {
            assert(names.contains(names[j]));
        }
    }
    lemma_index(grown, names.len() as int);
    assert forall|m: Text| #[trigger] grown.contains(m) <==> names.contains(m) || m == name by {
        if grown.contains(m) {
            let i = grown.index_of(m);
            if i < names.len() {
                assert(names[i] == m);
            }
        }
        if names.contains(m) {
            let i = names.index_of(m);
            assert(grown[i] == m);
        }
        if m == name {
            assert(grown[names.len() as int] == m);
        }
    }
    assert forall|m: Text| #[trigger] names.contains(m) implies grown.index_of(m)
        == names.index_of(m) by {
        let i = names.index_of(m);
        assert(grown[i] == m);
        lemma_index(grown, i);
    }
}

/// Taking one name out keeps the list free of duplicates, removes that name
/// alone, and moves the later names up by one place.
pub proof fn lemma_names_remove(names: Seq<Text>, at: int)
    requires
        names.no_duplicates(),
        0 <= at < names.len(),
    ensures
        names.remove(at).no_duplicates(),
        forall|m: Text| #[trigger]
            names.remove(at).contains(m) <==> names.contains(m) && m != names[at],
        forall|m: Text| #[trigger]
            names.remove(at).contains(m) ==> names.index_of(m) == (if names.remove(at).index_of(m)
                < at {
                names.remove(at).index_of(m)
            } else {
                names.remove(at).index_of(m) + 1
            }),
{
    let left = names.remove(at);
    assert forall|i: int, j: int| 0 <= i < left.len() && 0 <= j < left.len() && i
        != j implies left[i] != left[j] by {
        let oi = if i < at { i } else { i + 1 };
        let oj = if j < at { j } else { j + 1 };
        assert(names[oi] != names[oj]);
    }
    assert forall|m: Text| #[trigger] left.contains(m) <==> names.contains(m) && m
        != names[at] by {
        if left.contains(m) {
            let i = left.index_of(m);
            let oi = if i < at { i } else { i + 1 };
            assert(names[oi] == m);
        }
        if names.contains(m) && m != names[at] {
            let oi = names.index_of(m);
            let i = if oi < at { oi } else { oi - 1 };
            assert(left[i] == m);
        }
    }
    assert forall|m: Text| #[trigger] left.contains(m) implies names.index_of(m) == (if left.index_of(
        m,
    ) < at {
        left.index_of(m)
    } else {
        left.index_of(m) + 1
    }) by {
        let i = left.index_of(m);
        let oi = if i < at { i } else { i + 1 };
        assert(names[oi] == m);
        lemma_index(names, oi);
    }
}

/// A set of names.
pub struct Roster {
    names: Vec<String>,
}

impl View for Roster {
    type V = Set<Text>;

    /// The names on the roster.
    closed spec fn view(&self) -> Set<Text> {
        texts(self.names@).to_set()
    }
}

impl Roster {
    #[verifier::type_invariant]
    spec fn well_formed(self) -> bool {
        texts(self.names@).no_duplicates()
    }

    /// A roster of the given names, which must be distinct.
    pub(crate) fn from_distinct(names: Vec<String>) -> (roster: Self)
        requires
            texts(names@).no_duplicates(),
        ensures
            roster@ == texts(names@).to_set(),
    {
        Roster { names }
    }

    /// An empty roster.
    pub fn new() -> (roster: Self)
        ensures
            roster@ == Set::<Text>::empty(),
    {
        let roster = Roster { names: Vec::new() };
        assert(roster@ =~= Set::<Text>::empty());
        roster
    }

    /// Whether no name is on the roster.
    pub fn is_empty(&self) -> (empty: bool)
        ensures
            empty == (self@ == Set::<Text>::empty()),
    {
        proof {
            if self.names@.len() > 0 {
                assert(texts(self.names@)[0] == self.names@[0]@);
                assert(self@.contains(self.names@[0]@));
            } else {
                assert(self@ =~= Set::<Text>::empty());
            }
        }
        self.names.len() == 0
    }

    /// Where `name` stands, if it is on the roster.
    fn position(&self, name: &String) -> (at: Option<usize>)
        ensures
            match at {
                Some(i) => i < self.names.len() && self.names[i as int]@ == name@
                    && self@.contains(name@),
                None => !self@.contains(name@),
            },
    {
        let mut i: usize = 0;
        while i < self.names.len()
            invariant
                i <= self.names.len(),
                forall|j: int| 0 <= j < i ==> self.names@[j]@ != name@,
            decreases self.names.len() - i,
        {
            if self.names[i] == *name {
                assert(texts(self.names@)[i as int] == name@);
                return Some(i);
            }
            i = i + 1;
        }
        proof {
            let list = texts(self.names@);
            if list.contains(name@) {
                let k = list.index_of(name@);
                assert(self.names@[k]@ == name@);
            }
        }
        None
    }

    /// Whether `name` is on the roster.
    pub fn contains(&self, name: &String) -> (found: bool)
        ensures
            found == self@.contains(name@),
    {
        self.position(name).is_some()
    }

    /// Takes `name` off the roster and tells whether it was on it.
    pub fn remove(&mut self, name: &String) -> (found: bool)
        ensures
            found == old(self)@.contains(name@),
            final(self)@ == old(self)@.remove(name@),
    {
        match self.position(name) {
            Some(i) => {
                let mut names: Vec<String> = Vec::new();
                proof {
                    use_type_invariant(&*self);
                    let list = texts(self.names@);
                    lemma_names_remove(list, i as int);
                    assert(texts(self.names@.remove(i as int)) =~= list.remove(i as int));
                    assert(list.remove(i as int).to_set() =~= list.to_set().remove(name@));
                    assert(texts(names@) =~= Seq::<Text>::empty());
                }
                core::mem::swap(&mut self.names, &mut names);
                let _ = names.remove(i);
                core::mem::swap(&mut self.names, &mut names);
                true
            },
            None => {
                assert(self@.remove(name@) =~= self@);
                false
            },
        }
    }
}

} // verus!
