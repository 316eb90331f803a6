//! The peer registry: which names are connected, and the producing end of each
//! one's outbound link.

use vstd::prelude::*;
use crate::link::{push_line, sent_on, LinkProducer};
use crate::roster::{lemma_index, lemma_names_push, lemma_names_remove, Roster};
use crate::wire::{texts, Text};

verus! {

/// One registered peer.
pub struct Peer {
    name: String,
    link: LinkProducer,
}

/// The registry of connected peers: a map from names to links, in which no
/// name stands twice.
pub struct PeerRegistry {
    peers: Vec<Peer>,
}

/// The names of the entries, in their order.
pub closed spec fn names_of(peers: Seq<Peer>) -> Seq<Text> {
    Seq::new(peers.len(), |i: int| peers[i].name@)
}

/// The entries as a map from names to links.
pub closed spec fn as_map(peers: Seq<Peer>) -> Map<Text, LinkProducer> {
    Map::new(
        |name: Text| names_of(peers).contains(name),
        |name: Text| peers[names_of(peers).index_of(name)].link,
    )
}

proof fn lemma_entry(peers: Seq<Peer>, i: int)
    requires
        names_of(peers).no_duplicates(),
        0 <= i < peers.len(),
    ensures
        as_map(peers).contains_key(peers[i].name@),
        as_map(peers)[peers[i].name@] == peers[i].link,
{
    lemma_index(names_of(peers), i);
}

proof fn lemma_push(peers: Seq<Peer>, peer: Peer)
    requires
        names_of(peers).no_duplicates(),
        !as_map(peers).contains_key(peer.name@),
    ensures
        names_of(peers.push(peer)).no_duplicates(),
        as_map(peers.push(peer)) == as_map(peers).insert(peer.name@, peer.link),
{
    let names = names_of(peers);
    let grown = peers.push(peer);
    assert(names_of(grown) =~= names.push(peer.name@));
    lemma_names_push(names, peer.name@);
    let want = as_map(peers).insert(peer.name@, peer.link);
    assert forall|name: Text| as_map(grown).contains_key(name) implies as_map(grown)[name]
        == want[name] by {
        assert(names.push(peer.name@).contains(name));
        if names.contains(name) {
        }
    }
    assert(as_map(grown) =~= want);
}

proof fn lemma_remove(peers: Seq<Peer>, at: int)
    requires
        names_of(peers).no_duplicates(),
        0 <= at < peers.len(),
    ensures
        names_of(peers.remove(at)).no_duplicates(),
        as_map(peers.remove(at)) == as_map(peers).remove(peers[at].name@),
{
    let names = names_of(peers);
    let left = peers.remove(at);
    assert(names_of(left) =~= names.remove(at));
    lemma_names_remove(names, at);
    let want = as_map(peers).remove(peers[at].name@);
    assert forall|name: Text| as_map(left).contains_key(name) implies as_map(left)[name]
        == want[name] by {
        assert(names.remove(at).contains(name));
    }
    assert(as_map(left) =~= want);
}

proof fn lemma_update(peers: Seq<Peer>, at: int, peer: Peer)
    requires
        names_of(peers).no_duplicates(),
        0 <= at < peers.len(),
        peer.name@ == peers[at].name@,
    ensures
        names_of(peers.update(at, peer)).no_duplicates(),
        as_map(peers.update(at, peer)) == as_map(peers).insert(peer.name@, peer.link),
{
    let changed = peers.update(at, peer);
    assert(names_of(changed) =~= names_of(peers));
    lemma_index(names_of(peers), at);
    assert(as_map(changed) =~= as_map(peers).insert(peer.name@, peer.link));
}

impl View for PeerRegistry {
    type V = Map<Text, LinkProducer>;

    /// The registry as a map from each registered name to its link.
    closed spec fn view(&self) -> Map<Text, LinkProducer> {
        as_map(self.peers@)
    }
}

impl PeerRegistry {
    #[verifier::type_invariant]
    spec fn well_formed(self) -> bool {
        names_of(self.peers@).no_duplicates()
    }

    /// An empty registry.
    pub fn new() -> (registry: Self)
        ensures
            registry@ == Map::<Text, LinkProducer>::empty(),
    {
        let registry = PeerRegistry { peers: Vec::new() };
        assert(registry@ =~= Map::<Text, LinkProducer>::empty());
        registry
    }

    /// Whether no peer is registered.
    pub fn is_empty(&self) -> (empty: bool)
        ensures
            empty == (self@.dom() == Set::<Text>::empty()),
    {
        proof {
            if self.peers@.len() > 0 {
                assert(names_of(self.peers@)[0] == self.peers@[0].name@);
                assert(self@.dom().contains(self.peers@[0].name@));
            } else {
                assert(self@.dom() =~= Set::<Text>::empty());
            }
        }
        self.peers.len() == 0
    }

    /// Where `name` is registered, if it is.
    fn position(&self, name: &String) -> (at: Option<usize>)
        ensures
            match at {
                Some(i) => i < self.peers.len() && self.peers[i as int].name@ == name@
                    && self@.contains_key(name@) && self@[name@] == self.peers[i as int].link,
                None => !self@.contains_key(name@),
            },
    {
        proof {
            use_type_invariant(self);
        }
        let mut i: usize = 0;
        while i < self.peers.len()
            invariant
                i <= self.peers.len(),
                names_of(self.peers@).no_duplicates(),
                forall|j: int| 0 <= j < i ==> self.peers@[j].name@ != name@,
            decreases self.peers.len() - i,
        {
            if self.peers[i].name == *name {
                proof {
                    lemma_entry(self.peers@, i as int);
                }
                return Some(i);
            }
            i = i + 1;
        }
        proof {
            let names = names_of(self.peers@);
            if names.contains(name@) {
                let k = names.index_of(name@);
                assert(self.peers@[k].name@ == name@);
            }
        }
        None
    }

    /// Whether `name` is registered.
    pub fn contains(&self, name: &String) -> (found: bool)
        ensures
            found == self@.contains_key(name@),
    {
        self.position(name).is_some()
    }

    /// The link registered under `name`, if there is one.
    pub fn get(&self, name: &String) -> (link: Option<&LinkProducer>)
        ensures
            match link {
                Some(l) => self@.contains_key(name@) && *l == self@[name@],
                None => !self@.contains_key(name@),
            },
    {
        match self.position(name) {
            Some(i) => Some(&self.peers[i].link),
            None => None,
        }
    }

    /// Registers `link` under `name` if the name is free. Where it is taken
    /// nothing changes and the link comes back: the registry never replaces a
    /// link.
    pub fn insert(&mut self, name: String, link: LinkProducer) -> (refused: Option<LinkProducer>)
        ensures
            match refused {
                Some(l) => old(self)@.contains_key(name@) && l == link && final(self)@ == old(
                    self,
                )@,
                None => !old(self)@.contains_key(name@) && final(self)@ == old(self)@.insert(
                    name@,
                    link,
                ),
            },
    {
        if self.position(&name).is_some() {
            return Some(link);
        }
        let peer = Peer { name, link };
        let mut peers: Vec<Peer> = Vec::new();
        proof {
            use_type_invariant(&*self);
            lemma_push(self.peers@, peer);
            assert(names_of(peers@) =~= Seq::<Text>::empty());
        }
        core::mem::swap(&mut self.peers, &mut peers);
        peers.push(peer);
        core::mem::swap(&mut self.peers, &mut peers);
        None
    }

    /// Queues a copy of `line` on the link registered under `name` and tells
    /// whether the link took it; `None`, and nothing queued, where `name` is
    /// not registered. No other link is touched.
    pub fn send(&mut self, name: &String, line: &String) -> (res: Option<bool>)
        ensures
            final(self)@.dom() == old(self)@.dom(),
            forall|n: Text|
                n != name@ && #[trigger] old(self)@.contains_key(n) ==> final(self)@[n] == old(
                    self,
                )@[n],
            match res {
                Some(accepted) => old(self)@.contains_key(name@) && sent_on(final(self)@[name@])
                    == if accepted {
                    sent_on(old(self)@[name@]).push(line@)
                } else {
                    sent_on(old(self)@[name@])
                },
                None => !old(self)@.contains_key(name@) && final(self)@ == old(self)@,
            },
    {
        match self.position(name) {
            Some(i) => {
                let mut peers: Vec<Peer> = Vec::new();
                proof {
                    use_type_invariant(&*self);
                    assert(names_of(peers@) =~= Seq::<Text>::empty());
                }
                core::mem::swap(&mut self.peers, &mut peers);
                let ghost before = peers@;
                let accepted = push_line(&mut peers[i].link, line.clone());
                proof {
                    assert(peers@ =~= before.update(i as int, peers@[i as int]));
                    lemma_update(before, i as int, peers@[i as int]);
                    lemma_entry(before, i as int);
                    assert(as_map(peers@).dom() =~= as_map(before).dom());
                }
                core::mem::swap(&mut self.peers, &mut peers);
                Some(accepted)
            },
            None => None,
        }
    }

    /// Removes `name` and hands back its link; `None`, and no change, where
    /// `name` is not registered.
    pub fn remove(&mut self, name: &String) -> (link: Option<LinkProducer>)
        ensures
            final(self)@ == old(self)@.remove(name@),
            match link {
                Some(l) => old(self)@.contains_key(name@) && l == old(self)@[name@],
                None => !old(self)@.contains_key(name@),
            },
    {
        match self.position(name) {
            Some(i) => {
                let mut peers: Vec<Peer> = Vec::new();
                proof {
                    use_type_invariant(&*self);
                    lemma_remove(self.peers@, i as int);
                    assert(names_of(peers@) =~= Seq::<Text>::empty());
                }
                core::mem::swap(&mut self.peers, &mut peers);
                let peer = peers.remove(i);
                core::mem::swap(&mut self.peers, &mut peers);
                Some(peer.link)
            },
            None => {
                assert(self@.remove(name@) =~= self@);
                None
            },
        }
    }

    /// Drops every link and keeps the names: the peers whose writers are still
    /// to stop.
    pub fn into_roster(self) -> (roster: Roster)
        ensures
            roster@ == self@.dom(),
    {
        proof {
            use_type_invariant(&self);
        }
        let mut names: Vec<String> = Vec::new();
        let mut i: usize = 0;
        while i < self.peers.len()
            invariant
                i <= self.peers.len(),
                names.len() == i,
                texts(names@) == names_of(self.peers@).take(i as int),
            decreases self.peers.len() - i,
        {
            let name = self.peers[i].name.clone();
            proof {
                let before = texts(names@);
                let after = texts(names@.push(name));
                let all = names_of(self.peers@);
                assert(name@ == self.peers@[i as int].name@);
                assert forall|j: int| 0 <= j < after.len() implies after[j] == all.take(i + 1)[j] by {
                    if j < i {
                        assert(after[j] == before[j]);
                        assert(before[j] == all.take(i as int)[j]);
                    }
                }
                assert(after =~= all.take(i + 1));
            }
            names.push(name);
            i = i + 1;
        }
        proof {
            assert(texts(names@) =~= names_of(self.peers@));
            assert(names_of(self.peers@).to_set() =~= self@.dom());
        }
        Roster::from_distinct(names)
    }
}

} // verus!
