//! The broker: the one owner of the peer registry. It registers new peers,
//! routes messages onto the outbound links of their recipients, and removes a
//! peer when its writer reports that it has stopped.

use vstd::prelude::*;
use crate::link::{open_link, sent_on, LinkConsumer, LinkProducer};
use crate::model::{
    after, lemma_lines_for_push, lemma_reached_push, lemma_registered_is_reached, lines_for,
    planned, queued, reached, starts_writer, Occurrence,
};
use crate::registry::PeerRegistry;
use crate::roster::Roster;
use crate::wire::{delivery_line, format_delivery, texts, Text};

verus! {

/// What a connection reader sends to the broker. `C` is the connection and
/// `T` the consuming half of the cancellation token; the broker hands both on
/// to the writer and never looks inside.
pub enum Event<C, T> {
    /// A peer has given its name.
    NewPeer { name: String, stream: C, shutdown: T },
    /// A peer sends `content` to the names in `to`.
    Message { from: String, to: Vec<String>, content: String },
}

impl<C, T> Event<C, T> {
    /// The event without the handles it carries.
    pub open spec fn occurrence(&self) -> Occurrence {
        match *self {
            Event::NewPeer { name, .. } => Occurrence::NewPeer { name: name@ },
            Event::Message { from, to, content } => Occurrence::Message {
                from: from@,
                to: texts(to@),
                content: content@,
            },
        }
    }
}

/// What a writer sends to the broker when it stops, for whatever reason: its
/// peer's name and the consuming end of the link, which it still holds.
pub struct DisconnectNotice {
    pub name: String,
    pub pending: LinkConsumer,
}

/// All that a new writer needs: its peer's name, the connection to write to,
/// the token that cancels it, and the consuming end of the peer's link.
pub struct WriterStart<C, T> {
    pub name: String,
    pub stream: C,
    pub shutdown: T,
    pub messages: LinkConsumer,
}

/// One line bound for one recipient.
#[derive(Debug, PartialEq, Eq)]
pub struct Delivery {
    pub recipient: String,
    pub line: String,
}

/// The recipients and lines of a list of deliveries.
pub open spec fn deliveries(list: Seq<Delivery>) -> Seq<(Text, Text)> {
    Seq::new(list.len(), |i: int| (list[i].recipient@, list[i].line@))
}

/// What the broker has done with an event, and what is left for its host to
/// do.
pub enum Reaction<C, T> {
    /// The peer is registered; a writer is to be started for it.
    StartWriter(WriterStart<C, T>),
    /// The name was taken: nothing was done.
    Ignored,
    /// The message was queued for this many recipients.
    Routed { delivered: usize },
}

/// The ways in which the broker fails. Both mean that the registry no longer
/// matches the writers that run, and are fatal to the relay.
#[derive(Debug, PartialEq, Eq)]
pub enum BrokerError {
    /// The link of a registered recipient did not take a line.
    LinkClosed { recipient: String },
    /// A writer reported for a name that is not registered.
    RegistryInvariantViolation { name: String },
}

/// What follows from a link's answer to a line for `recipient`: a refusal is
/// the error `LinkClosed` for that recipient.
pub fn delivery_result(accepted: bool, recipient: &String) -> (res: Result<(), BrokerError>)
    ensures
        accepted ==> res is Ok,
        !accepted ==> (res matches Err(BrokerError::LinkClosed { recipient: r }) && r@
            == recipient@),
{
    if accepted {
        Ok(())
    } else {
        Err(BrokerError::LinkClosed { recipient: recipient.clone() })
    }
}

/// The registry `later` holds the names of `earlier`, and each link has taken,
/// behind what it had taken before, the lines that `o` has for its peer and
/// nothing else.
pub open spec fn links_took(
    earlier: Map<Text, LinkProducer>,
    later: Map<Text, LinkProducer>,
    o: Occurrence,
) -> bool {
    &&& later.dom() == earlier.dom()
    &&& forall|n: Text| #[trigger]
        earlier.contains_key(n) ==> sent_on(later[n]) == sent_on(earlier[n]) + lines_for(
            earlier.dom(),
            o,
            n,
        )
}

/// The message for the first `k` recipients of `to` alone.
pub open spec fn first(from: Text, to: Seq<Text>, content: Text, k: int) -> Occurrence {
    Occurrence::Message { from, to: to.take(k), content }
}

/// Routing stopped with the error `e` at the recipient in place `k` of `to`,
/// whose link refused its line: the recipients before it have got theirs and
/// nothing else was queued.
pub open spec fn stopped_at(
    earlier: Map<Text, LinkProducer>,
    later: Map<Text, LinkProducer>,
    from: Text,
    to: Seq<Text>,
    content: Text,
    e: BrokerError,
    k: int,
) -> bool {
    &&& 0 <= k < to.len()
    &&& earlier.contains_key(to[k])
    &&& e matches BrokerError::LinkClosed { recipient }
    &&& recipient@ == to[k]
    &&& links_took(earlier, later, first(from, to, content, k))
}

/// Two messages routed one after the other leave on each link the lines of
/// the first before the lines of the second: what a peer's link has taken is
/// what the broker queued for the peer, in the order in which it routed.
pub proof fn law_links_take_lines_in_order(
    start: Map<Text, LinkProducer>,
    middle: Map<Text, LinkProducer>,
    end: Map<Text, LinkProducer>,
    earlier: Occurrence,
    later: Occurrence,
    who: Text,
)
    requires
        earlier is Message,
        later is Message,
        links_took(start, middle, earlier),
        links_took(middle, end, later),
        start.contains_key(who),
    ensures
        sent_on(end[who]) == sent_on(start[who]) + lines_for(start.dom(), earlier, who)
            + lines_for(start.dom(), later, who),
        sent_on(end[who]) == sent_on(start[who]) + queued(
            start.dom(),
            seq![earlier, later],
            who,
        ),
{
    let names = start.dom();
    let both = seq![earlier, later];
    assert(middle.contains_key(who));
    assert(both.drop_first() =~= seq![later]);
    assert(seq![later].drop_first() =~= Seq::<Occurrence>::empty());
    assert(queued(names, both, who) =~= lines_for(names, earlier, who) + lines_for(
        names,
        later,
        who,
    )) by {
        reveal_with_fuel(queued, 3);
    }
    assert(sent_on(start[who]) + lines_for(names, earlier, who) + lines_for(names, later, who)
        =~= sent_on(start[who]) + (lines_for(names, earlier, who) + lines_for(
        names,
        later,
        who,
    )));
}

/// The broker while inbound events still come.
pub struct Broker {
    peers: PeerRegistry,
}

impl View for Broker {
    type V = Map<Text, LinkProducer>;

    /// The registry: each registered name with the producing end of its link.
    closed spec fn view(&self) -> Map<Text, LinkProducer> {
        self.peers@
    }
}

impl Broker {
    /// The registered names.
    pub open spec fn names(&self) -> Set<Text> {
        self@.dom()
    }

    /// A broker with nobody registered.
    pub fn new() -> (broker: Self)
        ensures
            broker@ == Map::<Text, LinkProducer>::empty(),
            broker.names() == Set::<Text>::empty(),
    {
        let broker = Broker { peers: PeerRegistry::new() };
        assert(broker.names() =~= Set::<Text>::empty());
        broker
    }

    /// Whether `name` is registered.
    pub fn is_registered(&self, name: &String) -> (found: bool)
        ensures
            found == self.names().contains(name@),
    {
        self.peers.contains(name)
    }

    /// Whether nobody is registered.
    pub fn is_idle(&self) -> (idle: bool)
        ensures
            idle == (self.names() == Set::<Text>::empty()),
    {
        self.peers.is_empty()
    }

    /// Registers a new peer. Where the name is free, a fresh link is opened,
    /// its producing end is registered under the name, and the result holds
    /// what the peer's writer needs. Where the name is taken nothing changes:
    /// the first peer keeps the name and its link.
    pub fn register<C, T>(&mut self, name: String, stream: C, shutdown: T) -> (start: Option<
        WriterStart<C, T>,
    >)
        ensures
            final(self).names() == old(self).names().insert(name@),
            forall|n: Text| #[trigger]
                old(self)@.contains_key(n) ==> final(self)@[n] == old(self)@[n],
            match start {
                Some(w) => !old(self).names().contains(name@) && w.name@ == name@ && w.stream
                    == stream && w.shutdown == shutdown && sent_on(final(self)@[name@])
                    == Seq::<Text>::empty(),
                None => old(self).names().contains(name@) && final(self)@ == old(self)@,
            },
    {
        if self.peers.contains(&name) {
            assert(self.names().insert(name@) =~= self.names());
            None
        } else {
            let (producer, consumer) = open_link();
            let _ = self.peers.insert(name.clone(), producer);
            assert(final(self).names() =~= old(self).names().insert(name@));
            Some(WriterStart { name, stream, shutdown, messages: consumer })
        }
    }

    /// What a message would put on the links: one delivery for each recipient
    /// that is registered, in the order of `to`.
    pub fn plan(&self, from: &String, to: &Vec<String>, content: &String) -> (out: Vec<Delivery>)
        ensures
            deliveries(out@) == planned(self.names(), from@, texts(to@), content@),
    {
        let mut out: Vec<Delivery> = Vec::new();
        let mut i: usize = 0;
        while i < to.len()
            invariant
                i <= to.len(),
                deliveries(out@) == planned(
                    self.names(),
                    from@,
                    texts(to@).take(i as int),
                    content@,
                ),
            decreases to.len() - i,
        {
            proof {
                let seen = texts(to@).take(i as int);
                lemma_reached_push(self.names(), seen, to@[i as int]@);
                assert(seen.push(to@[i as int]@) =~= texts(to@).take(i + 1));
            }
            if self.peers.contains(&to[i]) {
                let delivery = Delivery {
                    recipient: to[i].clone(),
                    line: format_delivery(from.as_str(), content.as_str()),
                };
                assert(deliveries(out@.push(delivery)) =~= deliveries(out@).push(
                    (delivery.recipient@, delivery.line@),
                ));
                out.push(delivery);
            }
            i = i + 1;
        }
        assert(texts(to@).take(to.len() as int) =~= texts(to@));
        out
    }

    /// Routes a message: for each recipient in `to`, in order, the line
    /// `from {from}: {content}` is queued on the recipient's link if the
    /// recipient is registered; one that is not is passed over. The result is
    /// the number of lines queued. Routing stops with `LinkClosed` at the
    /// first recipient whose link does not take its line. A message that
    /// reaches nobody queues nothing and cannot fail.
    pub fn route(&mut self, from: &String, to: &Vec<String>, content: &String) -> (res: Result<
        usize,
        BrokerError,
    >)
        ensures
            final(self).names() == old(self).names(),
            match res {
                Ok(delivered) => delivered == planned(
                    old(self).names(),
                    from@,
                    texts(to@),
                    content@,
                ).len() && links_took(
                    old(self)@,
                    final(self)@,
                    Occurrence::Message { from: from@, to: texts(to@), content: content@ },
                ),
                Err(e) => exists|k: int| #[trigger]
                    stopped_at(old(self)@, final(self)@, from@, texts(to@), content@, e, k),
            },
            planned(old(self).names(), from@, texts(to@), content@).len() == 0 ==> res is Ok,
    {
        let line = format_delivery(from.as_str(), content.as_str());
        let ghost start = self@;
        let ghost names = self.names();
        let ghost all = texts(to@);
        let mut delivered: usize = 0;
        let mut i: usize = 0;
        proof {
            reveal(Seq::filter);
            assert(all.take(0) =~= Seq::<Text>::empty());
            assert forall|n: Text| #[trigger] start.contains_key(n) implies sent_on(start[n])
                == sent_on(start[n]) + lines_for(names, first(from@, all, content@, 0), n) by {
                assert(lines_for(names, first(from@, all, content@, 0), n) =~= Seq::<
                    Text,
                >::empty());
            }
        }
        while i < to.len()
            invariant
                i <= to.len(),
                delivered <= i,
                all == texts(to@),
                start == old(self)@,
                names == start.dom(),
                line@ == delivery_line(from@, content@),
                delivered == reached(names, all.take(i as int)).len(),
                links_took(start, self@, first(from@, all, content@, i as int)),
            decreases to.len() - i,
        {
            let ghost before = self@;
            let ghost next = to@[i as int]@;
            proof {
                assert(all[i as int] == next);
                assert(all.take(i as int).push(next) =~= all.take(i + 1));
                lemma_reached_push(names, all.take(i as int), next);
            }
            match self.peers.send(&to[i], &line) {
                Some(accepted) => {
                    match delivery_result(accepted, &to[i]) {
                        Ok(()) => {
                            delivered = delivered + 1;
                        },
                        Err(e) => {
                            proof {
                                assert forall|n: Text| #[trigger]
                                    start.contains_key(n) implies sent_on(self@[n]) == sent_on(
                                    start[n],
                                ) + lines_for(names, first(from@, all, content@, i as int), n) by {
                                    assert(before.contains_key(n));
                                    if n != next {
                                        assert(self@[n] == before[n]);
                                    }
                                }
                                lemma_registered_is_reached(names, all, i as int);
                                assert(stopped_at(start, self@, from@, all, content@, e, i as int));
                            }
                            return Err(e);
                        },
                    }
                },
                None => {},
            }
            proof {
                assert forall|n: Text| #[trigger] start.contains_key(n) implies sent_on(self@[n])
                    == sent_on(start[n]) + lines_for(
                    names,
                    first(from@, all, content@, i + 1),
                    n,
                ) by {
                    let had = lines_for(names, first(from@, all, content@, i as int), n);
                    lemma_lines_for_push(names, from@, all.take(i as int), next, content@, n);
                    assert(before.contains_key(n));
                    assert(sent_on(before[n]) == sent_on(start[n]) + had);
                    if names.contains(next) && next == n {
                        assert((sent_on(start[n]) + had).push(line@) =~= sent_on(start[n]) + (had
                            + seq![line@]));
                    } else {
                        assert(self@[n] == before[n]);
                        assert(sent_on(start[n]) + had =~= sent_on(start[n]) + (had + Seq::<
                            Text,
                        >::empty()));
                    }
                }
            }
            i = i + 1;
        }
        assert(all.take(to.len() as int) =~= all);
        Ok(delivered)
    }

    /// Removes a peer on its writer's report and drops the link's consuming
    /// end that the writer returned. A report for a name that is not
    /// registered is the error `RegistryInvariantViolation`.
    pub fn reap(&mut self, notice: DisconnectNotice) -> (res: Result<(), BrokerError>)
        ensures
            final(self)@ == old(self)@.remove(notice.name@),
            final(self).names() == after(
                old(self).names(),
                Occurrence::Disconnect { name: notice.name@ },
            ),
            match res {
                Ok(()) => old(self).names().contains(notice.name@),
                Err(e) => !old(self).names().contains(notice.name@) && e
                    == (BrokerError::RegistryInvariantViolation { name: notice.name }),
            },
    {
        let DisconnectNotice { name, pending } = notice;
        match self.peers.remove(&name) {
            Some(_) => Ok(()),
            None => Err(BrokerError::RegistryInvariantViolation { name }),
        }
    }

    /// Handles one inbound event: registers the peer of a `NewPeer`, routes a
    /// `Message`. Whatever the event, a link that was registered before stays
    /// registered, and has taken the lines that the event has for its peer and
    /// no others.
    pub fn handle<C, T>(&mut self, event: Event<C, T>) -> (res: Result<Reaction<C, T>, BrokerError>)
        ensures
            final(self).names() == after(old(self).names(), event.occurrence()),
            match event {
                Event::NewPeer { name, stream, shutdown } => match res {
                    Ok(Reaction::StartWriter(w)) => starts_writer(
                        old(self).names(),
                        event.occurrence(),
                    ) && w.name@ == name@ && w.stream == stream && w.shutdown == shutdown
                        && sent_on(final(self)@[name@]) == Seq::<Text>::empty() && (forall|n: Text|
                     #[trigger]
                        old(self)@.contains_key(n) ==> final(self)@[n] == old(self)@[n]),
                    Ok(Reaction::Ignored) => !starts_writer(old(self).names(), event.occurrence())
                        && final(self)@ == old(self)@,
                    _ => false,
                },
                Event::Message { from, to, content } => match res {
                    Ok(Reaction::Routed { delivered }) => delivered == planned(
                        old(self).names(),
                        from@,
                        texts(to@),
                        content@,
                    ).len() && links_took(old(self)@, final(self)@, event.occurrence()),
                    Err(e) => planned(old(self).names(), from@, texts(to@), content@).len() > 0
                        && exists|k: int| #[trigger]
                        stopped_at(old(self)@, final(self)@, from@, texts(to@), content@, e, k),
                    _ => false,
                },
            },
    {
        match event {
            Event::NewPeer { name, stream, shutdown } => {
                match self.register(name, stream, shutdown) {
                    Some(start) => Ok(Reaction::StartWriter(start)),
                    None => Ok(Reaction::Ignored),
                }
            },
            Event::Message { from, to, content } => {
                match self.route(&from, &to, &content) {
                    Ok(delivered) => Ok(Reaction::Routed { delivered }),
                    Err(e) => Err(e),
                }
            },
        }
    }

    /// Ends the broker's work on inbound events: every link is dropped, so
    /// that each writer still running finds its link closed, and what is left
    /// is to wait for their reports.
    pub fn shutdown(self) -> (draining: Draining)
        ensures
            draining@ == self.names(),
    {
        Draining { waiting: self.peers.into_roster() }
    }
}

/// The broker after its inbound events have ended, while it waits for the
/// writers that were still running to report.
pub struct Draining {
    waiting: Roster,
}

impl View for Draining {
    type V = Set<Text>;

    /// The names whose writers have not reported yet.
    closed spec fn view(&self) -> Set<Text> {
        self.waiting@
    }
}

impl Draining {
    /// Takes a writer's report and drops the link's consuming end. The result
    /// tells whether the broker was waiting for that writer.
    pub fn reap(&mut self, notice: DisconnectNotice) -> (expected: bool)
        ensures
            expected == old(self)@.contains(notice.name@),
            final(self)@ == after(old(self)@, Occurrence::Disconnect { name: notice.name@ }),
    {
        let DisconnectNotice { name, pending } = notice;
        self.waiting.remove(&name)
    }

    /// Whether every writer has reported: only then is the broker done.
    pub fn is_finished(&self) -> (finished: bool)
        ensures
            finished == (self@ == Set::<Text>::empty()),
    {
        self.waiting.is_empty()
    }
}

} // verus!
