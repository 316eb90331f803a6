//! The broker as a mathematical machine: which names are registered after a
//! run of occurrences, which writers it starts, and what it queues for whom.
//! The executable broker is specified against these functions, and the laws
//! at the end of this module are proved of them.

use vstd::prelude::*;
use crate::wire::{delivery_line, Text};

verus! {

/// Something that reaches the broker, without the handles it carries.
pub enum Occurrence {
    /// A reader announces a peer.
    NewPeer { name: Text },
    /// A peer sends `content` to the names in `to`.
    Message { from: Text, to: Seq<Text>, content: Text },
    /// The writer of `name` has stopped and says so.
    Disconnect { name: Text },
}

/// Whether the broker starts a writer on `o`: only for a new peer whose name
/// is free.
pub open spec fn starts_writer(names: Set<Text>, o: Occurrence) -> bool {
    o matches Occurrence::NewPeer { name } && !names.contains(name)
}

/// Whether `o` can occur when `names` are registered: a writer reports only
/// while its name is registered.
pub open spec fn lawful(names: Set<Text>, o: Occurrence) -> bool {
    o matches Occurrence::Disconnect { name } ==> names.contains(name)
}

/// The registered names after `o`.
pub open spec fn after(names: Set<Text>, o: Occurrence) -> Set<Text> {
    match o {
        Occurrence::NewPeer { name } => names.insert(name),
        Occurrence::Message { .. } => names,
        Occurrence::Disconnect { name } => names.remove(name),
    }
}

/// The recipients in `to` that are registered, in the order and as often as
/// `to` names them.
pub open spec fn reached(names: Set<Text>, to: Seq<Text>) -> Seq<Text> {
    to.filter(|n: Text| names.contains(n))
}

/// What a message puts on the links: for each recipient reached, its name and
/// the line it gets.
pub open spec fn planned(names: Set<Text>, from: Text, to: Seq<Text>, content: Text) -> Seq<
    (Text, Text),
> {
    reached(names, to).map_values(|n: Text| (n, delivery_line(from, content)))
}

/// The lines that `o` puts on the link of `who`.
pub open spec fn lines_for(names: Set<Text>, o: Occurrence, who: Text) -> Seq<Text> {
    match o {
        Occurrence::Message { from, to, content } => planned(names, from, to, content).filter(
            |d: (Text, Text)| d.0 == who,
        ).map_values(|d: (Text, Text)| d.1),
        _ => Seq::empty(),
    }
}

/// The registered names after the occurrences of `trace`, in turn.
pub open spec fn after_all(names: Set<Text>, trace: Seq<Occurrence>) -> Set<Text>
    decreases trace.len(),
{
    if trace.len() == 0 {
        names
    } else {
        after_all(after(names, trace[0]), trace.drop_first())
    }
}

/// Whether each occurrence of `trace` is lawful when it comes.
pub open spec fn lawful_trace(names: Set<Text>, trace: Seq<Occurrence>) -> bool
    decreases trace.len(),
{
    trace.len() > 0 ==> lawful(names, trace[0]) && lawful_trace(
        after(names, trace[0]),
        trace.drop_first(),
    )
}

/// How many writers the broker starts for `who` over `trace`.
pub open spec fn writers_started(names: Set<Text>, trace: Seq<Occurrence>, who: Text) -> nat
    decreases trace.len(),
{
    if trace.len() == 0 {
        0
    } else {
        let first: nat = if starts_writer(names, trace[0]) && trace[0]->NewPeer_name == who {
            1
        } else {
            0
        };
        first + writers_started(after(names, trace[0]), trace.drop_first(), who)
    }
}

/// How many writers of `who` report over `trace`.
pub open spec fn writers_reported(trace: Seq<Occurrence>, who: Text) -> nat
    decreases trace.len(),
{
    if trace.len() == 0 {
        0
    } else {
        let first: nat = if trace[0] == (Occurrence::Disconnect { name: who }) {
            1
        } else {
            0
        };
        first + writers_reported(trace.drop_first(), who)
    }
}

/// The lines put on the link of `who` over `trace`, in the order in which the
/// broker queues them.
pub open spec fn queued(names: Set<Text>, trace: Seq<Occurrence>, who: Text) -> Seq<Text>
    decreases trace.len(),
{
    if trace.len() == 0 {
        Seq::empty()
    } else {
        lines_for(names, trace[0], who) + queued(
            after(names, trace[0]),
            trace.drop_first(),
            who,
        )
    }
}

/// One for a registered name, zero for another.
pub open spec fn live(names: Set<Text>, who: Text) -> nat {
    if names.contains(who) {
        1
    } else {
        0
    }
}

/// Adding a recipient to the end of a list adds it to the end of those
/// reached, if it is registered.
pub proof fn lemma_reached_push(names: Set<Text>, to: Seq<Text>, next: Text)
    ensures
        reached(names, to.push(next)) == if names.contains(next) {
            reached(names, to).push(next)
        } else {
            reached(names, to)
        },
{
    reveal(Seq::filter);
    assert(to.push(next).drop_last() =~= to);
}

/// A message reaches nobody but registered peers that it names.
pub proof fn law_only_named_peers_are_reached(names: Set<Text>, to: Seq<Text>)
    ensures
        reached(names, to).len() <= to.len(),
        forall|i: int|
            0 <= i < reached(names, to).len() ==> names.contains(
                #[trigger] reached(names, to)[i],
            ) && to.contains(reached(names, to)[i]),
    decreases to.len(),
{
    if to.len() > 0 {
        let head = to.drop_last();
        law_only_named_peers_are_reached(names, head);
        lemma_reached_push(names, head, to.last());
        assert(head.push(to.last()) =~= to);
        assert forall|i: int| 0 <= i < reached(names, to).len() implies names.contains(
            #[trigger] reached(names, to)[i],
        ) && to.contains(reached(names, to)[i]) by {
            if i < reached(names, head).len() {
                let n = reached(names, head)[i];
                let k = choose|k: int| 0 <= k < head.len() && head[k] == n;
                assert(to[k] == n);
            } else {
                assert(to[to.len() - 1] == to.last());
            }
        }
    } else {
        reveal(Seq::filter);
    }
}

/// A registered recipient that the list names is reached.
pub proof fn lemma_registered_is_reached(names: Set<Text>, to: Seq<Text>, i: int)
    requires
        0 <= i < to.len(),
        names.contains(to[i]),
    ensures
        reached(names, to).contains(to[i]),
        reached(names, to).len() > 0,
    decreases to.len(),
{
    let head = to.drop_last();
    lemma_reached_push(names, head, to.last());
    assert(head.push(to.last()) =~= to);
    if i == to.len() - 1 {
        let r = reached(names, head).push(to.last());
        assert(r[r.len() - 1] == to[i]);
    } else {
        lemma_registered_is_reached(names, head, i);
        let k = choose|k: int|
            0 <= k < reached(names, head).len() && reached(names, head)[k] == head[i];
        assert(reached(names, to)[k] == to[i]);
    }
}

/// Adding a recipient to the end of a message's list adds the message's line
/// to the end of what that recipient gets, if it is registered, and changes
/// nothing for anybody else.
pub proof fn lemma_lines_for_push(
    names: Set<Text>,
    from: Text,
    to: Seq<Text>,
    next: Text,
    content: Text,
    who: Text,
)
    ensures
        lines_for(names, Occurrence::Message { from, to: to.push(next), content }, who)
            == lines_for(names, Occurrence::Message { from, to, content }, who) + (if names.contains(
            next,
        ) && next == who {
            seq![delivery_line(from, content)]
        } else {
            Seq::<Text>::empty()
        }),
{
    let line = delivery_line(from, content);
    let short = planned(names, from, to, content);
    let long = planned(names, from, to.push(next), content);
    let before = lines_for(names, Occurrence::Message { from, to, content }, who);
    let now = lines_for(names, Occurrence::Message { from, to: to.push(next), content }, who);
    lemma_reached_push(names, to, next);
    reveal(Seq::filter);
    if names.contains(next) {
        assert(long =~= short.push((next, line)));
        assert(long.drop_last() =~= short);
        assert(long.last() == (next, line));
        if next == who {
            assert(now =~= before + seq![line]);
        } else {
            assert(now =~= before);
        }
    } else {
        assert(long =~= short);
    }
    assert(before + Seq::<Text>::empty() =~= before);
}

/// A name that is already registered is not registered again: no writer is
/// started for it and the registry stays as it is.
pub proof fn law_duplicate_is_ignored(names: Set<Text>, name: Text)
    requires
        names.contains(name),
    ensures
        !starts_writer(names, Occurrence::NewPeer { name }),
        after(names, Occurrence::NewPeer { name }) == names,
{
    assert(names.insert(name) =~= names);
}

/// A name leaves the registry on its writer's report and on nothing else.
pub proof fn law_only_a_report_removes(names: Set<Text>, o: Occurrence, who: Text)
    requires
        names.contains(who),
        !after(names, o).contains(who),
    ensures
        o == (Occurrence::Disconnect { name: who }),
{
}

/// At any moment the writers started for a name are those that have reported
/// and, where the name is registered, one more: a name has at most one writer
/// that has not reported, and it has one exactly while it is registered.
pub proof fn law_one_writer_per_name(names: Set<Text>, trace: Seq<Occurrence>, who: Text)
    requires
        lawful_trace(names, trace),
    ensures
        writers_started(names, trace, who) + live(names, who) == writers_reported(trace, who)
            + live(after_all(names, trace), who),
    decreases trace.len(),
{
    if trace.len() > 0 {
        law_one_writer_per_name(after(names, trace[0]), trace.drop_first(), who);
    }
}

/// A peer that connects, disconnects and connects again under one name is
/// registered, removed, registered and removed, each once and in that order;
/// each connection starts one writer.
pub proof fn law_reconnect(names: Set<Text>, name: Text)
    requires
        !names.contains(name),
    ensures
        ({
            let join = Occurrence::NewPeer { name };
            let leave = Occurrence::Disconnect { name };
            let first = after(names, join);
            let between = after(first, leave);
            let second = after(between, join);
            let last = after(second, leave);
            &&& starts_writer(names, join) && first == names.insert(name)
            &&& lawful(first, leave) && between == names
            &&& starts_writer(between, join) && second == names.insert(name)
            &&& lawful(second, leave) && last == names
            &&& !lawful(between, leave)
        }),
{
    assert(names.insert(name).remove(name) =~= names);
}

proof fn lemma_none_reached(names: Set<Text>, to: Seq<Text>)
    requires
        forall|i: int| 0 <= i < to.len() ==> !names.contains(to[i]),
    ensures
        reached(names, to) == Seq::<Text>::empty(),
    decreases to.len(),
{
    if to.len() > 0 {
        let head = to.drop_last();
        assert forall|i: int| 0 <= i < head.len() implies !names.contains(head[i]) by {
            assert(head[i] == to[i]);
        }
        lemma_none_reached(names, head);
        lemma_reached_push(names, head, to.last());
        assert(head.push(to.last()) =~= to);
    } else {
        reveal(Seq::filter);
    }
}

/// A message whose recipients are all unregistered queues nothing, for
/// anybody.
pub proof fn law_unknown_recipients(names: Set<Text>, from: Text, to: Seq<Text>, content: Text)
    requires
        forall|i: int| 0 <= i < to.len() ==> !names.contains(to[i]),
    ensures
        planned(names, from, to, content) == Seq::<(Text, Text)>::empty(),
        forall|who: Text|
            lines_for(names, Occurrence::Message { from, to, content }, who) == Seq::<
                Text,
            >::empty(),
{
    lemma_none_reached(names, to);
    assert(planned(names, from, to, content) =~= Seq::<(Text, Text)>::empty());
    assert forall|who: Text|
        lines_for(names, Occurrence::Message { from, to, content }, who) == Seq::<
            Text,
        >::empty() by {
        reveal(Seq::filter);
        assert(lines_for(names, Occurrence::Message { from, to, content }, who) =~= Seq::<
            Text,
        >::empty());
    }
}

/// What is queued for a peer over two runs, one after the other, is what the
/// first run queues followed by what the second queues: later messages never
/// overtake earlier ones.
pub proof fn law_queue_keeps_order(
    names: Set<Text>,
    earlier: Seq<Occurrence>,
    later: Seq<Occurrence>,
    who: Text,
)
    ensures
        after_all(names, earlier + later) == after_all(after_all(names, earlier), later),
        queued(names, earlier + later, who) == queued(names, earlier, who) + queued(
            after_all(names, earlier),
            later,
            who,
        ),
    decreases earlier.len(),
{
    if earlier.len() == 0 {
        assert(earlier + later =~= later);
        assert(queued(names, earlier, who) + queued(names, later, who) =~= queued(
            names,
            later,
            who,
        ));
    } else {
        let next = after(names, earlier[0]);
        assert((earlier + later).drop_first() =~= earlier.drop_first() + later);
        assert((earlier + later)[0] == earlier[0]);
        law_queue_keeps_order(next, earlier.drop_first(), later, who);
        assert(queued(names, earlier + later, who) =~= queued(names, earlier, who) + queued(
            after_all(names, earlier),
            later,
            who,
        ));
    }
}

/// Once a broker that started with an empty registry has none left, every
/// writer it ever started has reported.
pub proof fn law_drained_means_all_reported(trace: Seq<Occurrence>, who: Text)
    requires
        lawful_trace(Set::<Text>::empty(), trace),
        after_all(Set::<Text>::empty(), trace) == Set::<Text>::empty(),
    ensures
        writers_started(Set::<Text>::empty(), trace, who) == writers_reported(trace, who),
{
    law_one_writer_per_name(Set::<Text>::empty(), trace, who);
}

} // verus!
