//! The outbound link of a peer: an unbounded first-in, first-out channel of
//! lines. The broker keeps the producing end in its registry; the peer's
//! writer holds the consuming end and hands it back when it stops.
//!
//! The channel itself is `futures::channel::mpsc`. Nothing in this module is
//! proved: it declares the two channel types and states what is taken on
//! trust of the two calls that the library makes.

use vstd::prelude::*;
use crate::wire::Text;

verus! {

/// `futures::channel::mpsc::UnboundedSender`, carried as an opaque value.
#[verifier::external_type_specification]
#[verifier::external_body]
#[verifier::reject_recursive_types(T)]
pub struct ExUnboundedSender<T>(futures::channel::mpsc::UnboundedSender<T>);

/// `futures::channel::mpsc::UnboundedReceiver`, carried as an opaque value.
#[verifier::external_type_specification]
#[verifier::external_body]
#[verifier::reject_recursive_types(T)]
pub struct ExUnboundedReceiver<T>(futures::channel::mpsc::UnboundedReceiver<T>);

/// The producing end of an outbound link.
pub type LinkProducer = futures::channel::mpsc::UnboundedSender<String>;

/// The consuming end of an outbound link.
pub type LinkConsumer = futures::channel::mpsc::UnboundedReceiver<String>;

/// The lines that a link has taken from this producing end, in the order in
/// which it took them. This is the end's history, not what the link holds at
/// the moment: the consuming end takes lines off it in another task.
pub uninterp spec fn sent_on(link: futures::channel::mpsc::UnboundedSender<String>) -> Seq<Text>;

/// Calls `futures::channel::mpsc::unbounded` to open a fresh link. It is taken
/// on trust that the new link has taken no line yet.
#[verifier::external_body]
pub(crate) fn open_link() -> (ends: (LinkProducer, LinkConsumer))
    ensures
        sent_on(ends.0) == Seq::<Text>::empty(),
{
    futures::channel::mpsc::unbounded()
}

/// Calls `UnboundedSender::unbounded_send` to queue `line` on a link, and
/// tells whether the link took it. It is taken on trust that a line which the
/// call accepts is queued behind all that this end queued before, and that
/// one which it refuses is not queued at all. Whether it refuses is decided
/// elsewhere: the call fails once the consuming end is closed or dropped. The
/// call panics only when the count of queued messages would overflow, which
/// memory runs out long before.
#[verifier::external_body]
pub(crate) fn push_line(link: &mut LinkProducer, line: String) -> (accepted: bool)
    ensures
        sent_on(*final(link)) == if accepted {
            sent_on(*old(link)).push(line@)
        } else {
            sent_on(*old(link))
        },
{
    link.unbounded_send(line).is_ok()
}

} // verus!
