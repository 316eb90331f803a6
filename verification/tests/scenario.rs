use chat_relay::broker::{Broker, DisconnectNotice, Event, Reaction};
use chat_relay::link::LinkConsumer;
use chat_relay::reader::{Input, Reader, Step};
use chat_relay::writer;

/// One client as the relay sees it: its reader, and once it has a name its
/// writer, its link and what was written to its socket.
struct Client {
    reader: Reader,
    writer: Option<writer::Writer>,
    link: Option<LinkConsumer>,
    socket: String,
}

fn connect() -> Client {
    Client { reader: Reader::new(), writer: None, link: None, socket: String::new() }
}

/// The client sends one line; the broker handles what its reader makes of it.
fn send(broker: &mut Broker, client: &mut Client, text: &str) {
    let event: Event<(), ()> = match client.reader.step(Input::Line(text.to_string())) {
        Step::Announce { name } => Event::NewPeer { name, stream: (), shutdown: () },
        Step::Forward { from, to, content } => Event::Message { from, to, content },
        _ => return,
    };
    match broker.handle(event) {
        Ok(Reaction::StartWriter(start)) => {
            client.writer = Some(writer::Writer::new(start.name));
            client.link = Some(start.messages);
        }
        Ok(_) => {}
        Err(e) => panic!("{:?}", e),
    }
}

/// The client's writer writes what is on its link.
fn flush(client: &mut Client) {
    if let (Some(writer), Some(link)) = (client.writer.as_mut(), client.link.as_mut()) {
        while let Ok(line) = link.try_recv() {
            if let writer::Step::Write(text) = writer.step(writer::Input::Line(line)) {
                client.socket.push_str(&text);
            }
        }
    }
}

/// The client's reader stops; its writer is cancelled and reports.
fn disconnect(broker: &mut Broker, client: Client) {
    let mut writer = client.writer.unwrap();
    assert_eq!(writer.step(writer::Input::Cancelled), writer::Step::Finish);
    let notice: DisconnectNotice = writer.into_notice(client.link.unwrap());
    assert_eq!(broker.reap(notice), Ok(()));
}

#[test]
fn alice_writes_to_bob() {
    let mut broker = Broker::new();
    let mut a = connect();
    let mut b = connect();
    let mut c = connect();
    send(&mut broker, &mut a, "alice");
    send(&mut broker, &mut b, "bob");
    send(&mut broker, &mut c, "dave");
    send(&mut broker, &mut a, "bob:hi");
    flush(&mut a);
    flush(&mut b);
    flush(&mut c);
    assert_eq!(b.socket, "from alice: hi\n");
    assert_eq!(a.socket, "");
    assert_eq!(c.socket, "");
}

#[test]
fn alice_writes_to_bob_and_to_carol_who_never_connected() {
    let mut broker = Broker::new();
    let mut a = connect();
    let mut b = connect();
    send(&mut broker, &mut a, "alice");
    send(&mut broker, &mut b, "bob");
    send(&mut broker, &mut a, "bob:hi");
    send(&mut broker, &mut a, "bob,carol:hi again");
    flush(&mut a);
    flush(&mut b);
    assert_eq!(b.socket, "from alice: hi\nfrom alice: hi again\n");
    assert_eq!(a.socket, "");
    assert!(!broker.is_registered(&"carol".to_string()));
}

#[test]
fn space_after_the_colon_belongs_to_the_text() {
    let mut broker = Broker::new();
    let mut a = connect();
    let mut b = connect();
    send(&mut broker, &mut a, "alice");
    send(&mut broker, &mut b, "bob");
    send(&mut broker, &mut a, "bob: hi");
    send(&mut broker, &mut a, "bob,carol: hi again");
    flush(&mut b);
    assert_eq!(b.socket, "from alice:  hi\nfrom alice:  hi again\n");
}

#[test]
fn second_client_of_a_name_gets_no_writer() {
    let mut broker = Broker::new();
    let mut first = connect();
    let mut second = connect();
    let mut bob = connect();
    send(&mut broker, &mut first, "alice");
    send(&mut broker, &mut second, "alice");
    send(&mut broker, &mut bob, "bob");
    assert!(second.writer.is_none());
    send(&mut broker, &mut bob, "alice:who is there");
    send(&mut broker, &mut second, "bob:the other alice");
    flush(&mut first);
    flush(&mut second);
    flush(&mut bob);
    assert_eq!(first.socket, "from bob: who is there\n");
    assert_eq!(second.socket, "");
    assert_eq!(bob.socket, "from alice: the other alice\n");
}

#[test]
fn client_that_left_gets_nothing_and_can_come_back() {
    let mut broker = Broker::new();
    let mut a = connect();
    let mut b = connect();
    send(&mut broker, &mut a, "alice");
    send(&mut broker, &mut b, "bob");
    disconnect(&mut broker, b);
    send(&mut broker, &mut a, "bob:are you there");
    let mut b = connect();
    send(&mut broker, &mut b, "bob");
    send(&mut broker, &mut a, "bob:welcome back");
    flush(&mut b);
    assert_eq!(b.socket, "from alice: welcome back\n");
    disconnect(&mut broker, b);
    disconnect(&mut broker, a);
    assert!(broker.is_idle());
}

#[test]
fn broker_that_shuts_down_waits_for_its_writers() {
    let mut broker = Broker::new();
    let mut a = connect();
    let mut b = connect();
    send(&mut broker, &mut a, "alice");
    send(&mut broker, &mut b, "bob");
    send(&mut broker, &mut a, "bob:good night");
    let mut draining = broker.shutdown();
    assert!(!draining.is_finished());
    flush(&mut b);
    assert_eq!(b.socket, "from alice: good night\n");
    for client in [a, b] {
        let mut link = client.link.unwrap();
        assert!(link.try_recv().unwrap_err().is_closed());
        let mut writer = client.writer.unwrap();
        assert_eq!(writer.step(writer::Input::LinkClosed), writer::Step::Finish);
        assert!(draining.reap(writer.into_notice(link)));
    }
    assert!(draining.is_finished());
}
