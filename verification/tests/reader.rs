use chat_relay::reader::{Input, Reader, ReaderError, Step};

fn line(text: &str) -> Input {
    Input::Line(text.to_string())
}

#[test]
fn stream_that_ends_at_once_is_an_error() {
    let mut reader = Reader::new();
    assert_eq!(reader.step(Input::Closed), Step::Fail(ReaderError::PeerDisconnectedImmediately));
    assert_eq!(reader.step(line("alice")), Step::Idle);
    assert_eq!(reader.step(Input::Closed), Step::Idle);
}

#[test]
fn read_error_before_the_name_is_a_transport_error() {
    let mut reader = Reader::new();
    assert_eq!(reader.step(Input::Failed), Step::Fail(ReaderError::TransportReadError));
    assert_eq!(reader.step(line("alice")), Step::Idle);
}

#[test]
fn first_line_is_the_name() {
    let mut reader = Reader::new();
    assert_eq!(reader.step(line("alice")), Step::Announce { name: "alice".to_string() });
}

#[test]
fn name_is_taken_as_it_is() {
    let mut reader = Reader::new();
    assert_eq!(reader.step(line(" bob: the builder ")), Step::Announce {
        name: " bob: the builder ".to_string(),
    });
    assert_eq!(reader.step(line("x:y")), Step::Forward {
        from: " bob: the builder ".to_string(),
        to: vec!["x".to_string()],
        content: "y".to_string(),
    });
}

#[test]
fn later_lines_are_messages_from_the_name() {
    let mut reader = Reader::new();
    reader.step(line("alice"));
    assert_eq!(reader.step(line("bob, carol: hi again")), Step::Forward {
        from: "alice".to_string(),
        to: vec!["bob".to_string(), "carol".to_string()],
        content: " hi again".to_string(),
    });
    assert_eq!(reader.step(line("alice:to myself")), Step::Forward {
        from: "alice".to_string(),
        to: vec!["alice".to_string()],
        content: "to myself".to_string(),
    });
}

#[test]
fn line_without_colon_is_passed_over() {
    let mut reader = Reader::new();
    reader.step(line("alice"));
    assert_eq!(reader.step(line("hello everybody")), Step::Skip);
    assert_eq!(reader.step(line("")), Step::Skip);
    assert_eq!(reader.step(line("bob:still here")), Step::Forward {
        from: "alice".to_string(),
        to: vec!["bob".to_string()],
        content: "still here".to_string(),
    });
}

#[test]
fn end_of_stream_after_the_name_finishes() {
    let mut reader = Reader::new();
    reader.step(line("alice"));
    reader.step(line("bob:hi"));
    assert_eq!(reader.step(Input::Closed), Step::Finish);
    assert_eq!(reader.step(line("bob:late")), Step::Idle);
    assert_eq!(reader.step(Input::Failed), Step::Idle);
}

#[test]
fn read_error_after_the_name_is_a_transport_error() {
    let mut reader = Reader::new();
    reader.step(line("alice"));
    assert_eq!(reader.step(Input::Failed), Step::Fail(ReaderError::TransportReadError));
    assert_eq!(reader.step(Input::Closed), Step::Idle);
}

#[test]
fn one_connection_announces_once() {
    let mut reader = Reader::new();
    let inputs = vec![line("alice"), line("alice"), line("bob:x"), line("alice"), Input::Closed];
    let mut announced = 0;
    let mut forwarded = 0;
    for input in inputs {
        match reader.step(input) {
            Step::Announce { .. } => announced += 1,
            Step::Forward { .. } => forwarded += 1,
            _ => {}
        }
    }
    assert_eq!(announced, 1);
    assert_eq!(forwarded, 1);
}
