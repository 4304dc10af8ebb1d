use mycoreutils::commands::yes::Yes;
use mycoreutils::commands::Command;
use mycoreutils::commands::NoArgs;
use mycoreutils::memory::Sink;
use mycoreutils::memory::Streams;
use mycoreutils::protocol::Action;
use mycoreutils::protocol::Event;
use mycoreutils::protocol::Failure;

#[test]
fn yes_fills_a_bounded_sink_and_stops() {
    let mut streams = Streams::new(Vec::new());
    streams.set_stdout(Sink::with_capacity(7));
    let outcome = Yes::run(&mut streams, NoArgs);
    assert_eq!(outcome, Ok(1));
    assert_eq!(streams.output(), b"y\ny\ny\ny");
}

#[test]
fn yes_fills_an_even_sink_with_whole_lines() {
    let mut streams = Streams::new(b"not read".to_vec());
    streams.set_stdout(Sink::with_capacity(4096));
    assert_eq!(Yes::run(&mut streams, NoArgs), Ok(1));
    assert_eq!(streams.output(), b"y\n".repeat(2048));
}

#[test]
fn yes_stops_at_once_on_a_sink_without_room() {
    let mut streams = Streams::new(Vec::new());
    streams.set_stdout(Sink::with_capacity(0));
    assert_eq!(Yes::run(&mut streams, NoArgs::default()), Ok(1));
    assert_eq!(streams.output(), b"");
}

#[test]
fn yes_steps_until_a_write_fails() {
    let mut yes = Yes::new(NoArgs);
    assert_eq!(yes.step(Event::Start), Action::Write(b"y\n".to_vec()));
    for _ in 0..100 {
        assert_eq!(yes.step(Event::Written), Action::Write(b"y\n".to_vec()));
    }
    assert_eq!(yes.step(Event::Failed(Failure::Write)), Action::Exit(1));
}
