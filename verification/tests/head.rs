use mycoreutils::commands::head::Head;
use mycoreutils::commands::head::HeadArgs;
use mycoreutils::commands::Command;
use mycoreutils::memory::Sink;
use mycoreutils::memory::Source;
use mycoreutils::memory::Streams;
use mycoreutils::protocol::Action;
use mycoreutils::protocol::Event;
use mycoreutils::protocol::Failure;

fn head(input: &[u8], n: u64) -> (Result<u8, Failure>, Vec<u8>) {
    let mut streams = Streams::new(input.to_vec());
    let outcome = Head::run(&mut streams, HeadArgs { n });
    (outcome, streams.output().to_vec())
}

#[test]
fn head_writes_the_first_lines() {
    assert_eq!(head(b"a\nb\nc\nd\n", 2), (Ok(0), b"a\nb\n".to_vec()));
    assert_eq!(head(b"a\nb\nc\nd\n", 1), (Ok(0), b"a\n".to_vec()));
    assert_eq!(head(b"a\nb\nc\nd\n", 4), (Ok(0), b"a\nb\nc\nd\n".to_vec()));
}

#[test]
fn head_of_zero_lines_writes_nothing() {
    assert_eq!(head(b"a\nb\n", 0), (Ok(0), Vec::new()));
    assert_eq!(head(b"", 0), (Ok(0), Vec::new()));
}

#[test]
fn head_of_a_short_input_writes_all_of_it() {
    assert_eq!(head(b"a\nb\n", 10), (Ok(0), b"a\nb\n".to_vec()));
    assert_eq!(head(b"a\nb", 10), (Ok(0), b"a\nb".to_vec()));
    assert_eq!(head(b"a\nb", 2), (Ok(0), b"a\nb".to_vec()));
    assert_eq!(head(b"", 3), (Ok(0), Vec::new()));
    assert_eq!(head(b"no newline", u64::MAX), (Ok(0), b"no newline".to_vec()));
}

#[test]
fn head_counts_blank_lines_and_keeps_bytes_as_they_are() {
    assert_eq!(head(b"\n\n\nx\n", 2), (Ok(0), b"\n\n".to_vec()));
    assert_eq!(head(b"a\r\nb\0c\nrest\n", 2), (Ok(0), b"a\r\nb\0c\n".to_vec()));
}

#[test]
fn head_does_not_depend_on_the_block_size() {
    let data = b"one\ntwo two\n\nfour\nfive";
    for block in [0usize, 1, 2, 3, 4, 5, 100] {
        for (n, expected) in [
            (0u64, &b""[..]),
            (1, b"one\n"),
            (3, b"one\ntwo two\n\n"),
            (5, b"one\ntwo two\n\nfour\nfive"),
            (9, b"one\ntwo two\n\nfour\nfive"),
        ] {
            let mut streams = Streams::new(data.to_vec());
            streams.set_block(block);
            assert_eq!(Head::run(&mut streams, HeadArgs { n }), Ok(0));
            assert_eq!(streams.output(), expected, "block {} n {}", block, n);
        }
    }
}

#[test]
fn head_does_not_depend_on_how_reads_are_cut() {
    let data = b"one\ntwo two\n\nfour\nfive";
    for limits in [vec![], vec![1, 6], vec![4, 4, 1], vec![0, 3, 9]] {
        let mut streams = Streams::new(data.to_vec());
        streams.set_blocks(limits.clone());
        assert_eq!(Head::run(&mut streams, HeadArgs { n: 4 }), Ok(0));
        assert_eq!(streams.output(), b"one\ntwo two\n\nfour\n", "limits {:?}", limits);
    }
}

#[test]
fn head_stops_before_a_broken_input_breaks() {
    let mut streams = Streams::new(Vec::new());
    streams.set_stdin(Source::broken(b"a\nb\n".to_vec()));
    assert_eq!(Head::run(&mut streams, HeadArgs { n: 2 }), Ok(0));
    assert_eq!(streams.output(), b"a\nb\n");
}

#[test]
fn head_fails_where_it_has_to_read_past_the_break() {
    let mut streams = Streams::new(Vec::new());
    streams.set_stdin(Source::broken(b"a\nb\nhalf".to_vec()));
    assert_eq!(Head::run(&mut streams, HeadArgs { n: 3 }), Err(Failure::Read));
    assert_eq!(streams.output(), b"a\nb\n");
}

#[test]
fn head_full_output_fails_with_what_fitted() {
    let mut streams = Streams::new(b"abc\ndef\nghi\n".to_vec());
    streams.set_stdout(Sink::with_capacity(6));
    assert_eq!(Head::run(&mut streams, HeadArgs { n: 3 }), Err(Failure::Write));
    assert_eq!(streams.output(), b"abc\nde");
}

#[test]
fn head_steps() {
    let mut head = Head::new(HeadArgs { n: 2 });
    assert_eq!(head.step(Event::Start), Action::Read);
    assert_eq!(head.step(Event::Data(b"a\nb".to_vec())), Action::Write(b"a\n".to_vec()));
    assert_eq!(head.step(Event::Written), Action::Read);
    assert_eq!(head.step(Event::Data(b"c\nd\n".to_vec())), Action::Write(b"bc\n".to_vec()));
    // Two lines were written: no more reading.
    assert_eq!(head.step(Event::Written), Action::Exit(0));
}

#[test]
fn head_steps_to_the_end_of_the_input() {
    let mut head = Head::new(HeadArgs { n: 5 });
    assert_eq!(head.step(Event::Start), Action::Read);
    assert_eq!(head.step(Event::Data(b"tail".to_vec())), Action::Read);
    assert_eq!(head.step(Event::Data(Vec::new())), Action::Write(b"tail".to_vec()));
    assert_eq!(head.step(Event::Written), Action::Exit(0));
}

#[test]
fn head_of_zero_lines_never_reads() {
    let mut head = Head::new(HeadArgs { n: 0 });
    assert_eq!(head.step(Event::Start), Action::Exit(0));
}

#[test]
fn head_gives_up_on_a_failure() {
    let mut head = Head::new(HeadArgs { n: 1 });
    assert_eq!(head.step(Event::Start), Action::Read);
    assert_eq!(head.step(Event::Failed(Failure::Read)), Action::Abort(Failure::Read));
}
