use mycoreutils::commands::echo::echo_bytes;
use mycoreutils::commands::echo::Echo;
use mycoreutils::commands::echo::EchoArgs;
use mycoreutils::commands::Command;
use mycoreutils::memory::Sink;
use mycoreutils::memory::Streams;
use mycoreutils::protocol::Action;
use mycoreutils::protocol::Event;
use mycoreutils::protocol::Failure;
use rand::Rng;

fn random_echo_args(count: usize, max_len: usize) -> Vec<Vec<u8>> {
    let mut rng = rand::rng();

    (0..count)
        .map(|_| {
            // Generate random bytes excluding '\0'
            let len = rng.random_range(1..max_len);
            let bytes: Vec<u8> = (0..len)
                .map(|_| {
                    rng.random_range(1u8..=0x7F) // avoid 0x00
                })
                .collect();
            bytes
        })
        .collect()
}

fn chain_args(strings: Vec<Vec<u8>>) -> Vec<u8> {
    let mut joined = strings.join(&b" "[..]);
    joined.extend_from_slice(b"\n");
    joined
}

fn run_with_args(args: EchoArgs) -> Result<(u8, Vec<u8>), Failure> {
    let mut streams = Streams::new(Vec::new()); // Not reading from stdin
    let res = Echo::run(&mut streams, args)?;
    Ok((res, streams.output().to_vec()))
}

fn words(words: &[&[u8]]) -> Vec<Vec<u8>> {
    words.iter().map(|word| word.to_vec()).collect()
}

#[test]
fn echo_normal() {
    let strings = random_echo_args(10, 10);
    let args = EchoArgs { strings: strings.clone(), new_line: false };
    let result = run_with_args(args);
    assert!(result.is_ok());

    if let Ok((code, printout)) = result {
        assert_eq!(code, 0);
        assert_eq!(printout, chain_args(strings))
    }
}

#[test]
fn with_n_flag() {
    let strings = random_echo_args(10, 10);
    let args = EchoArgs { strings: strings.clone(), new_line: true };
    let result = run_with_args(args);
    assert!(result.is_ok());

    if let Ok((code, printout)) = result {
        let chained = chain_args(strings);
        assert_eq!(code, 0);
        assert_eq!(printout, chained[..chained.len() - 1]);
    }
}

#[test]
fn echo_three_words() {
    let args = EchoArgs { strings: words(&[b"a", b"b", b"c"]), new_line: false };
    assert_eq!(run_with_args(args), Ok((0, b"a b c\n".to_vec())));
}

#[test]
fn echo_three_words_without_newline() {
    let args = EchoArgs { strings: words(&[b"a", b"b", b"c"]), new_line: true };
    assert_eq!(run_with_args(args), Ok((0, b"a b c".to_vec())));
}

#[test]
fn echo_without_arguments() {
    let args = EchoArgs { strings: Vec::new(), new_line: false };
    assert_eq!(run_with_args(args), Ok((0, b"\n".to_vec())));
}

#[test]
fn echo_without_arguments_or_newline() {
    let args = EchoArgs { strings: Vec::new(), new_line: true };
    assert_eq!(run_with_args(args), Ok((0, Vec::new())));
}

#[test]
fn echo_keeps_empty_and_odd_strings() {
    let args = EchoArgs { strings: words(&[b"", b"\xff\x00", b"", b" x "]), new_line: false };
    assert_eq!(echo_bytes(&args), b" \xff\x00   x \n");
}

#[test]
fn echo_full_output_fails_with_what_fitted() {
    let mut streams = Streams::new(Vec::new());
    streams.set_stdout(Sink::with_capacity(3));
    let args = EchoArgs { strings: words(&[b"hello", b"world"]), new_line: false };
    assert_eq!(Echo::run(&mut streams, args), Err(Failure::Write));
    assert_eq!(streams.output(), b"hel");
}

#[test]
fn echo_steps() {
    let mut echo = Echo::new(EchoArgs { strings: words(&[b"hi", b"there"]), new_line: false });
    assert_eq!(echo.step(Event::Start), Action::Write(b"hi there\n".to_vec()));
    assert_eq!(echo.step(Event::Written), Action::Exit(0));

    let mut echo = Echo::new(EchoArgs { strings: words(&[b"hi"]), new_line: false });
    assert_eq!(echo.step(Event::Start), Action::Write(b"hi\n".to_vec()));
    assert_eq!(echo.step(Event::Failed(Failure::Write)), Action::Abort(Failure::Write));
}
