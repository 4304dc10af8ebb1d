use mycoreutils::commands::cat::Cat;
use mycoreutils::commands::cat::CatArgs;
use mycoreutils::commands::Command;
use mycoreutils::memory::NamedFile;
use mycoreutils::memory::Sink;
use mycoreutils::memory::Source;
use mycoreutils::memory::Streams;
use mycoreutils::protocol::Action;
use mycoreutils::protocol::Event;
use mycoreutils::protocol::Failure;

fn file(name: &[u8], data: &[u8]) -> NamedFile {
    NamedFile { name: name.to_vec(), data: data.to_vec(), broken: false }
}

fn run_with_args(args: CatArgs, files: Vec<NamedFile>, stdin: &Option<Vec<u8>>) -> (Result<u8, Failure>, Vec<u8>) {
    let mut streams = match stdin {
        Some(bytes) => Streams::new(bytes.clone()),
        None => Streams::new(Vec::new()),
    };
    for f in files {
        streams.add_file(f);
    }
    let outcome = Cat::run(&mut streams, args);
    (outcome, streams.output().to_vec())
}

#[test]
fn cat_normal() {
    let data = b"hello\0world\nnext line\n";
    let path = b"temp file".to_vec();
    let args = CatArgs { files: vec![path.clone()], number_nonblank: false };
    let (code, out) = run_with_args(args, vec![file(&path, data)], &None);
    assert_eq!(code, Ok(0));
    assert_eq!(out, data);
}

#[test]
fn number_nonblank_mixes_blank_and_nonblank() {
    let data = b"a\n\nb\n\n\nc\n";
    let path = b"temp file".to_vec();
    let args = CatArgs { files: vec![path.clone()], number_nonblank: true };
    let (code, out) = run_with_args(args, vec![file(&path, data)], &None);
    assert_eq!(code, Ok(0));

    let expected = b"     1\ta\n\n     2\tb\n\n\n     3\tc\n";
    assert_eq!(out, expected);
}

#[test]
fn number_nonblank_no_trailing_newline() {
    // a, blank, b (no trailing newline)
    let data = b"a\n\nb";
    let path = b"temp file".to_vec();
    let args = CatArgs { files: vec![path.clone()], number_nonblank: true };
    let (code, out) = run_with_args(args, vec![file(&path, data)], &None);
    assert_eq!(code, Ok(0));

    let expected = b"     1\ta\n\n     2\tb";
    assert_eq!(out, expected);
}

#[test]
fn number_nonblank_crlf_blank_detection() {
    // blank CRLF, blank CRLF, x CRLF
    let data = b"\r\n\r\nx\r\n";
    let path = b"temp file".to_vec();
    let args = CatArgs { files: vec![path.clone()], number_nonblank: true };
    let (code, out) = run_with_args(args, vec![file(&path, data)], &None);
    assert_eq!(code, Ok(0));

    let expected = b"\r\n\r\n     1\tx\r\n";
    assert_eq!(out, expected);
}

#[test]
fn cat_copies_every_byte_value() {
    let data: Vec<u8> = (0..=255u8).chain([0, 0, 10, 13, 255]).collect();
    let args = CatArgs { files: vec![b"-".to_vec()], number_nonblank: false };
    let (code, out) = run_with_args(args, Vec::new(), &Some(data.clone()));
    assert_eq!(code, Ok(0));
    assert_eq!(out, data);
}

#[test]
fn cat_copies_more_than_one_block() {
    let data: Vec<u8> = (0..20_000u32).map(|i| (i % 251) as u8).collect();
    let args = CatArgs { files: vec![b"big".to_vec()], number_nonblank: false };
    let (code, out) = run_with_args(args, vec![file(b"big", &data)], &None);
    assert_eq!(code, Ok(0));
    assert_eq!(out, data);
}

#[test]
fn cat_counter_goes_on_across_files() {
    let args = CatArgs { files: vec![b"one".to_vec(), b"two".to_vec()], number_nonblank: true };
    let files = vec![file(b"one", b"a\n\nb\n"), file(b"two", b"c\n\nd\n")];
    let (code, out) = run_with_args(args, files, &None);
    assert_eq!(code, Ok(0));
    assert_eq!(out, b"     1\ta\n\n     2\tb\n     3\tc\n\n     4\td\n");
}

#[test]
fn cat_numbers_each_input_by_its_own_lines() {
    // The first input ends without a newline: its last chunk is a line of
    // its own, and the next input starts a new one.
    let args = CatArgs { files: vec![b"one".to_vec(), b"two".to_vec()], number_nonblank: true };
    let files = vec![file(b"one", b"a"), file(b"two", b"b\n")];
    let (code, out) = run_with_args(args, files, &None);
    assert_eq!(code, Ok(0));
    assert_eq!(out, b"     1\ta     2\tb\n");
}

#[test]
fn cat_dash_is_the_standard_input() {
    let args = CatArgs {
        files: vec![b"one".to_vec(), b"-".to_vec(), b"one".to_vec()],
        number_nonblank: false,
    };
    let (code, out) = run_with_args(args, vec![file(b"one", b"[file]")], &Some(b"[stdin]".to_vec()));
    assert_eq!(code, Ok(0));
    assert_eq!(out, b"[file][stdin][file]");
}

#[test]
fn cat_reads_the_standard_input_once() {
    let args = CatArgs { files: vec![b"-".to_vec(), b"-".to_vec()], number_nonblank: true };
    let (code, out) = run_with_args(args, Vec::new(), &Some(b"x\ny\n".to_vec()));
    assert_eq!(code, Ok(0));
    assert_eq!(out, b"     1\tx\n     2\ty\n");
}

#[test]
fn cat_without_names_writes_nothing() {
    let args = CatArgs { files: Vec::new(), number_nonblank: true };
    let (code, out) = run_with_args(args, Vec::new(), &Some(b"ignored\n".to_vec()));
    assert_eq!(code, Ok(0));
    assert_eq!(out, b"");
}

#[test]
fn cat_missing_file_fails_after_what_came_before() {
    let args = CatArgs {
        files: vec![b"one".to_vec(), b"nowhere".to_vec(), b"one".to_vec()],
        number_nonblank: false,
    };
    let (code, out) = run_with_args(args, vec![file(b"one", b"first\n")], &None);
    assert_eq!(code, Err(Failure::Open));
    assert_eq!(out, b"first\n");
}

#[test]
fn cat_broken_input_fails_after_its_bytes() {
    let broken = NamedFile { name: b"bad".to_vec(), data: b"a\nb".to_vec(), broken: true };
    let args = CatArgs { files: vec![b"bad".to_vec(), b"bad".to_vec()], number_nonblank: false };
    let (code, out) = run_with_args(args, vec![broken], &None);
    assert_eq!(code, Err(Failure::Read));
    assert_eq!(out, b"a\nb");
}

#[test]
fn cat_numbering_drops_the_unfinished_line_of_a_broken_input() {
    let mut streams = Streams::new(Vec::new());
    streams.set_stdin(Source::broken(b"a\n\nb".to_vec()));
    let args = CatArgs { files: vec![b"-".to_vec()], number_nonblank: true };
    let code = Cat::run(&mut streams, args);
    assert_eq!(code, Err(Failure::Read));
    assert_eq!(streams.output(), b"     1\ta\n\n");
}

#[test]
fn cat_full_output_fails_with_what_fitted() {
    let mut streams = Streams::new(b"a\nb\nc\n".to_vec());
    streams.set_stdout(Sink::with_capacity(12));
    let args = CatArgs { files: vec![b"-".to_vec()], number_nonblank: true };
    let code = Cat::run(&mut streams, args);
    assert_eq!(code, Err(Failure::Write));
    assert_eq!(streams.output(), b"     1\ta\n   ");
}

#[test]
fn cat_exact_fit_succeeds() {
    let mut streams = Streams::new(b"a\nb\n".to_vec());
    streams.set_stdout(Sink::with_capacity(4));
    let args = CatArgs { files: vec![b"-".to_vec()], number_nonblank: false };
    assert_eq!(Cat::run(&mut streams, args), Ok(0));
    assert_eq!(streams.output(), b"a\nb\n");
}

#[test]
fn cat_numbering_does_not_depend_on_the_block_size() {
    let data = b"first line\n\r\n\nsecond\r\n  \nlast without newline";
    let expected: &[u8] =
        b"     1\tfirst line\n\r\n\n     2\tsecond\r\n     3\t  \n     4\tlast without newline";
    for block in [0usize, 1, 2, 3, 5, 7, 64, 8192] {
        let mut streams = Streams::new(data.to_vec());
        streams.set_block(block);
        let args = CatArgs { files: vec![b"-".to_vec()], number_nonblank: true };
        assert_eq!(Cat::run(&mut streams, args), Ok(0));
        assert_eq!(streams.output(), expected, "block size {}", block);
    }
}

#[test]
fn cat_numbering_does_not_depend_on_how_reads_are_cut() {
    let data = b"first line\n\r\n\nsecond\r\n  \nlast without newline";
    let expected: &[u8] =
        b"     1\tfirst line\n\r\n\n     2\tsecond\r\n     3\t  \n     4\tlast without newline";
    for limits in [vec![], vec![1, 9], vec![11, 1, 1, 1], vec![3, 0, 5, 2, 40], vec![2, 2, 7]] {
        for numbered in [true, false] {
            let mut streams = Streams::new(data.to_vec());
            streams.set_blocks(limits.clone());
            let args = CatArgs { files: vec![b"-".to_vec()], number_nonblank: numbered };
            assert_eq!(Cat::run(&mut streams, args), Ok(0));
            if numbered {
                assert_eq!(streams.output(), expected, "limits {:?}", limits);
            } else {
                assert_eq!(streams.output(), data, "limits {:?}", limits);
            }
        }
    }
}

#[test]
fn cat_numbers_wider_than_the_field() {
    let lines = 1_000_001usize;
    let mut data = Vec::with_capacity(2 * lines);
    for _ in 0..lines {
        data.extend_from_slice(b"x\n");
    }
    let args = CatArgs { files: vec![b"-".to_vec()], number_nonblank: true };
    let (code, out) = run_with_args(args, Vec::new(), &Some(data));
    assert_eq!(code, Ok(0));
    assert!(out.starts_with(b"     1\tx\n     2\tx\n"));
    assert!(out.ends_with(b"999999\tx\n1000000\tx\n1000001\tx\n"));
}

#[test]
fn cat_steps_through_one_input() {
    let mut cat = Cat::new(CatArgs { files: vec![b"f".to_vec()], number_nonblank: true });
    assert_eq!(cat.step(Event::Start), Action::OpenFile(b"f".to_vec()));
    assert_eq!(cat.step(Event::Opened), Action::Read);
    // Half a line: nothing can be written yet.
    assert_eq!(cat.step(Event::Data(b"ab".to_vec())), Action::Read);
    assert_eq!(cat.step(Event::Data(b"c\n\nd".to_vec())), Action::Write(b"     1\tabc\n".to_vec()));
    assert_eq!(cat.step(Event::Written), Action::Write(b"\n".to_vec()));
    assert_eq!(cat.step(Event::Written), Action::Read);
    // The end of the input: the unfinished line is the last chunk.
    assert_eq!(cat.step(Event::Data(Vec::new())), Action::Write(b"     2\td".to_vec()));
    assert_eq!(cat.step(Event::Written), Action::Flush);
    assert_eq!(cat.step(Event::Flushed), Action::Exit(0));
}

#[test]
fn cat_steps_copy_blocks_as_they_come() {
    let mut cat = Cat::new(CatArgs { files: vec![b"-".to_vec()], number_nonblank: false });
    assert_eq!(cat.step(Event::Start), Action::OpenStdin);
    assert_eq!(cat.step(Event::Opened), Action::Read);
    assert_eq!(cat.step(Event::Data(b"no newline".to_vec())), Action::Write(b"no newline".to_vec()));
    assert_eq!(cat.step(Event::Written), Action::Read);
    assert_eq!(cat.step(Event::Data(Vec::new())), Action::Flush);
    assert_eq!(cat.step(Event::Flushed), Action::Exit(0));
}

#[test]
fn cat_gives_up_on_any_failure() {
    for failure in [Failure::Open, Failure::Read, Failure::Write] {
        let mut cat = Cat::new(CatArgs { files: vec![b"f".to_vec()], number_nonblank: true });
        assert_eq!(cat.step(Event::Start), Action::OpenFile(b"f".to_vec()));
        assert_eq!(cat.step(Event::Failed(failure)), Action::Abort(failure));
    }
}

#[test]
fn cat_args_clone_keeps_everything() {
    let args = CatArgs { files: vec![b"one".to_vec(), b"-".to_vec(), Vec::new()], number_nonblank: true };
    let copy = args.clone();
    assert_eq!(copy.files, args.files);
    assert_eq!(copy.number_nonblank, args.number_nonblank);
}
