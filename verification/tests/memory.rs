use mycoreutils::memory::copy;
use mycoreutils::memory::same_bytes;
use mycoreutils::memory::NamedFile;
use mycoreutils::memory::Sink;
use mycoreutils::memory::Source;
use mycoreutils::memory::Streams;
use mycoreutils::protocol::Action;
use mycoreutils::protocol::Event;
use mycoreutils::protocol::Failure;

#[test]
fn sink_takes_what_fits() {
    let mut sink = Sink::with_capacity(5);
    assert_eq!(sink.write_all(b"abc"), Ok(()));
    assert_eq!(sink.bytes(), b"abc");
    assert_eq!(sink.write_all(b""), Ok(()));
    assert_eq!(sink.write_all(b"defg"), Err(Failure::Write));
    assert_eq!(sink.bytes(), b"abcde");
    assert_eq!(sink.write_all(b"h"), Err(Failure::Write));
    assert_eq!(sink.write_all(b""), Ok(()));
    assert_eq!(sink.bytes(), b"abcde");
}

#[test]
fn sink_without_limit_takes_everything() {
    let mut sink = Sink::new();
    for _ in 0..1000 {
        assert_eq!(sink.write_all(b"0123456789"), Ok(()));
    }
    assert_eq!(sink.bytes().len(), 10_000);
}

#[test]
fn source_gives_its_bytes_in_blocks() {
    let mut source = Source::new(b"abcdefg".to_vec());
    assert_eq!(source.read(3), Ok(b"abc".to_vec()));
    assert_eq!(source.read(0), Ok(Vec::new()));
    assert_eq!(source.read(3), Ok(b"def".to_vec()));
    assert_eq!(source.read(3), Ok(b"g".to_vec()));
    assert_eq!(source.read(3), Ok(Vec::new()));
    assert_eq!(source.read(3), Ok(Vec::new()));
}

#[test]
fn broken_source_fails_after_its_bytes() {
    let mut source = Source::broken(b"ab".to_vec());
    assert_eq!(source.read(8), Ok(b"ab".to_vec()));
    assert_eq!(source.read(8), Err(Failure::Read));
    assert_eq!(source.read(8), Err(Failure::Read));
}

#[test]
fn same_bytes_compares_contents() {
    assert!(same_bytes(b"", b""));
    assert!(same_bytes(b"abc", b"abc"));
    assert!(!same_bytes(b"abc", b"abd"));
    assert!(!same_bytes(b"abc", b"ab"));
    assert!(!same_bytes(b"", b"\0"));
}

#[test]
fn streams_perform_each_action() {
    let mut streams = Streams::new(b"stdin".to_vec());
    streams.set_block(4);
    streams.add_file(NamedFile { name: b"f".to_vec(), data: b"first".to_vec(), broken: false });
    streams.add_file(NamedFile { name: b"f".to_vec(), data: b"second".to_vec(), broken: false });
    streams.add_file(NamedFile { name: b"bad".to_vec(), data: Vec::new(), broken: true });

    // Before anything is opened, the standard input is read.
    assert_eq!(streams.perform(&Action::Read), Ok(Event::Data(b"stdi".to_vec())));
    assert_eq!(streams.perform(&Action::OpenFile(b"f".to_vec())), Ok(Event::Opened));
    assert_eq!(streams.perform(&Action::Read), Ok(Event::Data(b"firs".to_vec())));
    assert_eq!(streams.perform(&Action::Read), Ok(Event::Data(b"t".to_vec())));
    assert_eq!(streams.perform(&Action::Read), Ok(Event::Data(Vec::new())));
    // A file that is opened again starts again.
    assert_eq!(streams.perform(&Action::OpenFile(b"f".to_vec())), Ok(Event::Opened));
    assert_eq!(streams.perform(&Action::Read), Ok(Event::Data(b"firs".to_vec())));
    assert_eq!(
        streams.perform(&Action::OpenFile(b"none".to_vec())),
        Ok(Event::Failed(Failure::Open))
    );
    // A failed open leaves the open file selected.
    assert_eq!(streams.perform(&Action::Read), Ok(Event::Data(b"t".to_vec())));
    assert_eq!(streams.perform(&Action::OpenFile(b"bad".to_vec())), Ok(Event::Opened));
    assert_eq!(streams.perform(&Action::Read), Ok(Event::Failed(Failure::Read)));
    // The standard input goes on where it was.
    assert_eq!(streams.perform(&Action::OpenStdin), Ok(Event::Opened));
    assert_eq!(streams.perform(&Action::Read), Ok(Event::Data(b"n".to_vec())));

    assert_eq!(streams.perform(&Action::Write(b"out".to_vec())), Ok(Event::Written));
    assert_eq!(streams.perform(&Action::Flush), Ok(Event::Flushed));
    assert_eq!(streams.perform(&Action::Exit(3)), Err(Ok(3)));
    assert_eq!(streams.perform(&Action::Abort(Failure::Read)), Err(Err(Failure::Read)));
    assert_eq!(streams.output(), b"out");

    streams.set_stdout(Sink::with_capacity(2));
    assert_eq!(
        streams.perform(&Action::Write(b"out".to_vec())),
        Ok(Event::Failed(Failure::Write))
    );
    assert_eq!(streams.output(), b"ou");
}

#[test]
fn streams_take_the_read_limits_in_turn() {
    let mut streams = Streams::new(b"abcdefghijklmnop".to_vec());
    streams.set_blocks(vec![1, 0, 3]);
    assert_eq!(streams.perform(&Action::Read), Ok(Event::Data(b"a".to_vec())));
    assert_eq!(streams.perform(&Action::Read), Ok(Event::Data(b"b".to_vec())));
    assert_eq!(streams.perform(&Action::Read), Ok(Event::Data(b"cde".to_vec())));
    assert_eq!(streams.perform(&Action::Read), Ok(Event::Data(b"f".to_vec())));
    streams.set_block(4);
    assert_eq!(streams.perform(&Action::Read), Ok(Event::Data(b"ghij".to_vec())));
    assert_eq!(streams.perform(&Action::Read), Ok(Event::Data(b"klmn".to_vec())));
    streams.set_blocks(Vec::new());
    assert_eq!(streams.perform(&Action::Read), Ok(Event::Data(b"op".to_vec())));
    assert_eq!(streams.perform(&Action::Read), Ok(Event::Data(Vec::new())));
}

#[test]
fn copy_is_byte_for_byte() {
    let data: Vec<u8> = (0..=255u8).chain([0, 0, 255, 10, 13, 0]).collect();
    for block in [0usize, 1, 2, 7, 64, 262, 8192] {
        let mut source = Source::new(data.clone());
        let mut sink = Sink::new();
        assert_eq!(copy(&mut source, &mut sink, block), Ok(data.len() as u64));
        assert_eq!(sink.bytes(), data);
        assert_eq!(source.remaining(), 0);
    }
}

#[test]
fn copy_of_nothing_writes_nothing() {
    let mut source = Source::new(Vec::new());
    let mut sink = Sink::with_capacity(0);
    assert_eq!(copy(&mut source, &mut sink, 16), Ok(0));
    assert_eq!(sink.bytes(), b"");
}

#[test]
fn copy_goes_on_behind_what_the_sink_holds() {
    let mut source = Source::new(b"tail".to_vec());
    let mut sink = Sink::with_capacity(9);
    assert_eq!(sink.write_all(b"head "), Ok(()));
    assert_eq!(copy(&mut source, &mut sink, 3), Ok(4));
    assert_eq!(sink.bytes(), b"head tail");
}

#[test]
fn copy_fails_on_a_full_sink_with_what_fitted() {
    let mut source = Source::new(b"abcdefgh".to_vec());
    let mut sink = Sink::with_capacity(5);
    assert_eq!(copy(&mut source, &mut sink, 3), Err(Failure::Write));
    assert_eq!(sink.bytes(), b"abcde");
}

#[test]
fn copy_fails_on_a_broken_source_after_its_bytes() {
    let mut source = Source::broken(b"abc".to_vec());
    let mut sink = Sink::new();
    assert_eq!(copy(&mut source, &mut sink, 2), Err(Failure::Read));
    assert_eq!(sink.bytes(), b"abc");
}

#[test]
fn source_counts_what_is_left() {
    let mut source = Source::new(b"abcde".to_vec());
    assert_eq!(source.remaining(), 5);
    assert_eq!(source.read(2), Ok(b"ab".to_vec()));
    assert_eq!(source.remaining(), 3);
}
