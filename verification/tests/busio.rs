use bytes::{Bytes, BytesMut};
use cbus_gateway::busio::{
    drop_long_line, emit_lines, read_lines, read_more, split_line, Framer, ReadError, CHUNK_LEN,
    LINE_LEN,
};
use nom::character::streaming::{line_ending, not_line_ending};
use nom::sequence::pair;
use nom::IResult;

fn lines_of(reads: &[&[u8]]) -> (Vec<Vec<u8>>, Result<(), ReadError>) {
    let reads: Vec<Vec<u8>> = reads.iter().map(|r| r.to_vec()).collect();
    let mut out: Vec<Bytes> = Vec::new();
    let end = read_lines(&reads, &mut out);
    (out.iter().map(|l| l.to_vec()).collect(), end)
}

fn one_by_one(stream: &[u8]) -> Vec<Vec<u8>> {
    let mut framer = Framer::new();
    let mut out = Vec::new();
    for b in stream {
        for line in framer.feed(&[*b]).unwrap() {
            out.push(line.to_vec());
        }
        assert!(framer.buffered_len() <= LINE_LEN + 1);
    }
    out
}

fn at_once(stream: &[u8]) -> Vec<Vec<u8>> {
    let mut framer = Framer::new();
    framer.feed(stream).unwrap().iter().map(|l| l.to_vec()).collect()
}

#[test]
fn example() {
    let (lines, end) = lines_of(&[b"hello\nworld\nover", b""]);
    assert_eq!(lines, vec![b"hello".to_vec(), b"world".to_vec()]);
    assert_eq!(end, Err(ReadError::UnexpectedEof));
}

#[test]
fn limits() {
    assert_eq!(LINE_LEN, 1024);
    assert_eq!(CHUNK_LEN, 4096);
}

#[test]
fn split_line_at_a_line_feed() {
    let mut buf = BytesMut::from(&b"hello\nworld"[..]);
    assert_eq!(split_line(&mut buf), Some(Bytes::from_static(b"hello")));
    assert_eq!(&buf[..], b"world");
    assert_eq!(split_line(&mut buf), None);
    assert_eq!(&buf[..], b"world");
}

#[test]
fn split_line_at_carriage_return_and_line_feed() {
    let mut buf = BytesMut::from(&b"hello\r\nworld\r\n"[..]);
    assert_eq!(split_line(&mut buf), Some(Bytes::from_static(b"hello")));
    assert_eq!(&buf[..], b"world\r\n");
    assert_eq!(split_line(&mut buf), Some(Bytes::from_static(b"world")));
    assert_eq!(&buf[..], b"");
    assert_eq!(split_line(&mut buf), None);
}

#[test]
fn split_line_at_a_lone_carriage_return() {
    let mut buf = BytesMut::from(&b"hello\rworld\r\r\n"[..]);
    assert_eq!(split_line(&mut buf), Some(Bytes::from_static(b"hello")));
    assert_eq!(&buf[..], b"world\r\r\n");
    assert_eq!(split_line(&mut buf), Some(Bytes::from_static(b"world")));
    assert_eq!(&buf[..], b"\r\n");
    assert_eq!(split_line(&mut buf), Some(Bytes::new()));
    assert_eq!(&buf[..], b"");
}

#[test]
fn split_line_waits_at_a_carriage_return_that_ends_the_buffer() {
    let mut buf = BytesMut::from(&b"hello\r"[..]);
    assert_eq!(split_line(&mut buf), None);
    assert_eq!(&buf[..], b"hello\r");
    buf.extend_from_slice(b"\n");
    assert_eq!(split_line(&mut buf), Some(Bytes::from_static(b"hello")));
    assert_eq!(&buf[..], b"");
}

#[test]
fn split_line_gives_empty_lines() {
    let mut buf = BytesMut::from(&b"\n\nx"[..]);
    assert_eq!(split_line(&mut buf), Some(Bytes::new()));
    assert_eq!(split_line(&mut buf), Some(Bytes::new()));
    assert_eq!(split_line(&mut buf), None);
    assert_eq!(&buf[..], b"x");
}

#[test]
fn split_line_on_an_empty_buffer() {
    let mut buf = BytesMut::new();
    assert_eq!(split_line(&mut buf), None);
    assert!(buf.is_empty());
}

fn nom_split(buf: &[u8]) -> Option<(Vec<u8>, Vec<u8>)> {
    let parsed: IResult<&[u8], (&[u8], &[u8])> = pair(not_line_ending, line_ending)(buf);
    match parsed {
        Ok((rest, (line, _))) => Some((line.to_vec(), rest.to_vec())),
        Err(_) => None,
    }
}

#[test]
fn split_line_agrees_with_nom_where_no_carriage_return_stands_alone() {
    let streams: [&[u8]; 9] = [
        b"",
        b"\n",
        b"\r\n",
        b"abc",
        b"abc\r",
        b"abc\n",
        b"abc\r\ndef",
        b"abc\ndef\r\n",
        b"\n\r\n\nabc",
    ];
    for stream in streams {
        let mut buf = BytesMut::from(stream);
        let ours = split_line(&mut buf).map(|line| (line.to_vec(), buf.to_vec()));
        assert_eq!(ours, nom_split(stream));
    }
}

#[test]
fn emit_lines_keeps_the_unfinished_line() {
    let mut buf = BytesMut::from(&b"a\r\nbb\nccc\rdddd"[..]);
    let mut out = vec![Bytes::from_static(b"before")];
    emit_lines(&mut buf, &mut out);
    let want: Vec<&[u8]> = vec![b"before", b"a", b"bb", b"ccc"];
    assert_eq!(out, want);
    assert_eq!(&buf[..], b"dddd");
}

#[test]
fn emit_lines_leaves_out_long_lines() {
    let mut stream = vec![b'x'; LINE_LEN + 1];
    stream.extend_from_slice(b"\n");
    stream.extend_from_slice(&vec![b'y'; LINE_LEN]);
    stream.extend_from_slice(b"\nz\n");
    let mut buf = BytesMut::from(&stream[..]);
    let mut out = Vec::new();
    emit_lines(&mut buf, &mut out);
    assert_eq!(out, vec![vec![b'y'; LINE_LEN], b"z".to_vec()]);
    assert!(buf.is_empty());
}

#[test]
fn read_more_appends_what_was_read() {
    let mut buf = BytesMut::from(&b"ab"[..]);
    assert_eq!(read_more(&mut buf, b"cd"), Ok(()));
    assert_eq!(&buf[..], b"abcd");
}

#[test]
fn read_more_ends_on_an_empty_read() {
    let mut buf = BytesMut::from(&b"ab"[..]);
    assert_eq!(read_more(&mut buf, b""), Err(ReadError::UnexpectedEof));
    assert_eq!(&buf[..], b"ab");
}

#[test]
fn drop_long_line_until_the_line_ends() {
    let mut buf = BytesMut::new();
    assert!(!drop_long_line(&mut buf, b"still the long line"));
    assert!(buf.is_empty());
    assert!(!drop_long_line(&mut buf, b"and more of it\r"));
    assert_eq!(&buf[..], b"\r");
    assert!(drop_long_line(&mut buf, b"\nnext\nline"));
    assert_eq!(&buf[..], b"next\nline");
}

#[test]
fn drop_long_line_ends_at_a_lone_carriage_return() {
    let mut buf = BytesMut::new();
    assert!(!drop_long_line(&mut buf, b"tail\r"));
    assert_eq!(&buf[..], b"\r");
    assert!(drop_long_line(&mut buf, b"next"));
    assert_eq!(&buf[..], b"next");
}

#[test]
fn framer_starts_empty() {
    let framer = Framer::new();
    assert_eq!(framer.buffered_len(), 0);
    assert!(!framer.is_dropping());
}

#[test]
fn framer_ends_on_an_empty_read() {
    let mut framer = Framer::new();
    assert_eq!(framer.feed(b"abc"), Ok(vec![]));
    assert_eq!(framer.feed(b""), Err(ReadError::UnexpectedEof));
    assert_eq!(framer.buffered_len(), 3);
    assert_eq!(framer.feed(b"\n"), Ok(vec![Bytes::from_static(b"abc")]));
}

#[test]
fn framer_puts_a_line_together_from_single_bytes() {
    let stream = b"05003800790400\r\n86081500F74038B0003E\r\n";
    let want = vec![b"05003800790400".to_vec(), b"86081500F74038B0003E".to_vec()];
    assert_eq!(at_once(stream), want);
    assert_eq!(one_by_one(stream), want);
}

#[test]
fn framer_gives_the_same_lines_however_the_stream_is_cut() {
    let mut stream = Vec::new();
    stream.extend_from_slice(b"one\ntwo\r\nthree\rfour\n\n\r\r\n");
    stream.extend_from_slice(&vec![b'x'; LINE_LEN]);
    stream.extend_from_slice(b"\r\n");
    stream.extend_from_slice(&vec![b'y'; LINE_LEN + 1]);
    stream.extend_from_slice(b"\rfive\r");
    stream.extend_from_slice(&vec![b'z'; 3 * LINE_LEN]);
    stream.extend_from_slice(b"\r\nsix\nunfinished");
    let whole = at_once(&stream);
    assert_eq!(whole.len(), 10);
    assert_eq!(whole[7], vec![b'x'; LINE_LEN]);
    assert_eq!(whole[8], b"five");
    assert_eq!(whole[9], b"six");
    assert_eq!(one_by_one(&stream), whole);
    for size in [2usize, 3, 7, 64, 1023, 1024, 1025, 1026, 4096, 5000] {
        let mut framer = Framer::new();
        let mut out = Vec::new();
        for piece in stream.chunks(size) {
            for line in framer.feed(piece).unwrap() {
                out.push(line.to_vec());
            }
            assert!(framer.buffered_len() <= LINE_LEN + 1);
        }
        assert_eq!(out, whole, "in pieces of {}", size);
    }
}

#[test]
fn framer_never_gives_a_line_longer_than_the_limit() {
    let mut stream = Vec::new();
    for len in [0, 1, LINE_LEN - 1, LINE_LEN, LINE_LEN + 1, LINE_LEN + 2, 2 * LINE_LEN, 9000] {
        stream.extend_from_slice(&vec![b'a'; len]);
        stream.extend_from_slice(b"\n");
    }
    for lines in [at_once(&stream), one_by_one(&stream)] {
        let lengths: Vec<usize> = lines.iter().map(|l| l.len()).collect();
        assert_eq!(lengths, vec![0, 1, LINE_LEN - 1, LINE_LEN]);
    }
}

#[test]
fn framer_gives_a_line_of_exactly_the_limit() {
    for end in [&b"\n"[..], b"\r\n", b"\rx"] {
        let mut stream = vec![b'a'; LINE_LEN];
        stream.extend_from_slice(end);
        assert_eq!(at_once(&stream), vec![vec![b'a'; LINE_LEN]]);
        assert_eq!(one_by_one(&stream), vec![vec![b'a'; LINE_LEN]]);
    }
}

#[test]
fn framer_drops_a_line_one_over_the_limit() {
    for end in [&b"\n"[..], b"\r\n", b"\rx"] {
        let mut stream = vec![b'a'; LINE_LEN + 1];
        stream.extend_from_slice(end);
        assert_eq!(at_once(&stream), Vec::<Vec<u8>>::new());
        assert_eq!(one_by_one(&stream), Vec::<Vec<u8>>::new());
    }
}

#[test]
fn framer_drops_a_long_line_and_gives_the_short_one_after_it() {
    let mut stream = vec![b'a'; LINE_LEN + 500];
    stream.extend_from_slice(b"\n05003800790400\n");
    let want = vec![b"05003800790400".to_vec()];
    assert_eq!(at_once(&stream), want);
    assert_eq!(one_by_one(&stream), want);
    let (lines, end) = lines_of(&[&stream[..700], &stream[700..1400], &stream[1400..]]);
    assert_eq!(lines, want);
    assert_eq!(end, Ok(()));
}

#[test]
fn framer_keeps_nothing_of_a_line_it_drops() {
    let mut framer = Framer::new();
    assert_eq!(framer.feed(&vec![b'a'; LINE_LEN]), Ok(vec![]));
    assert_eq!(framer.buffered_len(), LINE_LEN);
    assert!(!framer.is_dropping());
    assert_eq!(framer.feed(b"a"), Ok(vec![]));
    assert_eq!(framer.buffered_len(), 0);
    assert!(framer.is_dropping());
    assert_eq!(framer.feed(&vec![b'a'; CHUNK_LEN]), Ok(vec![]));
    assert_eq!(framer.buffered_len(), 0);
    assert_eq!(framer.feed(b"a\r"), Ok(vec![]));
    assert_eq!(framer.buffered_len(), 1);
    assert!(framer.is_dropping());
    assert_eq!(framer.feed(b"\nshort\n"), Ok(vec![Bytes::from_static(b"short")]));
    assert_eq!(framer.buffered_len(), 0);
    assert!(!framer.is_dropping());
}

#[test]
fn framer_waits_for_what_follows_a_carriage_return() {
    let mut framer = Framer::new();
    assert_eq!(framer.feed(&vec![b'a'; LINE_LEN]), Ok(vec![]));
    assert_eq!(framer.feed(b"\r"), Ok(vec![]));
    assert_eq!(framer.buffered_len(), LINE_LEN + 1);
    assert!(!framer.is_dropping());
    assert_eq!(framer.feed(b"\n"), Ok(vec![Bytes::from(vec![b'a'; LINE_LEN])]));
    assert_eq!(framer.buffered_len(), 0);
}

#[test]
fn framer_takes_a_read_larger_than_a_chunk() {
    let mut stream = Vec::new();
    for i in 0..5000u32 {
        stream.extend_from_slice(format!("line {}\r\n", i).as_bytes());
    }
    assert!(stream.len() > 10 * CHUNK_LEN);
    let lines = at_once(&stream);
    assert_eq!(lines.len(), 5000);
    assert_eq!(lines[4999], b"line 4999");
}

#[test]
fn read_lines_stops_at_the_first_empty_read() {
    let (lines, end) = lines_of(&[b"a\nb", b"", b"\nc\n"]);
    assert_eq!(lines, vec![b"a".to_vec()]);
    assert_eq!(end, Err(ReadError::UnexpectedEof));
}

#[test]
fn read_lines_without_an_end() {
    let (lines, end) = lines_of(&[b"a\nb", b"\nc\n"]);
    assert_eq!(lines, vec![b"a".to_vec(), b"b".to_vec(), b"c".to_vec()]);
    assert_eq!(end, Ok(()));
    let (lines, end) = lines_of(&[]);
    assert_eq!(lines, Vec::<Vec<u8>>::new());
    assert_eq!(end, Ok(()));
}

#[test]
fn read_lines_loses_a_stream_without_line_ends() {
    let (lines, end) = lines_of(&[b"no line end", b" at all", b""]);
    assert_eq!(lines, Vec::<Vec<u8>>::new());
    assert_eq!(end, Err(ReadError::UnexpectedEof));
}

#[test]
fn read_lines_adds_to_what_is_there() {
    let mut out = vec![Bytes::from_static(b"kept")];
    let end = read_lines(&vec![b"new\n".to_vec()], &mut out);
    assert_eq!(end, Ok(()));
    assert_eq!(out, vec![Bytes::from_static(b"kept"), Bytes::from_static(b"new")]);
}
