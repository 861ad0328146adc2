use jsonl_peek::lines::LineReader;
use std::io::{BufRead, Cursor};

/// Reads chunks up to each `\n` from `reader` and hands them to the library's
/// `LineReader`, as a program reading a file does.
struct ChunkedLines<R> {
    reader: R,
    buf: Vec<u8>,
    lines: LineReader,
}

impl<R: BufRead> ChunkedLines<R> {
    fn new(reader: R) -> Self {
        ChunkedLines {
            reader,
            buf: Vec::new(),
            lines: LineReader::new(),
        }
    }

    fn line_number(&self) -> usize {
        self.lines.line_number()
    }

    fn next_line(&mut self) -> std::io::Result<Option<&[u8]>> {
        self.buf.clear();
        self.reader.read_until(b'\n', &mut self.buf)?;
        Ok(self.lines.next_line(&mut self.buf))
    }
}

#[test]
fn splits_multiple_lines() {
    let mut r = ChunkedLines::new(Cursor::new(&b"a\nb\nc\n"[..]));
    assert_eq!(r.next_line().unwrap(), Some(&b"a"[..]));
    assert_eq!(r.next_line().unwrap(), Some(&b"b"[..]));
    assert_eq!(r.next_line().unwrap(), Some(&b"c"[..]));
    assert_eq!(r.next_line().unwrap(), None);
}

#[test]
fn keeps_last_line_without_trailing_newline() {
    let mut r = ChunkedLines::new(Cursor::new(&b"a\nb"[..]));
    assert_eq!(r.next_line().unwrap(), Some(&b"a"[..]));
    assert_eq!(r.next_line().unwrap(), Some(&b"b"[..]));
    assert_eq!(r.next_line().unwrap(), None);
}

#[test]
fn strips_crlf() {
    let mut r = ChunkedLines::new(Cursor::new(&b"a\r\nb\r\n"[..]));
    assert_eq!(r.next_line().unwrap(), Some(&b"a"[..]));
    assert_eq!(r.next_line().unwrap(), Some(&b"b"[..]));
    assert_eq!(r.next_line().unwrap(), None);
}

#[test]
fn strips_leading_bom_only() {
    let mut data = vec![0xEF, 0xBB, 0xBF];
    data.extend_from_slice(b"a\nb\n");
    let mut r = ChunkedLines::new(Cursor::new(data));
    assert_eq!(r.next_line().unwrap(), Some(&b"a"[..]));
    assert_eq!(r.next_line().unwrap(), Some(&b"b"[..]));
}

#[test]
fn preserves_blank_lines() {
    let mut r = ChunkedLines::new(Cursor::new(&b"a\n\nb\n"[..]));
    assert_eq!(r.next_line().unwrap(), Some(&b"a"[..]));
    assert_eq!(r.next_line().unwrap(), Some(&b""[..]));
    assert_eq!(r.next_line().unwrap(), Some(&b"b"[..]));
}

#[test]
fn empty_input_yields_none() {
    let mut r = ChunkedLines::new(Cursor::new(&b""[..]));
    assert_eq!(r.next_line().unwrap(), None);
}

#[test]
fn tracks_line_number() {
    let mut r = ChunkedLines::new(Cursor::new(&b"a\nb\nc\n"[..]));
    assert_eq!(r.line_number(), 0);
    r.next_line().unwrap();
    assert_eq!(r.line_number(), 1);
    r.next_line().unwrap();
    assert_eq!(r.line_number(), 2);
}

#[test]
fn bom_on_a_later_line_is_kept() {
    let mut data = b"a\n".to_vec();
    data.extend_from_slice(&[0xEF, 0xBB, 0xBF]);
    data.extend_from_slice(b"b\n");
    let mut r = ChunkedLines::new(Cursor::new(data));
    assert_eq!(r.next_line().unwrap(), Some(&b"a"[..]));
    assert_eq!(r.next_line().unwrap(), Some(&[0xEF, 0xBB, 0xBF, b'b'][..]));
}

#[test]
fn lone_carriage_return_without_newline_is_kept() {
    let mut r = ChunkedLines::new(Cursor::new(&b"a\rb\r"[..]));
    assert_eq!(r.next_line().unwrap(), Some(&b"a\rb\r"[..]));
    assert_eq!(r.next_line().unwrap(), None);
    assert_eq!(r.line_number(), 1);
}

#[test]
fn only_one_carriage_return_is_dropped() {
    let mut r = ChunkedLines::new(Cursor::new(&b"a\r\r\n"[..]));
    assert_eq!(r.next_line().unwrap(), Some(&b"a\r"[..]));
}

#[test]
fn chunk_is_turned_into_its_line_directly() {
    let mut lines = LineReader::new();
    let mut chunk = vec![0xEF, 0xBB, 0xBF, b'x', b'\r', b'\n'];
    assert_eq!(lines.next_line(&mut chunk), Some(&b"x"[..]));
    let mut empty: Vec<u8> = Vec::new();
    assert_eq!(lines.next_line(&mut empty), None);
    assert_eq!(lines.line_number(), 1);
}

/// The lines of `data` as the reader's documentation describes them: no
/// lines for no bytes; otherwise a leading byte order mark dropped, the
/// pieces between `\n`s without the empty one after a final `\n`, and one
/// `\r` taken off each piece a `\n` ended.
fn described_lines(data: &[u8]) -> Vec<Vec<u8>> {
    if data.is_empty() {
        return Vec::new();
    }
    let body = if data.starts_with(&[0xEF, 0xBB, 0xBF]) { &data[3..] } else { data };
    let pieces: Vec<&[u8]> = body.split(|b| *b == b'\n').collect();
    let keep = if body.ends_with(b"\n") { pieces.len() - 1 } else { pieces.len() };
    let mut out = Vec::new();
    for (k, piece) in pieces.iter().take(keep).enumerate() {
        let mut line = piece.to_vec();
        if k + 1 < pieces.len() && line.ends_with(b"\r") {
            line.pop();
        }
        out.push(line);
    }
    out
}

#[test]
fn reader_gives_the_described_lines_of_a_whole_file() {
    let files: [&[u8]; 9] = [
        b"",
        b"\xEF\xBB\xBF",
        b"\xEF\xBB\xBF{}\r\n[1]\n",
        b"a\r\n\r\nb\rc\n\nlast",
        b"\n\n",
        b"x\xEF\xBB\xBF\n\xEF\xBB\xBFy",
        b"\r\n",
        b"no newline at all",
        b"\xEF\xBB\xBF\n",
    ];
    for data in files {
        let mut r = ChunkedLines::new(Cursor::new(data));
        let mut got = Vec::new();
        while let Some(line) = r.next_line().unwrap() {
            got.push(line.to_vec());
        }
        assert_eq!(got, described_lines(data), "for {data:?}");
        assert_eq!(r.line_number(), got.len());
    }
}
