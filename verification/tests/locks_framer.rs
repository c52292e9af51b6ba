use coordkit::locks::framer::FrameError;
use coordkit::locks::framer::LineFramer;
use coordkit::locks::framer::ReadEnd;
use coordkit::locks::framer::StreamError;
use coordkit::locks::framer::WriteEnd;
use coordkit::locks::protocol::MAX_LINE;
use std::io::Cursor;
use std::io::ErrorKind;
use std::io::Read;
use std::io::Write;

#[test]
fn line_framer_reads_split_lines() {
    let input: &[u8] = b"ACQUIRE foo\nRELEASE foo\r\nLIST\n";
    let mut fr = LineFramer::new(Cursor::new(input));
    fr.refresh().unwrap();
    assert_eq!(fr.next_line().unwrap().as_deref(), Some("ACQUIRE foo"));
    assert_eq!(fr.next_line().unwrap().as_deref(), Some("RELEASE foo"));
    assert_eq!(fr.next_line().unwrap().as_deref(), Some("LIST"));
    assert!(fr.next_line().unwrap().is_none());
}

#[test]
fn line_framer_partial_line_returns_none() {
    let mut fr = LineFramer::new(Cursor::new(b"ACQUIRE fo".as_slice()));
    fr.refresh().unwrap();
    assert!(fr.next_line().unwrap().is_none());
}

#[test]
fn line_framer_reports_oversized_line() {
    let huge: Vec<u8> = std::iter::repeat(b'A').take(MAX_LINE + 10).collect();
    let mut fr = LineFramer::new(Cursor::new(huge));
    fr.refresh().unwrap();
    match fr.next_line() {
        Err(FrameError::LineTooLong) => {}
        other => panic!("expected LineTooLong, got {:?}", other),
    }
    // Second call should behave as empty (buffer was purged).
    assert!(fr.next_line().unwrap().is_none());
}

#[test]
fn line_framer_writes_go_through_double_buffer() {
    let mut fr: LineFramer<Vec<u8>> = LineFramer::new(Vec::new());
    fr.write_all(b"HELLO\n").unwrap();
    fr.write_all(b"WORLD\n").unwrap();
    assert!(!fr.write_buffer_empty());
    assert!(fr.flush_nonblocking().unwrap());
    assert!(fr.write_buffer_empty());
    assert_eq!(fr.as_ref().as_slice(), b"HELLO\nWORLD\n");
}

#[test]
fn line_framer_preserves_bytes_across_flush_cycles() {
    // Simulates a scenario where a second write arrives *between* two flush
    // attempts. The double-buffer must preserve ordering.
    let mut fr: LineFramer<Vec<u8>> = LineFramer::new(Vec::new());
    fr.write_all(b"A").unwrap();
    assert!(fr.flush_nonblocking().unwrap());
    fr.write_all(b"B").unwrap();
    assert!(fr.flush_nonblocking().unwrap());
    fr.write_all(b"C").unwrap();
    assert!(fr.flush_nonblocking().unwrap());
    assert_eq!(fr.as_ref().as_slice(), b"ABC");
}

/// Takes `budget` bytes, at most `step` at a time, and then asks to wait.
struct Narrow {
    taken: Vec<u8>,
    step: usize,
    budget: usize,
    interrupt: bool,
}

impl Write for Narrow {
    fn write(&mut self, data: &[u8]) -> std::io::Result<usize> {
        if self.interrupt {
            self.interrupt = false;
            return Err(ErrorKind::Interrupted.into());
        }
        let n = data.len().min(self.step).min(self.budget);
        if n == 0 {
            return Err(ErrorKind::WouldBlock.into());
        }
        self.budget -= n;
        self.taken.extend_from_slice(&data[..n]);
        Ok(n)
    }

    fn flush(&mut self) -> std::io::Result<()> {
        Ok(())
    }
}

#[test]
fn partial_flush_resumes_where_it_stopped() {
    let stream = Narrow { taken: Vec::new(), step: 2, budget: 5, interrupt: true };
    let mut fr = LineFramer::new(stream);
    fr.write_all(b"HELLO WORLD").unwrap();
    assert!(!fr.flush_nonblocking().unwrap());
    fr.write_all(b"!").unwrap();
    fr.as_mut().budget = 100;
    assert!(fr.flush_nonblocking().unwrap());
    assert_eq!(fr.as_ref().taken, b"HELLO WORLD!");
}

/// Answers as it is told to, and keeps what it was offered.
struct Scripted {
    answers: Vec<std::io::Result<usize>>,
    offered: Vec<Vec<u8>>,
}

impl Write for Scripted {
    fn write(&mut self, data: &[u8]) -> std::io::Result<usize> {
        self.offered.push(data.to_vec());
        self.answers.remove(0)
    }

    fn flush(&mut self) -> std::io::Result<()> {
        Ok(())
    }
}

#[test]
fn offers_start_at_the_first_byte_that_was_not_taken() {
    let answers = vec![
        Ok(2),
        Err(ErrorKind::Interrupted.into()),
        Ok(1),
        Err(ErrorKind::WouldBlock.into()),
        Err(ErrorKind::BrokenPipe.into()),
        Ok(0),
        Ok(99),
    ];
    let mut fr = LineFramer::new(Scripted { answers, offered: Vec::new() });
    fr.write_all(b"abcdef").unwrap();
    assert!(!fr.flush_nonblocking().unwrap());
    assert!(matches!(
        fr.flush_nonblocking(),
        Err(StreamError::Io(e)) if e.kind() == ErrorKind::BrokenPipe
    ));
    assert!(matches!(fr.flush_nonblocking(), Err(StreamError::WriteZero)));
    assert!(!fr.write_buffer_empty());
    assert!(fr.flush_nonblocking().unwrap());
    assert!(fr.write_buffer_empty());
    assert!(fr.flush_nonblocking().unwrap());
    let offered: Vec<&[u8]> = fr.as_ref().offered.iter().map(|d| d.as_slice()).collect();
    assert_eq!(
        offered,
        vec![b"abcdef".as_slice(), b"cdef", b"cdef", b"def", b"def", b"def", b"def"]
    );
}

#[test]
fn each_answer_of_the_stream_has_its_outcome() {
    let mut fr = LineFramer::new(());
    fr.write_all(b"abc").unwrap();
    assert!(matches!(fr.settle(WriteEnd::Count(0)), Some(Err(StreamError::WriteZero))));
    assert!(matches!(fr.settle(WriteEnd::Interrupted), None));
    assert!(matches!(fr.settle(WriteEnd::WouldBlock), Some(Ok(false))));
    assert!(matches!(
        fr.settle(WriteEnd::Failed(ErrorKind::BrokenPipe.into())),
        Some(Err(StreamError::Io(e))) if e.kind() == ErrorKind::BrokenPipe
    ));
    assert!(!fr.write_buffer_empty());
    assert!(matches!(fr.settle(WriteEnd::Count(2)), None));
    assert!(!fr.write_buffer_empty());
    assert!(matches!(fr.settle(WriteEnd::Count(1)), None));
    assert!(fr.write_buffer_empty());
}

#[test]
fn lines_do_not_depend_on_the_cuts() {
    let bytes: &[u8] = b"ACQUIRE foo\r\n\xff\n\nLIST\nrest";
    for i in 0..=bytes.len() {
        for j in i..=bytes.len() {
            let mut fr = LineFramer::new(());
            let mut lines = Vec::new();
            for piece in [&bytes[..i], &bytes[i..j], &bytes[j..]] {
                fr.absorb(piece.to_vec(), ReadEnd::WouldBlock).unwrap();
                loop {
                    match fr.next_line() {
                        Ok(Some(line)) => lines.push(line),
                        Ok(None) => break,
                        Err(FrameError::InvalidUtf8) => lines.push("not text".to_string()),
                        Err(e) => panic!("unexpected {:?}", e),
                    }
                }
            }
            assert_eq!(lines, vec!["ACQUIRE foo", "not text", "", "LIST"]);
        }
    }
}

struct Stuck;

impl Write for Stuck {
    fn write(&mut self, _data: &[u8]) -> std::io::Result<usize> {
        Ok(0)
    }

    fn flush(&mut self) -> std::io::Result<()> {
        Ok(())
    }
}

#[test]
fn stream_that_takes_nothing_is_an_error() {
    let mut fr = LineFramer::new(Stuck);
    assert!(fr.flush_nonblocking().unwrap());
    fr.write_all(b"x").unwrap();
    assert!(matches!(fr.flush_nonblocking(), Err(StreamError::WriteZero)));
}

struct Broken;

impl Write for Broken {
    fn write(&mut self, _data: &[u8]) -> std::io::Result<usize> {
        Err(ErrorKind::BrokenPipe.into())
    }

    fn flush(&mut self) -> std::io::Result<()> {
        Ok(())
    }
}

impl Read for Broken {
    fn read(&mut self, _buf: &mut [u8]) -> std::io::Result<usize> {
        Err(ErrorKind::ConnectionReset.into())
    }
}

#[test]
fn stream_failures_are_passed_on() {
    let mut fr = LineFramer::new(Broken);
    fr.write_all(b"x").unwrap();
    assert!(matches!(fr.flush_nonblocking(), Err(StreamError::Io(_))));
    assert!(matches!(fr.refresh(), Err(StreamError::Io(_))));
}

#[test]
fn end_of_stream_is_an_error() {
    let mut fr = LineFramer::new(Cursor::new(b"".as_slice()));
    assert!(matches!(fr.refresh(), Err(StreamError::UnexpectedEof)));
}

#[test]
fn waiting_for_more_bytes_is_no_error() {
    let mut fr = LineFramer::new(());
    assert!(fr.absorb(b"AB".to_vec(), ReadEnd::WouldBlock).is_ok());
    assert!(fr.next_line().unwrap().is_none());
    assert!(fr.absorb(b"C\nD\n".to_vec(), ReadEnd::WouldBlock).is_ok());
    assert_eq!(fr.next_line().unwrap().as_deref(), Some("ABC"));
    assert_eq!(fr.next_line().unwrap().as_deref(), Some("D"));
    assert!(matches!(fr.absorb(Vec::new(), ReadEnd::Count(0)), Err(StreamError::UnexpectedEof)));
}

#[test]
fn line_of_the_greatest_length_is_accepted() {
    let mut bytes = vec![b'a'; MAX_LINE];
    bytes.push(b'\n');
    let mut fr = LineFramer::new(());
    fr.absorb(bytes, ReadEnd::WouldBlock).unwrap();
    assert_eq!(fr.next_line().unwrap().unwrap().len(), MAX_LINE);
}

#[test]
fn complete_line_over_the_limit_is_too_long() {
    let mut bytes = vec![b'a'; MAX_LINE + 1];
    bytes.extend_from_slice(b"\nLIST\n");
    let mut fr = LineFramer::new(());
    fr.absorb(bytes, ReadEnd::WouldBlock).unwrap();
    assert!(matches!(fr.next_line(), Err(FrameError::LineTooLong)));
    assert!(fr.next_line().unwrap().is_none());
}

#[test]
fn invalid_utf8_is_reported_and_skipped() {
    let mut fr = LineFramer::new(());
    fr.absorb(b"\xff\xfe\nLIST\n".to_vec(), ReadEnd::WouldBlock).unwrap();
    assert!(matches!(fr.next_line(), Err(FrameError::InvalidUtf8)));
    assert_eq!(fr.next_line().unwrap().as_deref(), Some("LIST"));
}

#[test]
fn only_one_carriage_return_is_stripped() {
    let mut fr = LineFramer::new(());
    fr.absorb(b"a\r\r\n\n".to_vec(), ReadEnd::WouldBlock).unwrap();
    assert_eq!(fr.next_line().unwrap().as_deref(), Some("a\r"));
    assert_eq!(fr.next_line().unwrap().as_deref(), Some(""));
}

#[test]
fn frame_error_texts() {
    let io: FrameError = std::io::Error::from(ErrorKind::Other).into();
    assert!(matches!(io, FrameError::Io(_)));
    assert_eq!(io.message(), None);
    assert_eq!(
        FrameError::LineTooLong.message().unwrap(),
        "protocol line exceeds maximum length"
    );
    assert_eq!(FrameError::InvalidUtf8.message().unwrap(), "protocol line is not valid UTF-8");
}
