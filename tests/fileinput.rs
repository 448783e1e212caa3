use fileinput::{ByteStream, FileInput, IoStrategy, Source};
use std::io::{BufRead, BufReader, Cursor, Error, ErrorKind, Read, Write};

/// A stream that fails `repeat_count` times (forever when negative), then
/// reports its end of data.
#[derive(Clone)]
struct FailingIoStream {
    kind: ErrorKind,
    message: &'static str,
    repeat_count: i32,
}

impl FailingIoStream {
    fn new(kind: ErrorKind, message: &'static str, repeat_count: i32) -> FailingIoStream {
        FailingIoStream { kind, message, repeat_count }
    }

    fn error(&mut self) -> std::io::Result<usize> {
        if self.repeat_count == 0 {
            Ok(0)
        } else {
            if self.repeat_count > 0 {
                self.repeat_count -= 1;
            }
            Err(Error::new(self.kind, self.message))
        }
    }
}

impl Read for FailingIoStream {
    fn read(&mut self, _: &mut [u8]) -> std::io::Result<usize> {
        self.error()
    }
}

impl Write for FailingIoStream {
    fn write(&mut self, _: &[u8]) -> std::io::Result<usize> {
        self.error()
    }

    fn flush(&mut self) -> std::io::Result<()> {
        Ok(())
    }
}

/// The files the tests read, held in memory.
fn file_contents(path: &str) -> Option<&'static [u8]> {
    match path {
        "testdata/1" => Some(b"One.\n"),
        "testdata/2" => Some(b"Two.\nTwo.\n"),
        "testdata/empty" => Some(b""),
        _ => None,
    }
}

/// A handle the test strategies hand out.
enum Handle {
    Bytes(Cursor<Vec<u8>>),
    Failing(FailingIoStream),
    /// Returns its chunks one per read call, then its end of data.
    Chunks(Vec<Vec<u8>>),
}

impl ByteStream for Handle {
    // Records for the verifier only; no code calls them.
    fn origin(&self) -> fileinput::strategy::Origin {
        unreachable!()
    }

    fn taken(&self) -> fileinput::strategy::Handed {
        unreachable!()
    }

    fn answered_end(&self) -> bool {
        unreachable!()
    }

    fn read(&mut self, buf: &mut [u8]) -> std::io::Result<usize> {
        match self {
            Handle::Bytes(c) => Read::read(c, buf),
            Handle::Failing(f) => Read::read(f, buf),
            Handle::Chunks(chunks) => {
                if chunks.is_empty() {
                    return Ok(0);
                }
                let chunk = chunks.remove(0);
                buf[..chunk.len()].copy_from_slice(&chunk);
                Ok(chunk.len())
            }
        }
    }
}

fn open_file(path: &str) -> std::io::Result<Handle> {
    match file_contents(path) {
        Some(bytes) => Ok(Handle::Bytes(Cursor::new(bytes.to_vec()))),
        None => Err(Error::new(ErrorKind::NotFound, "no such file")),
    }
}

/// Opens the files above; standard input is empty.
#[derive(Debug, Default)]
struct TestIo {}

impl IoStrategy for TestIo {
    type Stream = Handle;

    fn open(&self, path: &str) -> std::io::Result<Handle> {
        open_file(path)
    }

    fn stdin(&self) -> Handle {
        Handle::Bytes(Cursor::new(Vec::new()))
    }
}

#[derive(Debug, Default)]
struct FailingIo {}

impl IoStrategy for FailingIo {
    /// If the file name is "ERROR", it returns a mock which fails twice, then
    /// returns `Ok(0)`.
    fn open(&self, path: &str) -> std::io::Result<Handle> {
        if path.rsplit('/').next() == Some("ERROR") {
            Ok(Handle::Failing(FailingIoStream::new(ErrorKind::InvalidData, "file", 2)))
        } else {
            open_file(path)
        }
    }

    /// A mock which fails twice, then returns `Ok(0)`.
    fn stdin(&self) -> Handle {
        Handle::Failing(FailingIoStream::new(ErrorKind::InvalidInput, "stdin", 2))
    }

    type Stream = Handle;
}

/// Serves each file as the chunks that its name lists, split at `+`.
#[derive(Debug, Default)]
struct ChunkIo {}

impl IoStrategy for ChunkIo {
    type Stream = Handle;

    fn open(&self, path: &str) -> std::io::Result<Handle> {
        if path == "missing" {
            return Err(Error::new(ErrorKind::NotFound, "no such file"));
        }
        let chunks: Vec<Vec<u8>> =
            path.split('+').filter(|c| !c.is_empty()).map(|c| c.as_bytes().to_vec()).collect();
        Ok(Handle::Chunks(chunks))
    }

    fn stdin(&self) -> Handle {
        Handle::Chunks(Vec::new())
    }
}

/// A `FileInput` as a `std::io::Read`.
struct Stream<Io: IoStrategy>(FileInput<Io>);

impl<Io: IoStrategy> Stream<Io> {
    fn get_ref(&self) -> &FileInput<Io> {
        &self.0
    }
}

impl<Io: IoStrategy> Read for Stream<Io> {
    fn read(&mut self, buf: &mut [u8]) -> std::io::Result<usize> {
        if buf.is_empty() {
            return Ok(0);
        }
        self.0.read(buf)
    }
}

#[test]
fn test_failing_mock_stream_read() {
    let mut s = FailingIoStream::new(ErrorKind::BrokenPipe, "The dog ate the ethernet cable", 1);
    let mut v = [0; 4];
    let error = s.read(v.as_mut()).unwrap_err();
    assert_eq!(error.kind(), ErrorKind::BrokenPipe);
    assert_eq!(error.to_string(), "The dog ate the ethernet cable");
    // after a single error, it will return Ok(0)
    assert_eq!(s.read(v.as_mut()).unwrap(), 0);
}

#[test]
fn test_failing_mock_stream_chain() {
    let mut c = Cursor::new(&b"abcd"[..]).chain(FailingIoStream::new(ErrorKind::Other, "Failing", -1));

    let mut v = [0; 8];
    assert_eq!(c.read(v.as_mut()).unwrap(), 4);
    assert_eq!(c.read(v.as_mut()).unwrap_err().kind(), ErrorKind::Other);
    assert_eq!(c.read(v.as_mut()).unwrap_err().kind(), ErrorKind::Other);
}

#[test]
fn test_failing_mock_stream_chain_interrupted() {
    let mut c = Cursor::new(&b"abcd"[..])
        .chain(FailingIoStream::new(ErrorKind::Interrupted, "Interrupted", 5))
        .chain(Cursor::new(&b"ABCD"[..]));

    let mut v = [0; 8];
    c.read_exact(v.as_mut()).unwrap();
    assert_eq!(v, [0x61, 0x62, 0x63, 0x64, 0x41, 0x42, 0x43, 0x44]);
    assert_eq!(c.read(v.as_mut()).unwrap(), 0);
}

#[test]
fn test_failing_mock_stream_write() {
    let mut s = FailingIoStream::new(ErrorKind::PermissionDenied, "Access denied", -1);
    let error = s.write("abcd".as_bytes()).unwrap_err();
    assert_eq!(error.kind(), ErrorKind::PermissionDenied);
    assert_eq!(error.to_string(), "Access denied");
    // it will keep failing
    assert!(s.write("abcd".as_bytes()).is_err());
}

#[test]
fn read_files() {
    let paths = vec!["testdata/1", "testdata/2"];
    let mut fileinput = Stream(FileInput::<TestIo>::new(&paths));
    let mut buffer = String::new();

    fileinput.read_to_string(&mut buffer).unwrap();

    assert_eq!(buffer, "One.\nTwo.\nTwo.\n");
}

#[test]
fn skip_empty_file() {
    let paths = vec!["testdata/1", "testdata/empty", "testdata/2"];
    let mut fileinput = Stream(FileInput::<TestIo>::new(&paths));
    let mut buffer = String::new();

    fileinput.read_to_string(&mut buffer).unwrap();

    assert_eq!(buffer, "One.\nTwo.\nTwo.\n");
}

#[test]
fn get_source() {
    let paths = vec!["testdata/1", "testdata/2"];
    let fileinput = Stream(FileInput::<TestIo>::new(&paths));
    let mut reader = BufReader::new(fileinput);
    let mut buffer = String::new();

    assert_eq!(reader.get_ref().get_ref().source(), None);
    reader.read_line(&mut buffer).unwrap();
    assert_eq!(reader.get_ref().get_ref().source(), Some(Source::File("testdata/1".to_string())));
    reader.read_line(&mut buffer).unwrap();
    assert_eq!(reader.get_ref().get_ref().source(), Some(Source::File("testdata/2".to_string())));
    reader.read_line(&mut buffer).unwrap();
    reader.read_line(&mut buffer).unwrap();
    assert_eq!(reader.get_ref().get_ref().source(), None);
}

#[test]
fn error_on_nonexistent_file() {
    let paths = vec!["testdata/NOPE"];
    let mut fileinput = Stream(FileInput::<TestIo>::new(&paths));
    let mut buffer = String::new();
    let result = fileinput.read_to_string(&mut buffer);

    assert_eq!(result.unwrap_err().kind(), ErrorKind::NotFound);
}

#[test]
fn no_error_on_empty_files() {
    let paths = vec!["testdata/empty", "testdata/empty"];
    let mut fileinput = Stream(FileInput::<TestIo>::new(&paths));
    let mut buffer = String::new();

    fileinput.read_to_string(&mut buffer).unwrap();

    assert_eq!(buffer, "");
    assert_eq!(fileinput.get_ref().source(), None);
}

#[test]
fn read_file_failing_read() {
    let paths = vec!["testdata/ERROR", "testdata/1"];
    let mut fileinput = FileInput::<TestIo>::new(&paths).io_strategy(FailingIo {});
    let mut buffer = [0; 5];

    assert_eq!(fileinput.read(&mut buffer).unwrap_err().kind(), ErrorKind::InvalidData);
    assert_eq!(fileinput.read(&mut buffer).unwrap_err().kind(), ErrorKind::InvalidData);
    assert_eq!(fileinput.read(&mut buffer).unwrap(), 5);
    assert_eq!(buffer, "One.\n".as_bytes());
}

#[test]
fn read_stdin_failing_read() {
    let paths = vec!["-", "testdata/1"];
    let mut fileinput = FileInput::<TestIo>::new(&paths).io_strategy(FailingIo {});
    let mut buffer = [0; 5];

    assert_eq!(fileinput.read(&mut buffer).unwrap_err().kind(), ErrorKind::InvalidInput);
    assert_eq!(fileinput.read(&mut buffer).unwrap_err().kind(), ErrorKind::InvalidInput);
    assert_eq!(fileinput.read(&mut buffer).unwrap(), 5);
    assert_eq!(buffer, "One.\n".as_bytes());
}

#[test]
fn read_file_fail_after_successfull_read() {
    let paths = vec!["testdata/1", "testdata/ERROR", "testdata/NOPE"];
    let mut fileinput = FileInput::<TestIo>::new(&paths).io_strategy(FailingIo {});
    let mut buffer = [0; 10];

    assert_eq!(fileinput.read(&mut buffer).unwrap(), 5);
    assert_eq!(buffer, "One.\n\0\0\0\0\0".as_bytes());
    assert_eq!(fileinput.read(&mut buffer).unwrap_err().kind(), ErrorKind::InvalidData);
    assert_eq!(fileinput.read(&mut buffer).unwrap_err().kind(), ErrorKind::InvalidData);
    assert_eq!(fileinput.read(&mut buffer).unwrap_err().kind(), ErrorKind::NotFound);
    assert_eq!(fileinput.read(&mut buffer).unwrap(), 0);
}

#[test]
fn failing_read_keeps_the_source() {
    let paths = vec!["testdata/ERROR", "testdata/1"];
    let mut fileinput = FileInput::<FailingIo>::new(&paths);
    let mut buffer = [0; 5];
    let error_source = Some(Source::File("testdata/ERROR".to_string()));

    assert_eq!(fileinput.source(), None);
    assert_eq!(fileinput.read(&mut buffer).unwrap_err().kind(), ErrorKind::InvalidData);
    assert_eq!(fileinput.source(), error_source);
    assert_eq!(fileinput.read(&mut buffer).unwrap_err().kind(), ErrorKind::InvalidData);
    assert_eq!(fileinput.source(), error_source);
    assert_eq!(fileinput.read(&mut buffer).unwrap(), 5);
    assert_eq!(fileinput.source(), Some(Source::File("testdata/1".to_string())));
}

#[test]
fn chunks_concatenate_in_order() {
    let paths = vec!["ab+c", "de+f+g"];
    let mut fileinput = FileInput::<ChunkIo>::new(&paths);
    let mut buffer = [0u8; 8];
    let mut got: Vec<u8> = Vec::new();
    let mut calls = 0;
    loop {
        let n = fileinput.read(&mut buffer).unwrap();
        if n == 0 {
            break;
        }
        calls += 1;
        got.extend_from_slice(&buffer[..n]);
    }
    assert_eq!(got, b"abcdefg".to_vec());
    assert_eq!(calls, 5);
}

#[test]
fn open_failure_is_not_retried() {
    let paths = vec!["ok+1", "missing", "ok+2"];
    let mut fileinput = FileInput::<ChunkIo>::new(&paths);
    let mut buffer = [0u8; 8];

    assert_eq!(fileinput.read(&mut buffer).unwrap(), 2);
    assert_eq!(&buffer[..2], b"ok");
    assert_eq!(fileinput.read(&mut buffer).unwrap(), 1);
    assert_eq!(&buffer[..1], b"1");
    assert_eq!(fileinput.read(&mut buffer).unwrap_err().kind(), ErrorKind::NotFound);
    assert_eq!(fileinput.source(), None);
    assert_eq!(fileinput.read(&mut buffer).unwrap(), 2);
    assert_eq!(&buffer[..2], b"ok");
    assert_eq!(fileinput.source(), Some(Source::File("ok+2".to_string())));
    assert_eq!(fileinput.read(&mut buffer).unwrap(), 1);
    assert_eq!(&buffer[..1], b"2");
    assert_eq!(fileinput.read(&mut buffer).unwrap(), 0);
    assert_eq!(fileinput.source(), None);
}

#[test]
fn exhausted_reader_keeps_returning_zero() {
    let paths = vec!["testdata/1"];
    let mut fileinput = FileInput::<TestIo>::new(&paths);
    let mut buffer = [0u8; 16];
    assert_eq!(fileinput.read(&mut buffer).unwrap(), 5);
    for _ in 0..100 {
        assert_eq!(fileinput.read(&mut buffer).unwrap(), 0);
        assert_eq!(fileinput.source(), None);
    }
}

#[test]
fn empty_source_changes_nothing() {
    let with_empty = vec!["a+b", "", "c"];
    let without = vec!["a+b", "c"];
    let mut x = FileInput::<ChunkIo>::new(&with_empty);
    let mut y = FileInput::<ChunkIo>::new(&without);
    let mut bx = [0u8; 4];
    let mut by = [0u8; 4];
    loop {
        let nx = x.read(&mut bx).unwrap();
        let ny = y.read(&mut by).unwrap();
        assert_eq!(nx, ny);
        assert_eq!(bx[..nx], by[..ny]);
        assert_eq!(x.source(), y.source());
        if nx == 0 {
            break;
        }
    }
}

#[test]
fn no_names_reads_stdin() {
    let paths: Vec<&str> = vec![];
    let mut fileinput = FileInput::<FailingIo>::new(&paths);
    let mut buffer = [0u8; 4];
    assert_eq!(fileinput.read(&mut buffer).unwrap_err().kind(), ErrorKind::InvalidInput);
    assert_eq!(fileinput.source(), Some(Source::Stdin));
}

#[test]
fn with_strategies_opens_through_the_given_strategy() {
    let paths = vec!["xy"];
    let mut fileinput = FileInput::with_strategies(&paths, ChunkIo {});
    let mut buffer = [0u8; 4];
    assert_eq!(fileinput.read(&mut buffer).unwrap(), 2);
    assert_eq!(&buffer[..2], b"xy");
}

#[test]
fn open_next_file_takes_the_head_whatever_comes_of_it() {
    let paths = vec!["testdata/NOPE", "-", "testdata/1"];
    let mut fileinput = FileInput::<TestIo>::new(&paths);
    assert_eq!(fileinput.open_next_file().unwrap_err().kind(), ErrorKind::NotFound);
    assert_eq!(fileinput.source(), None);
    assert!(fileinput.open_next_file().is_ok());
    assert_eq!(fileinput.source(), Some(Source::Stdin));
}

#[test]
fn install_passes_the_open_error_on() {
    let paths = vec!["testdata/1"];
    let mut fileinput = FileInput::<TestIo>::new(&paths);
    let failed = Err(Error::new(ErrorKind::PermissionDenied, "denied"));
    let error = fileinput.install(Source::File("x".to_string()), failed).unwrap_err();
    assert_eq!(error.kind(), ErrorKind::PermissionDenied);
    assert_eq!(error.to_string(), "denied");
    assert_eq!(fileinput.source(), None);

    let handle = open_file("testdata/2").unwrap();
    assert!(fileinput.install(Source::File("testdata/2".to_string()), Ok(handle)).is_ok());
    assert_eq!(fileinput.source(), Some(Source::File("testdata/2".to_string())));
    let mut buffer = [0u8; 32];
    assert_eq!(fileinput.read(&mut buffer).unwrap(), 10);
    assert_eq!(&buffer[..10], b"Two.\nTwo.\n");
}

#[test]
fn after_read_acts_on_each_answer() {
    let paths = vec!["testdata/1", "testdata/2"];
    let mut fileinput = FileInput::<TestIo>::new(&paths);
    fileinput.open_next_file().unwrap();
    let current = Some(Source::File("testdata/1".to_string()));

    let failed = fileinput.after_read(Err(Error::new(ErrorKind::Interrupted, "again")));
    assert_eq!(failed.unwrap().unwrap_err().kind(), ErrorKind::Interrupted);
    assert_eq!(fileinput.source(), current);

    assert_eq!(fileinput.after_read(Ok(3)).unwrap().unwrap(), 3);
    assert_eq!(fileinput.source(), current);

    assert!(fileinput.after_read(Ok(0)).is_none());
    assert_eq!(fileinput.source(), None);
}
