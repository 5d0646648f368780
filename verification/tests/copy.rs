//! Staged copies, with ends that record every call.

use vhost_bounce::bounce::copy::{copy_chunked, CopyCalls, CopyEnds, COPY_CHUNK};

#[derive(Debug, PartialEq)]
enum Call {
    Read(u64, usize),
    Write(u64, usize),
}

struct Recorder {
    source: Vec<u8>,
    sink: Vec<u8>,
    calls: Vec<Call>,
    /// The call, counted from 0, that fails.
    failing: Option<usize>,
}

impl Recorder {
    fn new(len: usize, failing: Option<usize>) -> Self {
        Recorder {
            source: (0..len).map(|i| (i % 251) as u8).collect(),
            sink: Vec::new(),
            calls: Vec::new(),
            failing,
        }
    }

    fn outcome(&self) -> Result<(), usize> {
        match self.failing {
            Some(n) if n + 1 == self.calls.len() => Err(n),
            _ => Ok(()),
        }
    }
}

impl CopyEnds for Recorder {
    type Error = usize;
    type Setting = ();

    fn valid(&self) -> bool {
        true
    }

    fn setting(&self) {}

    fn limit(&self) -> u32 {
        self.source.len() as u32
    }

    fn calls(&self) -> CopyCalls<usize> {
        unreachable!("only proofs look at this")
    }

    fn read(&mut self, buf: &mut Vec<u8>, len: usize, offset: u64) -> Result<(), usize> {
        self.calls.push(Call::Read(offset, len));
        let start = offset as usize;
        buf[..len].copy_from_slice(&self.source[start..start + len]);
        self.outcome()
    }

    fn write(&mut self, buf: &Vec<u8>, len: usize, offset: u64) -> Result<(), usize> {
        self.calls.push(Call::Write(offset, len));
        assert_eq!(self.sink.len() as u64, offset);
        self.sink.extend_from_slice(&buf[..len]);
        self.outcome()
    }
}

#[test]
fn staged_copy_reads_and_writes_in_turn() {
    let mut ends = Recorder::new(40000, None);
    let mut scratch = Vec::new();
    assert_eq!(copy_chunked(&mut scratch, &mut ends, 40000), Ok(()));
    assert_eq!(
        ends.calls,
        vec![
            Call::Read(0, 16384),
            Call::Write(0, 16384),
            Call::Read(16384, 16384),
            Call::Write(16384, 16384),
            Call::Read(32768, 7232),
            Call::Write(32768, 7232),
        ]
    );
    assert_eq!(ends.sink, ends.source);
    assert_eq!(scratch.len(), COPY_CHUNK);
}

#[test]
fn staged_copy_of_whole_pieces_has_no_empty_piece() {
    let mut ends = Recorder::new(32768, None);
    let mut scratch = vec![0u8; COPY_CHUNK];
    assert_eq!(copy_chunked(&mut scratch, &mut ends, 32768), Ok(()));
    assert_eq!(
        ends.calls,
        vec![
            Call::Read(0, 16384),
            Call::Write(0, 16384),
            Call::Read(16384, 16384),
            Call::Write(16384, 16384),
        ]
    );
    assert_eq!(ends.sink, ends.source);
}

#[test]
fn staged_copy_of_one_short_piece() {
    let mut ends = Recorder::new(10, None);
    let mut scratch = Vec::new();
    assert_eq!(copy_chunked(&mut scratch, &mut ends, 7), Ok(()));
    assert_eq!(ends.calls, vec![Call::Read(0, 7), Call::Write(0, 7)]);
    assert_eq!(ends.sink, ends.source[..7].to_vec());
}

#[test]
fn staged_copy_of_nothing_makes_no_call() {
    let mut ends = Recorder::new(0, Some(0));
    let mut scratch = Vec::new();
    assert_eq!(copy_chunked(&mut scratch, &mut ends, 0), Ok(()));
    assert_eq!(ends.calls, vec![]);
}

#[test]
fn staged_copy_ends_at_a_failing_read() {
    let mut ends = Recorder::new(40000, Some(2));
    let mut scratch = Vec::new();
    assert_eq!(copy_chunked(&mut scratch, &mut ends, 40000), Err(2));
    assert_eq!(
        ends.calls,
        vec![Call::Read(0, 16384), Call::Write(0, 16384), Call::Read(16384, 16384)]
    );
    assert_eq!(ends.sink, ends.source[..16384].to_vec());
}

#[test]
fn staged_copy_ends_at_a_failing_write() {
    let mut ends = Recorder::new(40000, Some(3));
    let mut scratch = Vec::new();
    assert_eq!(copy_chunked(&mut scratch, &mut ends, 40000), Err(3));
    assert_eq!(
        ends.calls,
        vec![
            Call::Read(0, 16384),
            Call::Write(0, 16384),
            Call::Read(16384, 16384),
            Call::Write(16384, 16384),
        ]
    );
}
