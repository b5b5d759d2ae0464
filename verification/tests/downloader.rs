//! The ranged downloader against mock servers.

use ct_ext_search::download::{CtEntry, Fetch, Sink, download_range, download_step, next_request};
use ct_ext_search::errors::Error;

/// A server that answers each request with a scripted entry count,
/// regardless of what was asked for.
struct ScriptedServer {
    counts: Vec<usize>,
    call: usize,
    requests: Vec<(u64, u64)>,
}

impl ScriptedServer {
    fn new(counts: &[usize]) -> ScriptedServer {
        ScriptedServer { counts: counts.to_vec(), call: 0, requests: Vec::new() }
    }
}

impl Fetch for ScriptedServer {
    fn fetch(&mut self, start: u64, end: u64) -> Result<Vec<CtEntry>, Error> {
        self.requests.push((start, end));
        let n = if self.call < self.counts.len() {
            self.counts[self.call]
        } else {
            0
        };
        self.call += 1;
        let mut out = Vec::new();
        for _ in 0..n {
            out.push(CtEntry { leaf_input: String::new(), extra_data: String::new() });
        }
        Ok(out)
    }
}

/// A failing transport.
struct BrokenServer;

impl Fetch for BrokenServer {
    fn fetch(&mut self, _start: u64, _end: u64) -> Result<Vec<CtEntry>, Error> {
        Err(Error::Http(503))
    }
}

/// A sink that records each batch it is given.
struct Recorder {
    batches: Vec<(u64, usize)>,
}

impl Sink for Recorder {
    fn on_batch(&mut self, batch_start: u64, entries: Vec<CtEntry>) -> Result<(), Error> {
        self.batches.push((batch_start, entries.len()));
        Ok(())
    }
}

/// A sink whose storage fails.
struct FailingSink;

impl Sink for FailingSink {
    fn on_batch(&mut self, _batch_start: u64, _entries: Vec<CtEntry>) -> Result<(), Error> {
        Err(Error::CacheIo)
    }
}

#[test]
fn two_batches_cover_sixty_entries() {
    let mut server = ScriptedServer::new(&[30, 30, 0]);
    let mut sink = Recorder { batches: Vec::new() };
    let record = download_range(&mut server, &mut sink, 0, 59).unwrap();
    assert_eq!(record, vec![(0, 30), (30, 30)]);
    assert_eq!(sink.batches, vec![(0, 30), (30, 30)]);
    assert_eq!(server.requests, vec![(0, 29), (30, 59)]);
}

#[test]
fn boundary_entry_is_not_requested_on_its_own() {
    // the walk stops once the next unseen index reaches `end`, so the
    // strictly bounded range behaves as [start, end)
    let mut server = ScriptedServer::new(&[30, 30, 0]);
    let mut sink = Recorder { batches: Vec::new() };
    let record = download_range(&mut server, &mut sink, 0, 60).unwrap();
    assert_eq!(record, vec![(0, 30), (30, 30)]);
    assert_eq!(server.requests.len(), 2);
}

#[test]
fn empty_batch_aborts_after_the_third_call() {
    let mut server = ScriptedServer::new(&[30, 30, 0]);
    let mut sink = Recorder { batches: Vec::new() };
    let r = download_range(&mut server, &mut sink, 0, 61);
    assert_eq!(r, Err(Error::EmptyBatch));
    assert_eq!(server.requests.len(), 3);
    // the empty batch still reached the sink before the walk refused it
    assert_eq!(sink.batches, vec![(0, 30), (30, 30), (60, 0)]);
}

#[test]
fn server_overshoot_advances_by_what_came() {
    let mut server = ScriptedServer::new(&[50]);
    let mut sink = Recorder { batches: Vec::new() };
    let record = download_range(&mut server, &mut sink, 0, 40).unwrap();
    assert_eq!(record, vec![(0, 50)]);
}

#[test]
fn batch_hint_shrinks_to_what_the_server_delivered() {
    let mut server = ScriptedServer::new(&[10, 10, 10, 10, 10, 10]);
    let mut sink = Recorder { batches: Vec::new() };
    let record = download_range(&mut server, &mut sink, 0, 50).unwrap();
    assert_eq!(record, vec![(0, 10), (10, 10), (20, 10), (30, 10), (40, 10)]);
    // the first request asks for STEP_SIZE entries, later ones for 10
    assert_eq!(server.requests[0], (0, 29));
    assert_eq!(server.requests[1], (10, 19));
}

#[test]
fn short_range_asks_for_exactly_the_range() {
    let mut server = ScriptedServer::new(&[5]);
    let mut sink = Recorder { batches: Vec::new() };
    let record = download_range(&mut server, &mut sink, 10, 14).unwrap();
    assert_eq!(record, vec![(10, 5)]);
    assert_eq!(server.requests, vec![(10, 14)]);
}

#[test]
fn empty_range_downloads_nothing() {
    let mut server = ScriptedServer::new(&[30]);
    let mut sink = Recorder { batches: Vec::new() };
    let record = download_range(&mut server, &mut sink, 5, 5).unwrap();
    assert!(record.is_empty());
    assert!(server.requests.is_empty());
}

#[test]
fn transport_error_is_surfaced() {
    let mut server = BrokenServer;
    let mut sink = Recorder { batches: Vec::new() };
    assert_eq!(download_range(&mut server, &mut sink, 0, 10), Err(Error::Http(503)));
}

#[test]
fn sink_error_aborts_the_walk() {
    let mut server = ScriptedServer::new(&[30, 30]);
    let mut sink = FailingSink;
    assert_eq!(download_range(&mut server, &mut sink, 0, 59), Err(Error::CacheIo));
    assert_eq!(server.requests.len(), 1);
}

#[test]
fn next_request_is_clamped_and_bounded() {
    assert_eq!(next_request(0, 100, 30), (0, 29));
    assert_eq!(next_request(90, 100, 30), (90, 100));
    assert_eq!(next_request(99, 100, 1), (99, 99));
    assert_eq!(next_request(0, 100, 1), (0, 0));
}

#[test]
fn download_step_consumes_and_shrinks_the_hint() {
    assert_eq!(download_step(0, 100, 30), (30, 30));
    assert_eq!(download_step(0, 100, 10), (10, 10));
    assert_eq!(download_step(0, 100, 50), (50, 30));
    assert_eq!(download_step(90, 100, 30), (100, 30));
}
