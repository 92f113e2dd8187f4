//! Tests that drive the ring buffer through its two endpoints.

use spsc_ring::{Buffer, Reader, Writer};

/// Copies as much of `src` as fits into the empty region and publishes it.
fn push_bytes(reader: &Reader, src: &[u8]) -> usize {
    reader
        .slices(|a: &mut [u8], b: &mut [u8], _len: usize| -> Result<usize, ()> {
            let n1 = src.len().min(a.len());
            a[..n1].copy_from_slice(&src[..n1]);
            let n2 = (src.len() - n1).min(b.len());
            b[..n2].copy_from_slice(&src[n1..n1 + n2]);
            Ok(n1 + n2)
        })
        .unwrap()
}

/// Appends up to `max` bytes of the filled region to `dst` and releases them.
fn pull_bytes(writer: &Writer, dst: &mut Vec<u8>, max: usize) -> usize {
    writer
        .slices(|a: &[u8], b: &[u8], _len: usize| -> Result<usize, ()> {
            let n1 = a.len().min(max);
            dst.extend_from_slice(&a[..n1]);
            let n2 = b.len().min(max - n1);
            dst.extend_from_slice(&b[..n2]);
            Ok(n1 + n2)
        })
        .unwrap()
}

#[test]
fn test_round_trip_basic() {
    let (reader, writer) = Buffer::new(16, 16).into_parts();
    assert!(writer.is_empty());
    assert_eq!(push_bytes(&reader, &[10, 20, 30]), 3);
    assert_eq!(reader.position(), 3);
    assert_eq!(writer.position(), 0);
    assert!(!writer.is_empty());
    let mut out: Vec<u8> = Vec::new();
    assert_eq!(pull_bytes(&writer, &mut out, 16), 3);
    assert_eq!(out, vec![10, 20, 30]);
    assert_eq!(writer.position(), 3);
    assert!(writer.is_empty());
}

#[test]
fn test_offered_lengths_at_boundaries() {
    let (reader, writer) = Buffer::new(8, 8).into_parts();
    // empty buffer: producer is offered the whole capacity, consumer nothing
    let seen = reader
        .slices(|a: &mut [u8], b: &mut [u8], len: usize| -> Result<usize, ()> {
            assert_eq!(a.len() + b.len(), len);
            assert_eq!(len, 8);
            Ok(0)
        })
        .unwrap();
    assert_eq!(seen, 0);
    let seen = writer
        .slices(|a: &[u8], b: &[u8], len: usize| -> Result<usize, ()> {
            assert_eq!(a.len() + b.len(), len);
            assert_eq!(len, 0);
            Ok(0)
        })
        .unwrap();
    assert_eq!(seen, 0);
    // full buffer: the other way around
    assert_eq!(push_bytes(&reader, &[7; 8]), 8);
    reader
        .slices(|_a: &mut [u8], _b: &mut [u8], len: usize| -> Result<usize, ()> {
            assert_eq!(len, 0);
            Ok(0)
        })
        .unwrap();
    writer
        .slices(|a: &[u8], b: &[u8], len: usize| -> Result<usize, ()> {
            assert_eq!(len, 8);
            assert_eq!(a.len() + b.len(), 8);
            Ok(0)
        })
        .unwrap();
}

#[test]
fn test_error_is_transactional() {
    let (reader, writer) = Buffer::new(8, 8).into_parts();
    assert_eq!(push_bytes(&reader, &[1, 2, 3, 4]), 4);
    let before = writer.position();
    // a failing consumer commits nothing
    let r: Result<usize, &str> = writer.slices(|_a: &[u8], _b: &[u8], _len: usize| Err("boom"));
    assert_eq!(r, Err("boom"));
    assert_eq!(writer.position(), before);
    // a failing producer commits nothing either, even after scribbling
    let before = reader.position();
    let r: Result<usize, &str> = reader.slices(|a: &mut [u8], _b: &mut [u8], _len: usize| {
        if !a.is_empty() {
            a[0] = 99;
        }
        Err("boom")
    });
    assert_eq!(r, Err("boom"));
    assert_eq!(reader.position(), before);
    // the subsequent successful call starts from the identical view pair
    let mut out: Vec<u8> = Vec::new();
    assert_eq!(pull_bytes(&writer, &mut out, 8), 4);
    assert_eq!(out, vec![1, 2, 3, 4]);
}

#[test]
fn test_observation_is_idempotent() {
    let (reader, writer) = Buffer::new(8, 8).into_parts();
    assert_eq!(push_bytes(&reader, &[5, 6]), 2);
    let (rp, wp) = (reader.position(), writer.position());
    for _ in 0..3 {
        let r: Result<usize, ()> = writer.slices(|_a: &[u8], _b: &[u8], _len: usize| Ok(0));
        assert_eq!(r, Ok(0));
    }
    assert_eq!(reader.position(), rp);
    assert_eq!(writer.position(), wp);
    let mut out: Vec<u8> = Vec::new();
    assert_eq!(pull_bytes(&writer, &mut out, 8), 2);
    assert_eq!(out, vec![5, 6]);
}

#[test]
fn test_stream_no_loss_no_duplication() {
    // One producer pushes a deterministic byte stream through a small ring in
    // odd-sized chunks while the consumer drains in other odd sizes: the sink
    // must equal the source, in order, and the loop must terminate.
    let total: usize = 100_000;
    let mut source: Vec<u8> = Vec::with_capacity(total);
    let mut x: u64 = 0x2545F4914F6CDD1D;
    while source.len() < total {
        x ^= x << 13;
        x ^= x >> 7;
        x ^= x << 17;
        source.push((x >> 32) as u8);
    }
    let (reader, writer) = Buffer::new(64, 64).into_parts();
    let mut sink: Vec<u8> = Vec::with_capacity(total);
    let mut sent: usize = 0;
    let mut step: usize = 0;
    while sink.len() < total {
        step += 1;
        let chunk = 1 + (step * 7) % 23;
        if sent < total {
            let upto = (sent + chunk).min(total);
            sent += push_bytes(&reader, &source[sent..upto]);
        }
        let want = 1 + (step * 5) % 19;
        pull_bytes(&writer, &mut sink, want);
        assert!(step < 10 * total, "no progress");
        // bounded occupancy at every observation
        let produced = reader.position();
        let consumed = writer.position();
        assert!(consumed <= produced && produced - consumed <= 64);
    }
    assert_eq!(sink, source);
    assert_eq!(reader.position(), total);
    assert_eq!(writer.position(), total);
    assert!(writer.is_empty());
}

#[test]
fn test_write_bytes_and_read_bytes() {
    let (reader, writer) = Buffer::new(8, 8).into_parts();
    // only what fits is taken
    assert_eq!(reader.write_bytes(&[1, 2, 3, 4, 5, 6, 7, 8, 9, 10]), 8);
    assert_eq!(reader.write_bytes(&[11]), 0);
    // what is read lands behind what the destination already holds
    let mut out: Vec<u8> = vec![170];
    assert_eq!(writer.read_bytes(&mut out, 3), 3);
    assert_eq!(out, vec![170, 1, 2, 3]);
    // the freed room is reused across the wrap point
    assert_eq!(reader.write_bytes(&[9, 10]), 2);
    assert_eq!(writer.read_bytes(&mut out, 16), 7);
    assert_eq!(out, vec![170, 1, 2, 3, 4, 5, 6, 7, 8, 9, 10]);
    assert_eq!(reader.position(), 10);
    assert_eq!(writer.position(), 10);
}

#[test]
fn test_capacity_one() {
    let (reader, writer) = Buffer::new(1, 1).into_parts();
    assert_eq!(push_bytes(&reader, &[42]), 1);
    assert_eq!(push_bytes(&reader, &[43]), 0);
    let mut out: Vec<u8> = Vec::new();
    assert_eq!(pull_bytes(&writer, &mut out, 1), 1);
    assert_eq!(out, vec![42]);
    assert_eq!(push_bytes(&reader, &[43]), 1);
    assert_eq!(pull_bytes(&writer, &mut out, 1), 1);
    assert_eq!(out, vec![42, 43]);
}

#[test]
fn test_storage_is_zeroed() {
    // A fresh buffer's storage reads back as zeroes when published untouched.
    let (reader, writer) = Buffer::new(4, 4).into_parts();
    let r: Result<usize, ()> =
        reader.slices(|_a: &mut [u8], _b: &mut [u8], len: usize| Ok(len));
    assert_eq!(r, Ok(4));
    let mut out: Vec<u8> = Vec::new();
    assert_eq!(pull_bytes(&writer, &mut out, 4), 4);
    assert_eq!(out, vec![0, 0, 0, 0]);
}

#[test]
fn test_surviving_endpoint_reports_no_progress() {
    // Dropping one endpoint leaves the other functional: it just stops making
    // progress once the cross counter can no longer advance.
    let (reader, writer) = Buffer::new(4, 4).into_parts();
    assert_eq!(push_bytes(&reader, &[1, 2]), 2);
    drop(reader);
    let mut out: Vec<u8> = Vec::new();
    assert_eq!(pull_bytes(&writer, &mut out, 4), 2);
    assert_eq!(pull_bytes(&writer, &mut out, 4), 0);
    assert_eq!(out, vec![1, 2]);
    assert!(writer.is_empty());
}
