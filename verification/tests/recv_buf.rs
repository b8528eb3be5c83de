use bytes::BytesMut;
use stream_reassembly::buffer::writer::storage::Bounded;
use stream_reassembly::stream::error::Error;
use stream_reassembly::stream::range_buf::RangeBuf;
use stream_reassembly::stream::recv_buf::RecvAction;
use stream_reassembly::stream::recv_buf::RecvBuf;
use stream_reassembly::stream::recv_buf::RecvBufResetReturn;

const DEFAULT_STREAM_WINDOW: u64 = 32 * 1024;

// Helper function for testing either buffer emit or discard.
//
// The `emit` parameter controls whether data is emitted or discarded from
// `recv`.
//
// The `target_len` parameter controls the maximum amount of bytes that
// could be read, up to the capacity of `recv`. The `result_len` is the
// actual number of bytes that were taken out of `recv`. An assert is
// performed on `result_len` to ensure the number of bytes read meets the
// caller expectations.
//
// The `is_fin` parameter relates to the buffer's finished status. An assert
// is performed on it to ensure the status meet the caller expectations.
//
// The `test_bytes` parameter carries an optional slice of bytes. Is set, an
// assert is performed against the bytes that were read out of the buffer,
// to ensure caller expectations are met.
fn assert_emit_discard(
    recv: &mut RecvBuf,
    emit: bool,
    target_len: usize,
    result_len: usize,
    is_fin: bool,
    test_bytes: Option<&[u8]>,
) {
    let mut buf = Bounded::new(BytesMut::with_capacity(512), target_len);
    let action = if emit {
        RecvAction::Emit { out: &mut buf }
    } else {
        RecvAction::Discard { len: target_len }
    };

    let (read, fin) = recv.emit_or_discard(action).unwrap();

    let buf = buf.into_inner();
    if emit {
        assert_eq!(buf.len(), read);
        if let Some(v) = test_bytes {
            assert_eq!(&buf, v);
        }
    }

    assert_eq!(read, result_len);
    assert_eq!(is_fin, fin);
}

// Helper function for testing buffer status for either emit or discard.
fn assert_emit_discard_done(recv: &mut RecvBuf, emit: bool) {
    if emit {
        let mut buf = [0u8; 32];
        assert_eq!(recv.emit(&mut buf), Err(Error::Done));
        let mut out = Bounded::new(BytesMut::new(), 32);
        assert_eq!(
            recv.emit_or_discard(RecvAction::Emit { out: &mut out }),
            Err(Error::Done)
        );
        assert_eq!(out.as_slice(), b"");
    } else {
        let action: RecvAction<Bounded> = RecvAction::Discard { len: 32 };
        assert_eq!(recv.emit_or_discard(action), Err(Error::Done));
    }
}

#[test]
fn empty_read() {
    for emit in [true, false] {
        empty_read_with(emit);
    }
}

fn empty_read_with(emit: bool) {
    let mut recv =
        RecvBuf::new(u64::MAX, DEFAULT_STREAM_WINDOW, DEFAULT_STREAM_WINDOW);
    assert_eq!(recv.max_off(), 0);

    assert_emit_discard_done(&mut recv, emit);
}

#[test]
fn empty_stream_frame() {
    for emit in [true, false] {
        empty_stream_frame_with(emit);
    }
}

fn empty_stream_frame_with(emit: bool) {
    let mut recv =
        RecvBuf::new(15, DEFAULT_STREAM_WINDOW, DEFAULT_STREAM_WINDOW);
    assert_eq!(recv.max_off(), 0);

    let buf = RangeBuf::from(b"hello", 0, false);
    assert!(recv.write(buf).is_ok());
    assert_eq!(recv.max_off(), 5);
    assert_eq!(recv.off_front(), 0);
    assert_eq!(recv.chunk_count(), 1);

    assert_emit_discard(&mut recv, emit, 32, 5, false, None);

    // Don't store non-fin empty buffer.
    let buf = RangeBuf::from(b"", 10, false);
    assert!(recv.write(buf).is_ok());
    assert_eq!(recv.max_off(), 5);
    assert_eq!(recv.off_front(), 5);
    assert_eq!(recv.chunk_count(), 0);

    // Check flow control for empty buffer.
    let buf = RangeBuf::from(b"", 16, false);
    assert_eq!(recv.write(buf), Err(Error::FlowControl));

    // Store fin empty buffer.
    let buf = RangeBuf::from(b"", 5, true);
    assert!(recv.write(buf).is_ok());
    assert_eq!(recv.max_off(), 5);
    assert_eq!(recv.off_front(), 5);
    assert_eq!(recv.chunk_count(), 1);

    // Don't store additional fin empty buffers.
    let buf = RangeBuf::from(b"", 5, true);
    assert!(recv.write(buf).is_ok());
    assert_eq!(recv.max_off(), 5);
    assert_eq!(recv.off_front(), 5);
    assert_eq!(recv.chunk_count(), 1);

    // Don't store additional fin non-empty buffers.
    let buf = RangeBuf::from(b"aa", 3, true);
    assert!(recv.write(buf).is_ok());
    assert_eq!(recv.max_off(), 5);
    assert_eq!(recv.off_front(), 5);
    assert_eq!(recv.chunk_count(), 1);

    // Validate final size with fin empty buffers.
    let buf = RangeBuf::from(b"", 6, true);
    assert_eq!(recv.write(buf), Err(Error::FinalSize));
    let buf = RangeBuf::from(b"", 4, true);
    assert_eq!(recv.write(buf), Err(Error::FinalSize));

    assert_emit_discard(&mut recv, emit, 32, 0, true, None);
}

#[test]
fn ordered_read() {
    for emit in [true, false] {
        ordered_read_with(emit);
    }
}

fn ordered_read_with(emit: bool) {
    let mut recv =
        RecvBuf::new(u64::MAX, DEFAULT_STREAM_WINDOW, DEFAULT_STREAM_WINDOW);
    assert_eq!(recv.max_off(), 0);

    let first = RangeBuf::from(b"hello", 0, false);
    let second = RangeBuf::from(b"world", 5, false);
    let third = RangeBuf::from(b"something", 10, true);

    assert!(recv.write(second).is_ok());
    assert_eq!(recv.max_off(), 10);
    assert_eq!(recv.off_front(), 0);

    assert_emit_discard_done(&mut recv, emit);

    assert!(recv.write(third).is_ok());
    assert_eq!(recv.max_off(), 19);
    assert_eq!(recv.off_front(), 0);

    assert_emit_discard_done(&mut recv, emit);

    assert!(recv.write(first).is_ok());
    assert_eq!(recv.max_off(), 19);
    assert_eq!(recv.off_front(), 0);

    assert_emit_discard(
        &mut recv,
        emit,
        32,
        19,
        true,
        Some(b"helloworldsomething"),
    );
    assert_eq!(recv.max_off(), 19);
    assert_eq!(recv.off_front(), 19);

    assert_emit_discard_done(&mut recv, emit);
}

#[test]
fn shutdown() {
    for emit in [true, false] {
        shutdown_with(emit);
    }
}

fn shutdown_with(emit: bool) {
    let mut recv =
        RecvBuf::new(u64::MAX, DEFAULT_STREAM_WINDOW, DEFAULT_STREAM_WINDOW);
    assert_eq!(recv.max_off(), 0);

    let first = RangeBuf::from(b"hello", 0, false);
    let second = RangeBuf::from(b"world", 5, false);
    let third = RangeBuf::from(b"something", 10, false);

    assert!(recv.write(second).is_ok());
    assert_eq!(recv.max_off(), 10);
    assert_eq!(recv.off_front(), 0);

    assert_emit_discard_done(&mut recv, emit);

    // shutdown the buffer. Buffer is dropped.
    assert_eq!(recv.shutdown(), Ok(10));
    assert_eq!(recv.max_off(), 10);
    assert_eq!(recv.off_front(), 10);
    assert_eq!(recv.chunk_count(), 0);

    assert_emit_discard_done(&mut recv, emit);

    // subsequent writes are validated but not added to the buffer
    assert!(recv.write(first).is_ok());
    assert_eq!(recv.max_off(), 10);
    assert_eq!(recv.off_front(), 10);
    assert_eq!(recv.chunk_count(), 0);

    // the max offset of received data can increase and
    // the recv.off must increase with it
    assert!(recv.write(third).is_ok());
    assert_eq!(recv.max_off(), 19);
    assert_eq!(recv.off_front(), 19);
    assert_eq!(recv.chunk_count(), 0);

    // Send a reset
    assert_emit_discard_done(&mut recv, emit);
    assert_eq!(
        recv.reset(42, 123),
        Ok(RecvBufResetReturn {
            max_data_delta: 104,
            consumed_flowcontrol: 104,
        })
    );
    assert_eq!(recv.max_off(), 123);
    assert_eq!(recv.off_front(), 123);
    assert_eq!(recv.chunk_count(), 0);

    assert_emit_discard_done(&mut recv, emit);
}

#[test]
fn split_read() {
    for emit in [true, false] {
        split_read_with(emit);
    }
}

fn split_read_with(emit: bool) {
    let mut recv =
        RecvBuf::new(u64::MAX, DEFAULT_STREAM_WINDOW, DEFAULT_STREAM_WINDOW);
    assert_eq!(recv.max_off(), 0);

    let first = RangeBuf::from(b"something", 0, false);
    let second = RangeBuf::from(b"helloworld", 9, true);

    assert!(recv.write(first).is_ok());
    assert_eq!(recv.max_off(), 9);
    assert_eq!(recv.off_front(), 0);

    assert!(recv.write(second).is_ok());
    assert_eq!(recv.max_off(), 19);
    assert_eq!(recv.off_front(), 0);

    assert_emit_discard(&mut recv, emit, 10, 10, false, Some(b"somethingh"));
    assert_eq!(recv.max_off(), 19);
    assert_eq!(recv.off_front(), 10);

    assert_emit_discard(&mut recv, emit, 5, 5, false, Some(b"ellow"));
    assert_eq!(recv.max_off(), 19);
    assert_eq!(recv.off_front(), 15);

    assert_emit_discard(&mut recv, emit, 5, 4, true, Some(b"orld"));
    assert_eq!(recv.max_off(), 19);
    assert_eq!(recv.off_front(), 19);
}

#[test]
fn split_read_incremental_buf() {
    let mut recv =
        RecvBuf::new(u64::MAX, DEFAULT_STREAM_WINDOW, DEFAULT_STREAM_WINDOW);
    assert_eq!(recv.max_off(), 0);

    let first = RangeBuf::from(b"something", 0, false);
    let second = RangeBuf::from(b"helloworld", 9, true);

    assert!(recv.write(first).is_ok());
    assert_eq!(recv.max_off(), 9);
    assert_eq!(recv.off_front(), 0);

    assert!(recv.write(second).is_ok());
    assert_eq!(recv.max_off(), 19);
    assert_eq!(recv.off_front(), 0);

    let mut buf = Bounded::new(BytesMut::new(), 10);
    assert_eq!(
        recv.emit_or_discard(RecvAction::Emit { out: &mut buf }),
        Ok((10, false))
    );
    assert_eq!(recv.max_off(), 19);
    assert_eq!(recv.off_front(), 10);
    assert_eq!(buf.as_slice().len(), 10);
    assert_eq!(buf.as_slice(), b"somethingh");

    let mut buf = Bounded::new(buf.into_inner(), 5);
    assert_eq!(
        recv.emit_or_discard(RecvAction::Emit { out: &mut buf }),
        Ok((5, false))
    );
    assert_eq!(recv.max_off(), 19);
    assert_eq!(recv.off_front(), 15);
    assert_eq!(buf.as_slice().len(), 15);
    assert_eq!(buf.as_slice(), b"somethinghellow");

    let mut buf = Bounded::new(buf.into_inner(), 42);
    assert_eq!(
        recv.emit_or_discard(RecvAction::Emit { out: &mut buf }),
        Ok((4, true))
    );
    assert_eq!(recv.max_off(), 19);
    assert_eq!(recv.off_front(), 19);
    assert_eq!(buf.as_slice().len(), 19);
    assert_eq!(buf.as_slice(), b"somethinghelloworld");
}

#[test]
fn incomplete_read() {
    for emit in [true, false] {
        incomplete_read_with(emit);
    }
}

fn incomplete_read_with(emit: bool) {
    let mut recv =
        RecvBuf::new(u64::MAX, DEFAULT_STREAM_WINDOW, DEFAULT_STREAM_WINDOW);
    assert_eq!(recv.max_off(), 0);

    let first = RangeBuf::from(b"something", 0, false);
    let second = RangeBuf::from(b"helloworld", 9, true);

    assert!(recv.write(second).is_ok());
    assert_eq!(recv.max_off(), 19);
    assert_eq!(recv.off_front(), 0);

    assert_emit_discard_done(&mut recv, emit);

    assert!(recv.write(first).is_ok());
    assert_eq!(recv.max_off(), 19);
    assert_eq!(recv.off_front(), 0);

    assert_emit_discard(
        &mut recv,
        emit,
        32,
        19,
        true,
        Some(b"somethinghelloworld"),
    );
    assert_eq!(recv.max_off(), 19);
    assert_eq!(recv.off_front(), 19);
}

#[test]
fn zero_len_read() {
    for emit in [true, false] {
        zero_len_read_with(emit);
    }
}

fn zero_len_read_with(emit: bool) {
    let mut recv =
        RecvBuf::new(u64::MAX, DEFAULT_STREAM_WINDOW, DEFAULT_STREAM_WINDOW);
    assert_eq!(recv.max_off(), 0);

    let first = RangeBuf::from(b"something", 0, false);
    let second = RangeBuf::from(b"", 9, true);

    assert!(recv.write(first).is_ok());
    assert_eq!(recv.max_off(), 9);
    assert_eq!(recv.off_front(), 0);
    assert_eq!(recv.chunk_count(), 1);

    assert!(recv.write(second).is_ok());
    assert_eq!(recv.max_off(), 9);
    assert_eq!(recv.off_front(), 0);
    assert_eq!(recv.chunk_count(), 1);

    assert_emit_discard(&mut recv, emit, 32, 9, true, Some(b"something"));
    assert_eq!(recv.max_off(), 9);
    assert_eq!(recv.off_front(), 9);
}

#[test]
fn past_read() {
    for emit in [true, false] {
        past_read_with(emit);
    }
}

fn past_read_with(emit: bool) {
    let mut recv =
        RecvBuf::new(u64::MAX, DEFAULT_STREAM_WINDOW, DEFAULT_STREAM_WINDOW);
    assert_eq!(recv.max_off(), 0);

    let first = RangeBuf::from(b"something", 0, false);
    let second = RangeBuf::from(b"hello", 3, false);
    let third = RangeBuf::from(b"ello", 4, true);
    let fourth = RangeBuf::from(b"ello", 5, true);

    assert!(recv.write(first).is_ok());
    assert_eq!(recv.max_off(), 9);
    assert_eq!(recv.off_front(), 0);
    assert_eq!(recv.chunk_count(), 1);

    assert_emit_discard(&mut recv, emit, 32, 9, false, Some(b"something"));
    assert_eq!(recv.max_off(), 9);
    assert_eq!(recv.off_front(), 9);

    assert!(recv.write(second).is_ok());
    assert_eq!(recv.max_off(), 9);
    assert_eq!(recv.off_front(), 9);
    assert_eq!(recv.chunk_count(), 0);

    assert_eq!(recv.write(third), Err(Error::FinalSize));

    assert!(recv.write(fourth).is_ok());
    assert_eq!(recv.max_off(), 9);
    assert_eq!(recv.off_front(), 9);
    assert_eq!(recv.chunk_count(), 0);

    assert_emit_discard_done(&mut recv, emit);
}

#[test]
fn fully_overlapping_read() {
    for emit in [true, false] {
        fully_overlapping_read_with(emit);
    }
}

fn fully_overlapping_read_with(emit: bool) {
    let mut recv =
        RecvBuf::new(u64::MAX, DEFAULT_STREAM_WINDOW, DEFAULT_STREAM_WINDOW);
    assert_eq!(recv.max_off(), 0);

    let first = RangeBuf::from(b"something", 0, false);
    let second = RangeBuf::from(b"hello", 4, false);

    assert!(recv.write(first).is_ok());
    assert_eq!(recv.max_off(), 9);
    assert_eq!(recv.off_front(), 0);
    assert_eq!(recv.chunk_count(), 1);

    assert!(recv.write(second).is_ok());
    assert_eq!(recv.max_off(), 9);
    assert_eq!(recv.off_front(), 0);
    assert_eq!(recv.chunk_count(), 1);

    assert_emit_discard(&mut recv, emit, 32, 9, false, Some(b"something"));
    assert_eq!(recv.max_off(), 9);
    assert_eq!(recv.off_front(), 9);
    assert_eq!(recv.chunk_count(), 0);

    assert_emit_discard_done(&mut recv, emit);
}

#[test]
fn fully_overlapping_read2() {
    for emit in [true, false] {
        fully_overlapping_read2_with(emit);
    }
}

fn fully_overlapping_read2_with(emit: bool) {
    let mut recv =
        RecvBuf::new(u64::MAX, DEFAULT_STREAM_WINDOW, DEFAULT_STREAM_WINDOW);
    assert_eq!(recv.max_off(), 0);

    let first = RangeBuf::from(b"something", 0, false);
    let second = RangeBuf::from(b"hello", 4, false);

    assert!(recv.write(second).is_ok());
    assert_eq!(recv.max_off(), 9);
    assert_eq!(recv.off_front(), 0);
    assert_eq!(recv.chunk_count(), 1);

    assert!(recv.write(first).is_ok());
    assert_eq!(recv.max_off(), 9);
    assert_eq!(recv.off_front(), 0);
    assert_eq!(recv.chunk_count(), 1); // sorter: longer "something" replaces shorter "hello"

    assert_emit_discard(&mut recv, emit, 32, 9, false, Some(b"something"));
    assert_eq!(recv.max_off(), 9);
    assert_eq!(recv.off_front(), 9);
    assert_eq!(recv.chunk_count(), 0);

    assert_emit_discard_done(&mut recv, emit);
}

#[test]
fn fully_overlapping_read3() {
    for emit in [true, false] {
        fully_overlapping_read3_with(emit);
    }
}

fn fully_overlapping_read3_with(emit: bool) {
    let mut recv =
        RecvBuf::new(u64::MAX, DEFAULT_STREAM_WINDOW, DEFAULT_STREAM_WINDOW);
    assert_eq!(recv.max_off(), 0);

    let first = RangeBuf::from(b"something", 0, false);
    let second = RangeBuf::from(b"hello", 3, false);

    assert!(recv.write(second).is_ok());
    assert_eq!(recv.max_off(), 8);
    assert_eq!(recv.off_front(), 0);
    assert_eq!(recv.chunk_count(), 1);

    assert!(recv.write(first).is_ok());
    assert_eq!(recv.max_off(), 9);
    assert_eq!(recv.off_front(), 0);
    assert_eq!(recv.chunk_count(), 1); // sorter: longer "something" replaces shorter "hello"

    assert_emit_discard(&mut recv, emit, 32, 9, false, Some(b"something"));
    assert_eq!(recv.max_off(), 9);
    assert_eq!(recv.off_front(), 9);
    assert_eq!(recv.chunk_count(), 0);

    assert_emit_discard_done(&mut recv, emit);
}

#[test]
fn fully_overlapping_read_multi() {
    for emit in [true, false] {
        fully_overlapping_read_multi_with(emit);
    }
}

fn fully_overlapping_read_multi_with(emit: bool) {
    let mut recv =
        RecvBuf::new(u64::MAX, DEFAULT_STREAM_WINDOW, DEFAULT_STREAM_WINDOW);
    assert_eq!(recv.max_off(), 0);

    let first = RangeBuf::from(b"somethingsomething", 0, false);
    let second = RangeBuf::from(b"hello", 3, false);
    let third = RangeBuf::from(b"hello", 12, false);

    assert!(recv.write(second).is_ok());
    assert_eq!(recv.max_off(), 8);
    assert_eq!(recv.off_front(), 0);
    assert_eq!(recv.chunk_count(), 1);

    assert!(recv.write(third).is_ok());
    assert_eq!(recv.max_off(), 17);
    assert_eq!(recv.off_front(), 0);
    assert_eq!(recv.chunk_count(), 2);

    assert!(recv.write(first).is_ok());
    assert_eq!(recv.max_off(), 18);
    assert_eq!(recv.off_front(), 0);
    assert_eq!(recv.chunk_count(), 1); // sorter: longer "somethingsomething" replaces both "hello" frames

    assert_emit_discard(
        &mut recv,
        emit,
        32,
        18,
        false,
        Some(b"somethingsomething"),
    );
    assert_eq!(recv.max_off(), 18);
    assert_eq!(recv.off_front(), 18);
    assert_eq!(recv.chunk_count(), 0);

    assert_emit_discard_done(&mut recv, emit);
}

#[test]
fn overlapping_start_read() {
    for emit in [true, false] {
        overlapping_start_read_with(emit);
    }
}

fn overlapping_start_read_with(emit: bool) {
    let mut recv =
        RecvBuf::new(u64::MAX, DEFAULT_STREAM_WINDOW, DEFAULT_STREAM_WINDOW);
    assert_eq!(recv.max_off(), 0);

    let first = RangeBuf::from(b"something", 0, false);
    let second = RangeBuf::from(b"hello", 8, true);

    assert!(recv.write(first).is_ok());
    assert_eq!(recv.max_off(), 9);
    assert_eq!(recv.off_front(), 0);
    assert_eq!(recv.chunk_count(), 1);

    assert!(recv.write(second).is_ok());
    assert_eq!(recv.max_off(), 13);
    assert_eq!(recv.off_front(), 0);
    assert_eq!(recv.chunk_count(), 2);

    assert_emit_discard(
        &mut recv,
        emit,
        32,
        13,
        true,
        Some(b"somethingello"),
    );

    assert_eq!(recv.max_off(), 13);
    assert_eq!(recv.off_front(), 13);

    assert_emit_discard_done(&mut recv, emit);
}

#[test]
fn overlapping_end_read() {
    for emit in [true, false] {
        overlapping_end_read_with(emit);
    }
}

fn overlapping_end_read_with(emit: bool) {
    let mut recv =
        RecvBuf::new(u64::MAX, DEFAULT_STREAM_WINDOW, DEFAULT_STREAM_WINDOW);
    assert_eq!(recv.max_off(), 0);

    let first = RangeBuf::from(b"hello", 0, false);
    let second = RangeBuf::from(b"something", 3, true);

    assert!(recv.write(second).is_ok());
    assert_eq!(recv.max_off(), 12);
    assert_eq!(recv.off_front(), 0);
    assert_eq!(recv.chunk_count(), 1);

    assert!(recv.write(first).is_ok());
    assert_eq!(recv.max_off(), 12);
    assert_eq!(recv.off_front(), 0);
    assert_eq!(recv.chunk_count(), 2);

    assert_emit_discard(&mut recv, emit, 32, 12, true, Some(b"helsomething"));
    assert_eq!(recv.max_off(), 12);
    assert_eq!(recv.off_front(), 12);

    assert_emit_discard_done(&mut recv, emit);
}

#[test]
fn overlapping_end_twice_read() {
    for emit in [true, false] {
        overlapping_end_twice_read_with(emit);
    }
}

fn overlapping_end_twice_read_with(emit: bool) {
    let mut recv =
        RecvBuf::new(u64::MAX, DEFAULT_STREAM_WINDOW, DEFAULT_STREAM_WINDOW);
    assert_eq!(recv.max_off(), 0);

    let first = RangeBuf::from(b"he", 0, false);
    let second = RangeBuf::from(b"ow", 4, false);
    let third = RangeBuf::from(b"rl", 7, false);
    let fourth = RangeBuf::from(b"helloworld", 0, true);

    assert!(recv.write(third).is_ok());
    assert_eq!(recv.max_off(), 9);
    assert_eq!(recv.off_front(), 0);
    assert_eq!(recv.chunk_count(), 1);

    assert!(recv.write(second).is_ok());
    assert_eq!(recv.max_off(), 9);
    assert_eq!(recv.off_front(), 0);
    assert_eq!(recv.chunk_count(), 2);

    assert!(recv.write(first).is_ok());
    assert_eq!(recv.max_off(), 9);
    assert_eq!(recv.off_front(), 0);
    assert_eq!(recv.chunk_count(), 3);

    assert!(recv.write(fourth).is_ok());
    assert_eq!(recv.max_off(), 10);
    assert_eq!(recv.off_front(), 0);
    assert_eq!(recv.chunk_count(), 1); // sorter: longer "helloworld" replaces "he", "ow", "rl"

    assert_emit_discard(&mut recv, emit, 32, 10, true, Some(b"helloworld"));
    assert_eq!(recv.max_off(), 10);
    assert_eq!(recv.off_front(), 10);

    assert_emit_discard_done(&mut recv, emit);
}

#[test]
fn overlapping_end_twice_and_contained_read() {
    for emit in [true, false] {
        overlapping_end_twice_and_contained_read_with(emit);
    }
}

fn overlapping_end_twice_and_contained_read_with(emit: bool) {
    let mut recv =
        RecvBuf::new(u64::MAX, DEFAULT_STREAM_WINDOW, DEFAULT_STREAM_WINDOW);
    assert_eq!(recv.max_off(), 0);

    let first = RangeBuf::from(b"hellow", 0, false);
    let second = RangeBuf::from(b"barfoo", 10, true);
    let third = RangeBuf::from(b"rl", 7, false);
    let fourth = RangeBuf::from(b"elloworldbarfoo", 1, true);

    assert!(recv.write(third).is_ok());
    assert_eq!(recv.max_off(), 9);
    assert_eq!(recv.off_front(), 0);
    assert_eq!(recv.chunk_count(), 1);

    assert!(recv.write(second).is_ok());
    assert_eq!(recv.max_off(), 16);
    assert_eq!(recv.off_front(), 0);
    assert_eq!(recv.chunk_count(), 2);

    assert!(recv.write(first).is_ok());
    assert_eq!(recv.max_off(), 16);
    assert_eq!(recv.off_front(), 0);
    assert_eq!(recv.chunk_count(), 3);

    assert!(recv.write(fourth).is_ok());
    assert_eq!(recv.max_off(), 16);
    assert_eq!(recv.off_front(), 0);
    assert_eq!(recv.chunk_count(), 2); // sorter: "elloworldbarfoo" trims to "orldbarfoo"@6; "hellow"@0 stays

    assert_emit_discard(
        &mut recv,
        emit,
        32,
        16,
        true,
        Some(b"helloworldbarfoo"),
    );
    assert_eq!(recv.max_off(), 16);
    assert_eq!(recv.off_front(), 16);

    assert_emit_discard_done(&mut recv, emit);
}

#[test]
fn partially_multi_overlapping_reordered_read() {
    for emit in [true, false] {
        partially_multi_overlapping_reordered_read_with(emit);
    }
}

fn partially_multi_overlapping_reordered_read_with(emit: bool) {
    let mut recv =
        RecvBuf::new(u64::MAX, DEFAULT_STREAM_WINDOW, DEFAULT_STREAM_WINDOW);
    assert_eq!(recv.max_off(), 0);

    let first = RangeBuf::from(b"hello", 8, false);
    let second = RangeBuf::from(b"something", 0, false);
    let third = RangeBuf::from(b"moar", 11, true);

    assert!(recv.write(first).is_ok());
    assert_eq!(recv.max_off(), 13);
    assert_eq!(recv.off_front(), 0);
    assert_eq!(recv.chunk_count(), 1);

    assert!(recv.write(second).is_ok());
    assert_eq!(recv.max_off(), 13);
    assert_eq!(recv.off_front(), 0);
    assert_eq!(recv.chunk_count(), 2);

    assert!(recv.write(third).is_ok());
    assert_eq!(recv.max_off(), 15);
    assert_eq!(recv.off_front(), 0);
    assert_eq!(recv.chunk_count(), 3);

    assert_emit_discard(
        &mut recv,
        emit,
        32,
        15,
        true,
        Some(b"somethinhelloar"),
    );
    assert_eq!(recv.max_off(), 15);
    assert_eq!(recv.off_front(), 15);
    assert_eq!(recv.chunk_count(), 0);

    assert_emit_discard_done(&mut recv, emit);
}

#[test]
fn partially_multi_overlapping_reordered_read2() {
    for emit in [true, false] {
        partially_multi_overlapping_reordered_read2_with(emit);
    }
}

fn partially_multi_overlapping_reordered_read2_with(emit: bool) {
    let mut recv =
        RecvBuf::new(u64::MAX, DEFAULT_STREAM_WINDOW, DEFAULT_STREAM_WINDOW);
    assert_eq!(recv.max_off(), 0);

    let first = RangeBuf::from(b"aaa", 0, false);
    let second = RangeBuf::from(b"bbb", 2, false);
    let third = RangeBuf::from(b"ccc", 4, false);
    let fourth = RangeBuf::from(b"ddd", 6, false);
    let fifth = RangeBuf::from(b"eee", 9, false);
    let sixth = RangeBuf::from(b"fff", 11, false);

    assert!(recv.write(second).is_ok());
    assert_eq!(recv.max_off(), 5);
    assert_eq!(recv.off_front(), 0);
    assert_eq!(recv.chunk_count(), 1);

    assert!(recv.write(fourth).is_ok());
    assert_eq!(recv.max_off(), 9);
    assert_eq!(recv.off_front(), 0);
    assert_eq!(recv.chunk_count(), 2);

    assert!(recv.write(third).is_ok());
    assert_eq!(recv.max_off(), 9);
    assert_eq!(recv.off_front(), 0);
    assert_eq!(recv.chunk_count(), 3);

    assert!(recv.write(first).is_ok());
    assert_eq!(recv.max_off(), 9);
    assert_eq!(recv.off_front(), 0);
    assert_eq!(recv.chunk_count(), 4);

    assert!(recv.write(sixth).is_ok());
    assert_eq!(recv.max_off(), 14);
    assert_eq!(recv.off_front(), 0);
    assert_eq!(recv.chunk_count(), 5);

    assert!(recv.write(fifth).is_ok());
    assert_eq!(recv.max_off(), 14);
    assert_eq!(recv.off_front(), 0);
    assert_eq!(recv.chunk_count(), 6);

    assert_emit_discard(
        &mut recv,
        emit,
        32,
        14,
        false,
        Some(b"aabbbcdddeefff"),
    );
    assert_eq!(recv.max_off(), 14);
    assert_eq!(recv.off_front(), 14);
    assert_eq!(recv.chunk_count(), 0);

    assert_emit_discard_done(&mut recv, emit);
}

#[test]
fn mixed_read_actions() {
    let mut recv =
        RecvBuf::new(u64::MAX, DEFAULT_STREAM_WINDOW, DEFAULT_STREAM_WINDOW);
    assert_eq!(recv.max_off(), 0);

    let first = RangeBuf::from(b"hello", 0, false);
    let second = RangeBuf::from(b"world", 5, false);
    let third = RangeBuf::from(b"something", 10, true);

    assert!(recv.write(second).is_ok());
    assert_eq!(recv.max_off(), 10);
    assert_eq!(recv.off_front(), 0);

    assert_emit_discard_done(&mut recv, true);
    assert_emit_discard_done(&mut recv, false);

    assert!(recv.write(third).is_ok());
    assert_eq!(recv.max_off(), 19);
    assert_eq!(recv.off_front(), 0);

    assert_emit_discard_done(&mut recv, true);
    assert_emit_discard_done(&mut recv, false);

    assert!(recv.write(first).is_ok());
    assert_eq!(recv.max_off(), 19);
    assert_eq!(recv.off_front(), 0);

    assert_emit_discard(&mut recv, true, 5, 5, false, Some(b"hello"));
    assert_eq!(recv.max_off(), 19);
    assert_eq!(recv.off_front(), 5);

    assert_emit_discard(&mut recv, false, 5, 5, false, None);
    assert_eq!(recv.max_off(), 19);
    assert_eq!(recv.off_front(), 10);

    assert_emit_discard(&mut recv, true, 9, 9, true, Some(b"something"));
    assert_eq!(recv.max_off(), 19);
    assert_eq!(recv.off_front(), 19);

    assert_emit_discard_done(&mut recv, true);
    assert_emit_discard_done(&mut recv, false);
}
