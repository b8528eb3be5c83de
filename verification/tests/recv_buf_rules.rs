use bytes::BytesMut;
use stream_reassembly::buffer::writer::storage::Bounded;
use stream_reassembly::stream::error::Error;
use stream_reassembly::stream::flowcontrol::FlowControl;
use stream_reassembly::stream::range_buf::RangeBuf;
use stream_reassembly::stream::recv_buf::RecvAction;
use stream_reassembly::stream::recv_buf::RecvBuf;
use stream_reassembly::stream::recv_buf::RecvBufResetReturn;
use stream_reassembly::stream::recv_buf::MAX_GAPS;

fn recv_buf() -> RecvBuf {
    RecvBuf::new(u64::MAX, 1024, 1024)
}

fn write(recv: &mut RecvBuf, data: &[u8], off: u64, fin: bool) -> Result<(), Error> {
    let buf = RangeBuf::from(data, off, fin);
    assert!(recv.has_room_for(&buf));
    recv.write(buf)
}

fn read_all(recv: &mut RecvBuf) -> Vec<u8> {
    let mut out = [0u8; 64];
    match recv.emit(&mut out) {
        Ok((len, _)) => out[..len].to_vec(),
        Err(_) => Vec::new(),
    }
}

#[test]
fn range_buf_tells_its_place() {
    let buf = RangeBuf::from(b"hello", 7, true);
    assert_eq!(buf.off(), 7);
    assert_eq!(buf.max_off(), 12);
    assert_eq!(buf.len(), 5);
    assert!(!buf.is_empty());
    assert!(buf.fin());
    assert_eq!(buf.as_slice(), b"hello");
    assert!(RangeBuf::from(b"", 7, false).is_empty());
}

#[test]
fn default_is_empty_and_closed() {
    let mut recv = RecvBuf::default();
    assert_eq!(recv.max_data(), 0);
    assert_eq!(recv.window(), 0);
    assert_eq!(recv.off_front(), 0);
    assert!(!recv.ready());
    assert!(!recv.is_fin());
    assert_eq!(write(&mut recv, b"a", 0, false), Err(Error::FlowControl));
}

#[test]
fn duplicate_behind_a_gap_is_kept_once() {
    let mut recv = recv_buf();
    assert!(write(&mut recv, b"world", 5, false).is_ok());
    assert!(write(&mut recv, b"world", 5, false).is_ok());
    assert_eq!(recv.chunk_count(), 1);
    assert!(write(&mut recv, b"hello", 0, false).is_ok());
    assert_eq!(recv.chunk_count(), 2);
    assert_eq!(read_all(&mut recv), b"helloworld");
}

#[test]
fn shorter_frame_does_not_replace() {
    let mut recv = recv_buf();
    assert!(write(&mut recv, b"world", 5, false).is_ok());
    assert!(write(&mut recv, b"WOR", 5, false).is_ok());
    assert!(write(&mut recv, b"hello", 0, false).is_ok());
    assert_eq!(read_all(&mut recv), b"helloworld");
}

#[test]
fn longer_frame_replaces() {
    let mut recv = recv_buf();
    assert!(write(&mut recv, b"wo", 5, false).is_ok());
    assert!(write(&mut recv, b"WORLD", 5, false).is_ok());
    assert_eq!(recv.chunk_count(), 1);
    assert!(write(&mut recv, b"hello", 0, false).is_ok());
    assert_eq!(read_all(&mut recv), b"helloWORLD");
}

#[test]
fn longer_frame_is_cut_where_a_chunk_reaches_further() {
    let mut recv = recv_buf();
    assert!(write(&mut recv, b"ab", 5, false).is_ok());
    assert!(write(&mut recv, b"cdefg", 7, false).is_ok());
    assert!(write(&mut recv, b"ABCD", 5, false).is_ok());
    assert_eq!(recv.chunk_count(), 2);
    assert!(write(&mut recv, b"01234", 0, false).is_ok());
    assert_eq!(read_all(&mut recv), b"01234ABcdefg");
}

#[test]
fn frame_over_several_gaps_replaces_what_lies_between() {
    let mut recv = recv_buf();
    for off in [2, 6, 10] {
        assert!(write(&mut recv, b"xx", off, false).is_ok());
    }
    assert_eq!(recv.chunk_count(), 3);
    assert!(write(&mut recv, b"bcdefghijk", 1, false).is_ok());
    // what was received before behind the last gap stays
    assert_eq!(recv.chunk_count(), 2);
    assert!(write(&mut recv, b"a", 0, false).is_ok());
    assert_eq!(read_all(&mut recv), b"abcdefghijxx");
}

#[test]
fn order_of_frames_does_not_matter() {
    let stream = b"0123456789abcdef";
    let frames: [(usize, usize); 4] = [(0, 5), (3, 9), (8, 12), (10, 16)];
    let orders: [[usize; 4]; 8] = [
        [0, 1, 2, 3],
        [3, 2, 1, 0],
        [1, 3, 0, 2],
        [2, 0, 3, 1],
        [0, 2, 1, 3],
        [3, 0, 2, 1],
        [1, 2, 3, 0],
        [2, 3, 0, 1],
    ];
    for order in orders {
        let mut recv = recv_buf();
        for i in order {
            let (from, to) = frames[i];
            assert!(write(&mut recv, &stream[from..to], from as u64, false).is_ok());
        }
        assert_eq!(recv.max_off(), 16);
        assert_eq!(read_all(&mut recv), stream);
    }
}

#[test]
fn reading_in_steps_gives_the_same() {
    for step in 1..8usize {
        let mut recv = recv_buf();
        assert!(write(&mut recv, b"hello", 0, false).is_ok());
        assert!(write(&mut recv, b"world", 5, true).is_ok());
        let mut all = Vec::new();
        let mut fin = false;
        while recv.ready() {
            let mut out = vec![0u8; step];
            let (len, done) = recv.emit(&mut out).unwrap();
            all.extend_from_slice(&out[..len]);
            fin = done;
        }
        assert_eq!(all, b"helloworld");
        assert!(fin);
        assert!(recv.is_fin());
    }
}

#[test]
fn emit_fills_the_front_of_the_slice_only() {
    let mut recv = recv_buf();
    assert!(write(&mut recv, b"abc", 0, false).is_ok());
    let mut out = [9u8; 6];
    assert_eq!(recv.emit(&mut out), Ok((3, false)));
    assert_eq!(&out, b"abc\x09\x09\x09");
    assert!(write(&mut recv, b"def", 3, false).is_ok());
    assert_eq!(recv.emit(&mut []), Ok((0, false)));
    assert_eq!(recv.off_front(), 3);
}

#[test]
fn nothing_is_read_across_a_gap() {
    let mut recv = recv_buf();
    assert!(write(&mut recv, b"abc", 0, false).is_ok());
    assert!(write(&mut recv, b"ghi", 6, false).is_ok());
    assert_eq!(read_all(&mut recv), b"abc");
    assert!(!recv.ready());
    assert!(write(&mut recv, b"def", 3, false).is_ok());
    assert_eq!(read_all(&mut recv), b"defghi");
}

#[test]
fn write_refuses() {
    let mut recv = RecvBuf::new(10, 1024, 1024);
    assert_eq!(write(&mut recv, b"12345678901", 0, false), Err(Error::FlowControl));
    assert_eq!(write(&mut recv, b"", 11, true), Err(Error::FlowControl));
    assert!(write(&mut recv, b"hello", 0, false).is_ok());
    // shorter than what was received
    assert_eq!(write(&mut recv, b"abc", 0, true), Err(Error::FinalSize));
    assert!(write(&mut recv, b"abc", 5, true).is_ok());
    // beyond the end, and another end
    assert_eq!(write(&mut recv, b"x", 8, false), Err(Error::FinalSize));
    assert_eq!(write(&mut recv, b"x", 6, true), Err(Error::FinalSize));
    // a refused frame changes nothing
    assert_eq!(recv.max_off(), 8);
    assert_eq!(recv.chunk_count(), 2);
    assert_eq!(read_all(&mut recv), b"helloabc");
    assert!(recv.is_fin());
}

#[test]
fn reset_is_told_once() {
    let mut recv = recv_buf();
    assert!(write(&mut recv, b"hello", 0, false).is_ok());
    assert_eq!(read_all(&mut recv), b"hello");
    assert!(write(&mut recv, b"world", 7, false).is_ok());
    assert_eq!(
        recv.reset(42, 20),
        Ok(RecvBufResetReturn {
            max_data_delta: 8,
            consumed_flowcontrol: 15,
        })
    );
    assert!(recv.ready());
    assert!(recv.is_fin());
    // data that still comes in is checked and not kept
    assert!(write(&mut recv, b"aa", 5, false).is_ok());
    assert!(write(&mut recv, b"aaaaaaaaaaaaa", 7, true).is_ok());
    assert_eq!(write(&mut recv, b"a", 20, false), Err(Error::FinalSize));
    assert_eq!(recv.chunk_count(), 1);
    // so is another reset
    assert_eq!(recv.reset(43, 20), Ok(RecvBufResetReturn::zero()));
    assert_eq!(recv.reset(43, 21), Err(Error::FinalSize));

    let mut out = [0u8; 8];
    assert_eq!(recv.emit(&mut out), Err(Error::StreamReset(42)));
    assert_eq!(recv.emit(&mut out), Err(Error::Done));
    assert!(!recv.ready());
}

#[test]
fn reset_refuses() {
    let mut recv = RecvBuf::new(10, 1024, 1024);
    assert!(write(&mut recv, b"hello", 0, false).is_ok());
    assert_eq!(recv.reset(1, 4), Err(Error::FinalSize));
    assert_eq!(recv.reset(1, 11), Err(Error::FlowControl));
    assert!(write(&mut recv, b"abc", 5, true).is_ok());
    assert_eq!(recv.reset(1, 9), Err(Error::FinalSize));
    // a refused reset changes nothing
    assert_eq!(read_all(&mut recv), b"helloabc");
    assert_eq!(
        recv.reset(1, 8),
        Ok(RecvBufResetReturn {
            max_data_delta: 0,
            consumed_flowcontrol: 0,
        })
    );
}

#[test]
fn reset_after_shutdown_is_not_told() {
    let mut recv = recv_buf();
    assert!(write(&mut recv, b"hello", 0, false).is_ok());
    assert_eq!(recv.shutdown(), Ok(5));
    assert!(recv.is_draining());
    assert_eq!(recv.shutdown(), Err(Error::Done));
    assert_eq!(
        recv.reset(1, 9),
        Ok(RecvBufResetReturn {
            max_data_delta: 4,
            consumed_flowcontrol: 4,
        })
    );
    assert!(!recv.ready());
    let mut out = [0u8; 8];
    assert_eq!(recv.emit(&mut out), Err(Error::Done));
}

#[test]
fn shutdown_after_reset_clears_the_notice() {
    let mut recv = recv_buf();
    assert!(recv.reset(1, 9).is_ok());
    assert!(recv.ready());
    assert_eq!(recv.shutdown(), Ok(0));
    assert!(!recv.ready());
}

#[test]
fn empty_fin_is_told_once() {
    let mut recv = recv_buf();
    assert!(write(&mut recv, b"hello", 0, false).is_ok());
    assert_eq!(read_all(&mut recv), b"hello");
    assert!(write(&mut recv, b"", 5, true).is_ok());
    assert!(recv.ready());
    let mut out = [0u8; 8];
    assert_eq!(recv.emit(&mut out), Ok((0, true)));
    assert_eq!(recv.emit(&mut out), Err(Error::Done));
}

#[test]
fn empty_fin_behind_missing_data_is_not_readable() {
    let mut recv = recv_buf();
    assert!(write(&mut recv, b"", 5, true).is_ok());
    assert_eq!(recv.max_off(), 5);
    assert!(!recv.ready());
    let mut out = [0u8; 8];
    assert_eq!(recv.emit(&mut out), Err(Error::Done));
    assert!(write(&mut recv, b"hello", 0, false).is_ok());
    assert_eq!(recv.emit(&mut out), Ok((5, true)));
    assert_eq!(&out[..5], b"hello");
}

#[test]
fn discard_counts_as_read() {
    let mut recv = RecvBuf::new(10, 10, 10);
    assert!(write(&mut recv, b"0123456789", 0, false).is_ok());
    assert_eq!(recv.max_data_next(), 10);
    let action: RecvAction<Bounded> = RecvAction::Discard { len: 4 };
    assert_eq!(recv.emit_or_discard(action), Ok((4, false)));
    assert_eq!(recv.max_data_next(), 14);
    let mut out = Bounded::new(BytesMut::from(&b">"[..]), 3);
    assert_eq!(
        recv.emit_or_discard(RecvAction::Emit { out: &mut out }),
        Ok((3, false))
    );
    assert_eq!(out.as_slice(), b">456");
    assert_eq!(recv.max_data_next(), 17);
}

#[test]
fn flow_control_limit_is_raised() {
    let mut recv = RecvBuf::new(10, 10, 16);
    assert!(!recv.almost_full());
    assert!(write(&mut recv, b"0123456789", 0, false).is_ok());
    assert_eq!(read_all(&mut recv), b"0123456789");
    assert!(recv.almost_full());
    assert_eq!(recv.max_data(), 10);
    recv.update_max_data(1_000);
    assert_eq!(recv.max_data(), 20);
    assert!(!recv.almost_full());
    assert_eq!(recv.window(), 10);
    recv.autotune_window(1_500, 250);
    assert_eq!(recv.window(), 10);
    recv.autotune_window(1_499, 250);
    assert_eq!(recv.window(), 16);
    // once the end is known there is nothing to be raised
    assert!(write(&mut recv, b"0123456789", 10, true).is_ok());
    assert_eq!(read_all(&mut recv), b"0123456789");
    assert!(!recv.almost_full());
}

#[test]
fn flow_controller_by_itself() {
    let mut flow = FlowControl::new(100, 20, 50);
    flow.add_consumed(90);
    assert!(!flow.should_update_max_data());
    flow.add_consumed(1);
    assert!(flow.should_update_max_data());
    assert_eq!(flow.max_data_next(), 111);
    flow.autotune_window(5, 1_000);
    assert_eq!(flow.window(), 20);
    flow.update_max_data(5);
    assert_eq!(flow.max_data(), 111);
    flow.autotune_window(5, 1);
    assert_eq!(flow.window(), 40);
    flow.autotune_window(5, 1);
    assert_eq!(flow.window(), 50);
    flow.autotune_window(5, 0);
    assert_eq!(flow.window(), 50);
}

#[test]
fn number_of_gaps_is_bounded() {
    let mut recv = recv_buf();
    let mut off = 1u64;
    let mut gaps = 1;
    while gaps < MAX_GAPS {
        assert!(write(&mut recv, b"x", off, false).is_ok());
        off += 2;
        gaps += 1;
    }
    // one more would split a gap
    assert!(!recv.has_room_for(&RangeBuf::from(b"x", off, false)));
    // this one closes one
    assert!(write(&mut recv, b"y", 2, false).is_ok());
    assert!(write(&mut recv, b"x", off, false).is_ok());
    assert!(!recv.has_room_for(&RangeBuf::from(b"x", off + 2, false)));
    // what is refused takes no room
    assert!(write(&mut recv, b"", off + 9, true).is_ok());
    assert!(recv.has_room_for(&RangeBuf::from(b"x", off + 20, false)));
    assert_eq!(write(&mut recv, b"x", off + 20, false), Err(Error::FinalSize));
}

#[test]
fn last_offset_has_no_room() {
    let recv = recv_buf();
    assert!(!recv.has_room_for(&RangeBuf::from(b"x", u64::MAX - 1, false)));
    assert!(recv.has_room_for(&RangeBuf::from(b"x", u64::MAX - 2, false)));
}

#[test]
fn many_small_frames_backwards() {
    let stream: Vec<u8> = (0..200u8).collect();
    let mut recv = recv_buf();
    let mut off = 200usize;
    while off > 0 {
        off -= 1;
        let end = (off + 3).min(200);
        assert!(write(&mut recv, &stream[off..end], off as u64, false).is_ok());
    }
    let mut out = [0u8; 256];
    assert_eq!(recv.emit(&mut out), Ok((200, false)));
    assert_eq!(&out[..200], &stream[..]);
}

#[test]
fn writing_a_frame_again_changes_nothing() {
    for (data, off, fin) in
        [(&b"efgh"[..], 4, false), (&b"abcdef"[..], 0, false), (&b"gh"[..], 6, true), (&b""[..], 6, true)]
    {
        let mut recv = recv_buf();
        assert!(write(&mut recv, b"cd", 2, false).is_ok());
        assert!(write(&mut recv, data, off, fin).is_ok());
        let seen = (recv.off_front(), recv.max_off(), recv.ready(), recv.is_fin());
        let chunks = recv.chunk_count();
        assert_eq!(write(&mut recv, data, off, fin), Ok(()));
        assert_eq!((recv.off_front(), recv.max_off(), recv.ready(), recv.is_fin()), seen);
        assert_eq!(recv.chunk_count(), chunks);
    }
}

#[test]
fn offsets_never_go_back() {
    let mut recv = recv_buf();
    assert!(write(&mut recv, b"abcdef", 0, false).is_ok());
    assert_eq!(read_all(&mut recv), b"abcdef");
    assert!(write(&mut recv, b"abc", 0, false).is_ok());
    assert_eq!((recv.off_front(), recv.max_off()), (6, 6));
    assert!(write(&mut recv, b"gh", 6, true).is_ok());
    assert_eq!((recv.off_front(), recv.max_off()), (6, 8));
    // the final size is known
    assert_eq!(write(&mut recv, b"i", 8, false), Err(Error::FinalSize));
    assert_eq!(write(&mut recv, b"g", 6, true), Err(Error::FinalSize));
    assert_eq!((recv.off_front(), recv.max_off()), (6, 8));
    assert!(recv.shutdown().is_ok());
    assert_eq!((recv.off_front(), recv.max_off()), (8, 8));
}
