use bytes::BytesMut;
use stream_reassembly::buffer::reader::Reader;
use stream_reassembly::buffer::reader::Storage;
use stream_reassembly::buffer::reassembler::request::Request;
use stream_reassembly::buffer::reassembler::request::RequestLen;
use stream_reassembly::buffer::reassembler::slot::Slot;
use stream_reassembly::buffer::writer::storage::Bounded;
use stream_reassembly::varint::VarInt;

fn at(offset: u32) -> VarInt {
    VarInt::from_u32(offset)
}

fn request(offset: u32, data: &[u8]) -> Request<'_> {
    Request::new(at(offset), data, false).unwrap()
}

fn slot(start: u64, end: u64) -> Slot {
    Slot::new(start, end, BytesMut::with_capacity((end - start) as usize))
}

fn write(slot: &mut Slot, offset: u32, data: &[u8]) -> (Option<Slot>, bool, usize) {
    let mut filled = false;
    let mut reader = request(offset, data);
    let split = slot.try_write_reader(&mut reader, &mut filled).unwrap();
    (split, filled, reader.buffered_len())
}

#[test]
fn new_slots() {
    let data = Slot::new(10, 20, BytesMut::from(&b"abc"[..]));
    assert_eq!((data.start(), data.end(), data.end_allocated()), (10, 13, 20));
    assert_eq!(data.as_slice(), b"abc");
    assert!(!data.is_empty() && !data.is_full() && !data.should_drop());
    assert!(data.is_occupied(10) && !data.is_occupied(11));

    let empty = Slot::new_virtual(10, 20);
    assert_eq!((empty.start(), empty.end(), empty.end_allocated()), (10, 10, 20));
    assert!(empty.is_empty() && !empty.is_occupied(10));

    let zeroes = Slot::from_len(10, 4);
    assert_eq!((zeroes.start(), zeroes.end(), zeroes.end_allocated()), (10, 14, 14));
    assert_eq!(zeroes.as_slice(), &[0u8; 4]);
    assert!(zeroes.is_full());
    assert_eq!(zeroes, Slot::from_len(10, 4));
    assert_ne!(zeroes, Slot::from_len(11, 4));
}

#[test]
fn data_in_order_is_appended() {
    let mut slot = slot(0, 8);
    let (split, filled, left) = write(&mut slot, 0, b"hello");
    assert!(split.is_none());
    assert!(!filled);
    assert_eq!(left, 0);
    assert_eq!(slot.as_slice(), b"hello");

    // what is held already is skipped
    let (split, filled, left) = write(&mut slot, 3, b"LOwo");
    assert!(split.is_none());
    assert!(!filled);
    assert_eq!(left, 0);
    assert_eq!(slot.as_slice(), b"hellowo");

    // what does not fit stays with the reader
    let (split, filled, left) = write(&mut slot, 7, b"rld");
    assert!(split.is_none());
    assert!(filled);
    assert_eq!(left, 2);
    assert_eq!(slot.as_slice(), b"hellowor");
    assert!(slot.is_full());

    // nothing fits any more
    let (split, filled, left) = write(&mut slot, 6, b"ORld");
    assert!(split.is_none());
    assert!(!filled);
    assert_eq!(left, 2);
    assert_eq!(slot.as_slice(), b"hellowor");

    // all of it was there before
    let (split, filled, left) = write(&mut slot, 2, b"ll");
    assert!(split.is_none());
    assert!(!filled);
    assert_eq!(left, 0);
}

#[test]
fn data_behind_the_slot_is_left_alone() {
    let mut slot = slot(0, 8);
    let (split, filled, left) = write(&mut slot, 8, b"abc");
    assert!(split.is_none());
    assert!(!filled);
    assert_eq!(left, 3);
    assert!(slot.is_empty());
}

#[test]
fn data_out_of_order_splits_and_joins_again() {
    let mut front = slot(0, 8);
    assert!(write(&mut front, 0, b"aa").0.is_none());
    let (split, filled, left) = write(&mut front, 4, b"cccccc");
    let back = split.unwrap();
    assert!(filled);
    assert_eq!(left, 2);
    assert_eq!((front.start(), front.end(), front.end_allocated()), (0, 2, 4));
    assert_eq!((back.start(), back.end(), back.end_allocated()), (4, 8, 8));
    assert_eq!(front.as_slice(), b"aa");
    assert_eq!(back.as_slice(), b"cccc");

    let (split, filled, left) = write(&mut front, 2, b"bbBB");
    assert!(split.is_none());
    assert!(filled);
    assert_eq!(left, 2);
    assert!(front.can_unsplit(&back));
    front.unsplit(back);
    assert_eq!((front.start(), front.end(), front.end_allocated()), (0, 8, 8));
    assert_eq!(front.as_slice(), b"aabbcccc");
}

#[test]
fn apart_in_memory_is_not_joined_for_free() {
    let front = Slot::new(0, 2, BytesMut::from(&b"aa"[..]));
    let back = Slot::new(2, 4, BytesMut::from(&b"bb"[..]));
    assert!(front.can_unsplit_if(&back, true));
    assert!(!front.can_unsplit_if(&back, false));
    let zeroes = Slot::from_len(2, 2);
    assert!(!front.can_unsplit(&zeroes));
    assert!(!zeroes.can_unsplit(&front));
    assert!(zeroes.can_unsplit(&Slot::from_len(4, 2)));
    // joining works all the same
    let mut front = front;
    front.unsplit(back);
    assert_eq!(front.as_slice(), b"aabb");
}

#[test]
fn counting_slots() {
    let mut slot = Slot::new_virtual(0, 100);
    let mut filled = false;
    let mut reader = RequestLen::new(at(0), 10, false).unwrap();
    assert!(slot.try_write_reader(&mut reader, &mut filled).unwrap().is_none());
    assert!(!filled);
    assert!(reader.buffer_is_empty());
    assert_eq!(reader.current_offset(), at(10));
    assert_eq!(slot.end(), 10);

    let mut reader = RequestLen::new(at(50), 60, false).unwrap();
    let back = slot.try_write_reader(&mut reader, &mut filled).unwrap().unwrap();
    assert!(filled);
    assert_eq!(reader.buffered_len(), 10);
    assert_eq!((back.start(), back.end(), back.end_allocated()), (50, 100, 100));
    assert_eq!(slot.end_allocated(), 50);
    assert_eq!(back.as_slice(), &[0u8; 50][..]);

    let mut filled = false;
    let mut reader = RequestLen::new(at(10), 40, false).unwrap();
    assert!(slot.try_write_reader(&mut reader, &mut filled).unwrap().is_none());
    assert!(filled);
    assert!(slot.can_unsplit(&back));
    slot.unsplit(back);
    assert_eq!((slot.start(), slot.end(), slot.end_allocated()), (0, 100, 100));
}

#[test]
fn counting_slot_gets_real_data() {
    let mut slot = Slot::from_len(0, 4);
    slot.skip(1);
    let mut slot = {
        let mut wide = Slot::new_virtual(0, 8);
        let mut filled = false;
        let mut zeroes = RequestLen::new(at(0), 3, false).unwrap();
        wide.try_write_reader(&mut zeroes, &mut filled).unwrap();
        assert_eq!(slot.as_slice(), &[0u8; 3]);
        wide
    };
    let (split, filled, _) = write(&mut slot, 3, b"ab");
    assert!(split.is_none());
    assert!(!filled);
    assert_eq!(slot.as_slice(), b"\0\0\0ab");
    let (split, filled, _) = write(&mut slot, 6, b"c");
    assert!(!filled);
    assert_eq!(split.unwrap().as_slice(), b"c");
}

#[test]
fn consuming() {
    let mut slot = Slot::new(10, 20, BytesMut::from(&b"abcdef"[..]));
    assert_eq!(slot.consume_len(2), 2);
    assert_eq!((slot.start(), slot.as_slice()), (12, &b"cdef"[..]));
    assert_eq!(slot.consume_len(9), 4);
    assert_eq!((slot.start(), slot.as_slice()), (16, &b""[..]));

    let mut slot = Slot::new(10, 20, BytesMut::from(&b"abcdef"[..]));
    assert_eq!(&slot.consume()[..], b"abcdef");
    assert!(slot.should_drop() && slot.is_empty());

    let mut slot = Slot::new(10, 20, BytesMut::from(&b"abcdef"[..]));
    assert_eq!(slot.consume_all_buffered(), 6);
    assert!(slot.should_drop() && slot.is_empty());

    let mut zeroes = Slot::from_len(10, 3);
    assert_eq!(zeroes.consume_len(1), 1);
    assert_eq!(&zeroes.consume()[..], b"\0\0");
    assert!(zeroes.should_drop());
    let mut zeroes = Slot::from_len(10, 3);
    assert_eq!(zeroes.consume_all_buffered(), 3);
    assert!(zeroes.should_drop());
}

#[test]
fn skipping() {
    let mut slot = Slot::new(10, 20, BytesMut::from(&b"abcdef"[..]));
    slot.skip(2);
    assert_eq!((slot.start(), slot.as_slice()), (12, &b"cdef"[..]));
    // past what was received
    slot.skip(6);
    assert_eq!((slot.start(), slot.end(), slot.as_slice()), (18, 18, &b""[..]));
    let (split, filled, left) = write(&mut slot, 18, b"xyz");
    assert!(split.is_none());
    assert!(filled);
    assert_eq!(left, 1);
    assert_eq!(slot.as_slice(), b"xy");

    let mut zeroes = Slot::from_len(10, 6);
    zeroes.skip(4);
    assert_eq!((zeroes.start(), zeroes.as_slice()), (14, &b"\0\0"[..]));
}

#[test]
fn slot_as_reader() {
    let mut slot = Slot::new(10, 20, BytesMut::from(&b"abcdef"[..]));
    assert_eq!(slot.current_offset(), at(10));
    assert_eq!(slot.final_offset(), Some(at(20)));
    assert!(!slot.has_buffered_fin());
    assert!(!slot.is_virtually_buffered());
    assert_eq!(slot.read_chunk(2).unwrap().as_slice(), b"ab");
    assert_eq!(slot.current_offset(), at(12));
    let mut out = Bounded::new(BytesMut::new(), 3);
    slot.copy_into(&mut out).unwrap();
    assert_eq!(out.as_slice(), b"cde");
    let chunk = slot.partial_copy_into(&mut Bounded::new(BytesMut::new(), 9)).unwrap();
    assert_eq!(chunk.as_slice(), b"f");
    slot.skip_until(at(18)).unwrap();
    assert_eq!(slot.current_offset(), at(18));
    slot.skip_until(at(11)).unwrap();
    assert_eq!(slot.current_offset(), at(18));
    slot.skip_until(at(99)).unwrap();
    assert!(slot.should_drop());
    assert!(slot.is_consumed());

    let mut zeroes = Slot::from_len(10, 6);
    assert!(zeroes.has_buffered_fin());
    assert_eq!(zeroes.read_chunk(2).unwrap().as_slice(), b"\0\0");
    let mut out = Bounded::new(BytesMut::new(), 3);
    zeroes.copy_into(&mut out).unwrap();
    assert_eq!(out.as_slice(), b"\0\0\0");
    assert_eq!(zeroes.read_chunk(9).unwrap().as_slice(), b"\0");
    assert!(zeroes.read_chunk(9).unwrap().is_empty());
}
