use bytes::Bytes;
use bytes::BytesMut;
use core::convert::Infallible;
use std::collections::VecDeque;
use stream_reassembly::buffer::chunk::Chunk;
use stream_reassembly::buffer::duplex::interposer::Interposer;
use stream_reassembly::buffer::duplex::Skip;
use stream_reassembly::buffer::error::Error;
use stream_reassembly::buffer::error::Refusal;
use stream_reassembly::buffer::reader::complete::Complete;
use stream_reassembly::buffer::reader::empty::Empty;
use stream_reassembly::buffer::reader::limit::Limit;
use stream_reassembly::buffer::reader::storage::Buffered;
use stream_reassembly::buffer::reader::Reader;
use stream_reassembly::buffer::reader::Storage;
use stream_reassembly::buffer::reassembler::probe;
use stream_reassembly::buffer::reassembler::request::Request;
use stream_reassembly::buffer::reassembler::request::RequestLen;
use stream_reassembly::buffer::reassembler::slot::Slot;
use stream_reassembly::buffer::reassembler::Reassembler;
use stream_reassembly::buffer::writer::storage::Bounded;
use stream_reassembly::buffer::writer::storage::Space;
use stream_reassembly::buffer::writer::write_once::WriteOnce;
use stream_reassembly::buffer::writer::Storage as WriterStorage;
use stream_reassembly::buffer::writer::Writer;
use stream_reassembly::buffer::zero::zeroes;
use stream_reassembly::varint::VarInt;

fn at(offset: u32) -> VarInt {
    VarInt::from_u32(offset)
}

fn bounded(limit: usize) -> Bounded {
    Bounded::new(BytesMut::new(), limit)
}

#[test]
fn bounded_storage() {
    let mut out = Bounded::new(BytesMut::from(&b">"[..]), 10);
    assert!(!Bounded::specializes_bytes() && !Bounded::specializes_bytes_mut());
    out.put_slice(b"ab");
    out.put_bytes(Bytes::copy_from_slice(b"cd"));
    out.put_bytes_mut(BytesMut::from(&b"ef"[..]));
    out.put_chunk(Chunk::Slice(b"g"));
    assert_eq!(out.remaining_capacity(), 3);
    assert!(out.has_remaining_capacity());
    let done: Result<bool, ()> = out.put_uninit_slice(2, |bytes| {
        assert_eq!(bytes.len(), 2);
        bytes[0] = b'h';
        bytes[1] = b'H';
        Ok(())
    });
    assert_eq!(done, Ok(true));
    let failed: Result<bool, &str> = out.put_uninit_slice(1, |_| Err("no"));
    assert_eq!(failed, Err("no"));
    out.put_slice(b"i");
    assert!(!out.has_remaining_capacity());
    assert_eq!(out.as_slice(), b">abcdefghHi");
    assert_eq!(&out.into_inner()[..], b">abcdefghHi");
}

#[test]
fn chunks() {
    for chunk in [
        Chunk::Slice(b"abc"),
        Chunk::Shared(Bytes::copy_from_slice(b"abc")),
        Chunk::Owned(BytesMut::from(&b"abc"[..])),
    ] {
        assert_eq!(chunk.as_slice(), b"abc");
        assert_eq!(chunk.len(), 3);
        assert!(!chunk.is_empty());
    }
    assert!(Chunk::empty().is_empty());
    assert_eq!(zeroes(3), b"\0\0\0");
}

#[test]
fn write_once_takes_one_write() {
    let mut out = bounded(10);
    {
        let mut once = WriteOnce::new(&mut out);
        assert_eq!(once.remaining_capacity(), 10);
        once.put_slice(b"");
        assert!(once.has_remaining_capacity());
        once.put_slice(b"abc");
        assert_eq!(once.remaining_capacity(), 0);
        assert!(!once.has_remaining_capacity());
    }
    assert_eq!(out.as_slice(), b"abc");
    assert_eq!(out.remaining_capacity(), 7);
    {
        let mut once = WriteOnce::new(&mut out);
        once.put_bytes(Bytes::copy_from_slice(b"d"));
        assert!(!once.has_remaining_capacity());
    }
    {
        let mut once = WriteOnce::new(&mut out);
        once.put_bytes_mut(BytesMut::from(&b"e"[..]));
        assert!(!once.has_remaining_capacity());
    }
    {
        let mut once = WriteOnce::new(&mut out);
        once.put_chunk(Chunk::Slice(b"f"));
        assert!(!once.has_remaining_capacity());
    }
    {
        let mut once = WriteOnce::new(&mut out);
        let none: Result<bool, ()> = once.put_uninit_slice(0, |_| Ok(()));
        assert_eq!(none, Ok(true));
        assert!(once.has_remaining_capacity());
        let failed: Result<bool, ()> = once.put_uninit_slice(1, |_| Err(()));
        assert_eq!(failed, Err(()));
        assert!(once.has_remaining_capacity());
        let done: Result<bool, ()> = once.put_uninit_slice(1, |bytes| {
            bytes[0] = b'g';
            Ok(())
        });
        assert_eq!(done, Ok(true));
        assert!(!once.has_remaining_capacity());
    }
    assert_eq!(out.as_slice(), b"abcdefg");
}

#[test]
fn write_once_stops_a_copy() {
    let mut out = bounded(10);
    let mut reader = Request::new(at(0), b"hello", false).unwrap();
    let mut limit = Limit::new(&mut reader, 3);
    let mut once = WriteOnce::new(&mut out);
    limit.copy_into(&mut once).unwrap();
    limit.copy_into(&mut once).unwrap();
    assert_eq!(out.as_slice(), b"hel");
    assert_eq!(reader.buffered_len(), 2);
}

#[test]
fn requests() {
    let mut req = Request::new(at(5), b"hello", true).unwrap();
    assert_eq!(req.current_offset(), at(5));
    assert_eq!(req.final_offset(), Some(at(10)));
    assert!(req.has_buffered_fin());
    assert!(!req.is_consumed());
    assert!(!req.is_virtually_buffered());
    assert_eq!(req.read_chunk(2).unwrap().as_slice(), b"he");
    assert_eq!(req.current_offset(), at(7));
    assert_eq!(req.final_offset(), Some(at(10)));
    let mut out = bounded(1);
    req.copy_into(&mut out).unwrap();
    assert_eq!(out.as_slice(), b"l");
    assert_eq!(req.partial_copy_into(&mut bounded(9)).unwrap().as_slice(), b"lo");
    assert!(req.is_consumed());
    assert!(req.buffer_is_empty());
    assert_eq!(Request::new(at(5), b"", false).unwrap().final_offset(), None);
    assert!(matches!(
        Request::new(VarInt::max_value(), b"x", false),
        Err(Error::OutOfRange)
    ));
    assert!(Request::new(VarInt::max_value(), b"", true).is_ok());
}

#[test]
fn requests_for_zeroes() {
    let mut req = RequestLen::new(at(5), 200_000, true).unwrap();
    assert!(req.is_virtually_buffered());
    assert_eq!(req.final_offset(), Some(at(200_005)));
    assert_eq!(req.read_chunk(usize::MAX).unwrap().len(), 65_536);
    assert_eq!(req.current_offset(), at(65_541));
    assert_eq!(req.read_chunk(0).unwrap().len(), 0);
    let mut out = bounded(70_000);
    req.copy_into(&mut out).unwrap();
    assert_eq!(out.as_slice(), &vec![0u8; 70_000][..]);
    let mut out = bounded(100_000);
    let left = req.buffered_len();
    assert_eq!(left, 64_464);
    assert_eq!(req.partial_copy_into(&mut out).unwrap().len(), left);
    assert!(out.as_slice().is_empty());
    assert!(req.is_consumed());
    assert!(matches!(
        RequestLen::new(VarInt::max_value(), 1, false),
        Err(Error::OutOfRange)
    ));

    let mut req = RequestLen::new(at(0), 70_000, false).unwrap();
    let mut out = bounded(70_000);
    let last = req.partial_copy_into(&mut out).unwrap().len();
    assert_eq!(last, 65_536);
    assert_eq!(out.as_slice().len() + last, 70_000);
}

#[test]
fn skipping_a_request() {
    let mut req = Request::new(at(5), b"hello", true).unwrap();
    req.skip_until(at(3)).unwrap();
    assert_eq!(req.current_offset(), at(5));
    req.skip_until(at(8)).unwrap();
    assert_eq!(req.current_offset(), at(8));
    assert_eq!(req.buffered_len(), 2);
    req.skip_until(at(100)).unwrap();
    assert_eq!(req.current_offset(), at(10));
    assert!(req.is_consumed());
}

#[test]
fn complete_streams() {
    let mut data = BytesMut::from(&b"hello"[..]);
    let mut reader = Complete::new(&mut data).unwrap();
    assert_eq!(reader.current_offset(), at(0));
    assert_eq!(reader.final_offset(), Some(at(5)));
    assert!(reader.has_buffered_fin());
    assert_eq!(reader.read_chunk(2).unwrap().as_slice(), b"he");
    assert_eq!(reader.current_offset(), at(2));
    let mut out = bounded(1);
    reader.copy_into(&mut out).unwrap();
    assert_eq!(out.as_slice(), b"l");
    assert_eq!(reader.current_offset(), at(3));
    assert_eq!(reader.partial_copy_into(&mut bounded(1)).unwrap().as_slice(), b"l");
    assert_eq!(reader.current_offset(), at(4));
    assert!(!reader.is_virtually_buffered());
    assert!(!reader.is_consumed());
    reader.skip_until(at(5)).unwrap();
    assert!(reader.is_consumed());
    assert!(reader.buffer_is_empty());
    assert!(data.is_empty());

    let mut slice: &[u8] = b"hello";
    let mut reader = Complete::new(&mut slice).unwrap();
    assert_eq!(reader.buffered_len(), 5);
    assert_eq!(reader.read_chunk(9).unwrap().as_slice(), b"hello");
    assert!(slice.is_empty());
}

#[test]
fn empty_readers() {
    let inner = Request::new(at(5), b"hello", true).unwrap();
    let mut empty = Empty::new(&inner);
    assert_eq!(empty.current_offset(), at(5));
    assert_eq!(empty.final_offset(), Some(at(10)));
    assert_eq!(empty.buffered_len(), 0);
    assert!(empty.buffer_is_empty());
    assert!(!empty.has_buffered_fin());
    assert!(!empty.is_virtually_buffered());
    assert!(empty.read_chunk(9).unwrap().is_empty());
    let mut out = bounded(9);
    assert!(empty.partial_copy_into(&mut out).unwrap().is_empty());
    empty.copy_into(&mut out).unwrap();
    assert!(out.as_slice().is_empty());
    assert_eq!(inner.buffered_len(), 5);
    assert!(format!("{:?}", Empty::new(&inner)).starts_with("Empty"));
    let zeroes = RequestLen::new(at(0), 1, false).unwrap();
    assert!(Empty::new(&zeroes).is_virtually_buffered());
}

#[test]
fn limited_readers() {
    let mut reader = Request::new(at(5), b"helloworld", true).unwrap();
    {
        let mut limit = Limit::new(&mut reader, 7);
        assert_eq!(limit.buffered_len(), 7);
        assert_eq!(limit.current_offset(), at(5));
        assert_eq!(limit.final_offset(), Some(at(15)));
        assert!(!limit.has_buffered_fin());
        assert!(!limit.is_virtually_buffered());
        assert_eq!(limit.read_chunk(2).unwrap().as_slice(), b"he");
        assert_eq!(limit.buffered_len(), 5);
        let mut out = bounded(2);
        limit.copy_into(&mut out).unwrap();
        assert_eq!(out.as_slice(), b"ll");
        let mut out = bounded(20);
        // the chunk is the reader's own
        let chunk = limit.partial_copy_into(&mut out).unwrap();
        assert_eq!(chunk.as_slice(), b"owo");
        assert!(out.as_slice().is_empty());
        assert!(limit.buffer_is_empty());
        assert!(limit.read_chunk(9).unwrap().is_empty());
    }
    assert_eq!(reader.current_offset(), at(12));
    assert_eq!(reader.read_chunk(99).unwrap().as_slice(), b"rld");

    let mut reader = Request::new(at(5), b"hello", true).unwrap();
    let limit = Limit::new(&mut reader, 99);
    assert_eq!(limit.buffered_len(), 5);
    assert!(limit.has_buffered_fin());
}

fn slots(list: Vec<Slot>) -> VecDeque<Slot> {
    list.into_iter().collect()
}

fn data_slot(start: u64, end: u64, data: &[u8]) -> Slot {
    Slot::new(start, end, BytesMut::from(data))
}

#[test]
fn reassembler_reads_up_to_the_gap() {
    let mut buf = Reassembler::from_slots(
        slots(vec![
            data_slot(5, 8, b"abc"),
            Slot::from_len(8, 2),
            data_slot(10, 16, b"def"),
            data_slot(16, 20, b"xyz"),
        ]),
        5,
        None,
    );
    assert_eq!(buf.len(), 8);
    assert!(!buf.is_empty());
    assert_eq!(buf.current_offset(), at(5));
    assert_eq!(buf.final_offset(), None);
    assert_eq!(buf.final_size(), None);
    // a chunk does not reach over two slots
    assert_eq!(buf.read_chunk(9).unwrap().as_slice(), b"abc");
    assert_eq!(buf.read_chunk(1).unwrap().as_slice(), b"\0");
    let mut out = bounded(3);
    buf.copy_into(&mut out).unwrap();
    assert_eq!(out.as_slice(), b"\0de");
    assert_eq!(buf.buffered_len(), 1);
    let mut out = bounded(9);
    buf.copy_into(&mut out).unwrap();
    assert_eq!(out.as_slice(), b"f");
    // the data behind the gap stays
    assert!(buf.buffer_is_empty());
    assert_eq!(buf.current_offset(), at(13));
    assert!(buf.read_chunk(9).unwrap().is_empty());
    assert!(!buf.is_virtually_buffered());
}

#[test]
fn reassembler_copies_all_but_the_last_chunk() {
    let mut buf = Reassembler::from_slots(
        slots(vec![data_slot(0, 3, b"abc"), data_slot(3, 6, b"def"), data_slot(6, 9, b"ghi")]),
        0,
        Some(9),
    );
    assert_eq!(buf.final_size(), Some(9));
    assert!(buf.has_buffered_fin());
    let mut out = bounded(5);
    let chunk = buf.partial_copy_into(&mut out).unwrap();
    assert_eq!(chunk.as_slice(), b"de");
    assert_eq!(out.as_slice(), b"abc");
    let mut out = bounded(50);
    let chunk = buf.partial_copy_into(&mut out).unwrap();
    assert_eq!(chunk.as_slice(), b"ghi");
    assert_eq!(out.as_slice(), b"f");
    assert!(buf.is_consumed());
    assert!(buf.partial_copy_into(&mut out).unwrap().is_empty());
    assert!(buf.partial_copy_into(&mut bounded(0)).unwrap().is_empty());
}

#[test]
fn reassembler_into_write_once() {
    let mut buf = Reassembler::from_slots(
        slots(vec![data_slot(0, 3, b"abc"), data_slot(3, 6, b"def")]),
        0,
        None,
    );
    let mut out = bounded(9);
    buf.copy_into(&mut WriteOnce::new(&mut out)).unwrap();
    assert_eq!(out.as_slice(), b"abc");
    assert_eq!(buf.current_offset(), at(3));
}

#[test]
fn reassembler_gives_the_last_slot_away() {
    let mut buf = Reassembler::from_slots(slots(vec![data_slot(0, 64, b"abcdef")]), 0, Some(6));
    assert_eq!(buf.read_chunk(2).unwrap().as_slice(), b"ab");
    assert_eq!(buf.read_chunk(4).unwrap().as_slice(), b"cdef");
    assert!(buf.is_consumed());
    assert!(buf.is_empty());
    assert_eq!(Reassembler::new().len(), 0);
}

#[test]
fn reassembler_skips() {
    let mut buf = Reassembler::from_slots(
        slots(vec![data_slot(0, 3, b"abc"), data_slot(3, 6, b"def")]),
        0,
        None,
    );
    buf.skip_until(at(4)).unwrap();
    assert_eq!(buf.current_offset(), at(4));
    assert_eq!(buf.read_chunk(9).unwrap().as_slice(), b"ef");
}

#[test]
fn reassembler_keeps_what_lies_behind_a_hole() {
    let holed = || {
        Reassembler::from_slots(
            slots(vec![data_slot(0, 3, b"abc"), data_slot(3, 6, b"d"), data_slot(6, 9, b"ghi")]),
            0,
            None,
        )
    };
    let mut skipped = holed();
    skipped.skip_until(at(8)).unwrap();
    let mut copied = holed();
    let mut out = bounded(20);
    copied.copy_into(&mut out).unwrap();
    assert_eq!(out.as_slice(), b"abcd");
    let mut partly = holed();
    let mut out = bounded(20);
    assert_eq!(partly.partial_copy_into(&mut out).unwrap().as_slice(), b"d");
    assert_eq!(out.as_slice(), b"abc");
    for mut buf in [skipped, copied, partly] {
        // neither the hole nor the slot behind it has moved
        assert_eq!(buf.current_offset(), at(4));
        assert!(buf.buffer_is_empty());
        buf.skip_until(at(9)).unwrap();
        assert_eq!(buf.current_offset(), at(4));
        assert!(buf.read_chunk(9).unwrap().is_empty());
    }
}

#[test]
fn chunks_are_as_long_as_those_of_the_inner_reader() {
    let mut buf = Reassembler::from_slots(
        slots(vec![data_slot(0, 3, b"abc"), data_slot(3, 8, b"defgh")]),
        0,
        None,
    );
    let mut limit = Limit::new(&mut buf, 6);
    assert_eq!(limit.read_chunk(9).unwrap().as_slice(), b"abc");
    assert_eq!(limit.read_chunk(9).unwrap().as_slice(), b"def");
    assert!(limit.read_chunk(9).unwrap().is_empty());
    assert_eq!(buf.read_chunk(1).unwrap().as_slice(), b"g");
}

#[test]
fn write_once_is_closed_for_good() {
    let mut out = bounded(10);
    let mut once = WriteOnce::new(&mut out);
    once.put_slice(b"");
    once.put_bytes(Bytes::new());
    once.put_chunk(Chunk::empty());
    assert_eq!(once.remaining_capacity(), 10);
    once.put_slice(b"a");
    once.put_slice(b"");
    once.put_bytes_mut(BytesMut::new());
    assert_eq!(once.remaining_capacity(), 0);
}

#[test]
fn probes_do_nothing() {
    probe::allocated(1, 2);
    probe::pop(1, 2);
    probe::write(1, 2);
}

#[test]
fn errors_are_mapped() {
    let range: Error<Infallible> = Error::OutOfRange;
    assert!(matches!(range.mapped::<u8>(), Error::OutOfRange));
    let fin: Error<Infallible> = Error::InvalidFin;
    assert!(matches!(fin.mapped::<u8>(), Error::InvalidFin));
}

// A buffer that takes everything in order and remembers what was done to it.
struct Log {
    data: BytesMut,
    offset: u64,
    final_offset: Option<u64>,
    calls: Vec<String>,
}

impl Log {
    fn new(offset: u64) -> Log {
        Log {
            data: BytesMut::new(),
            offset,
            final_offset: None,
            calls: Vec::new(),
        }
    }
}

// Members that only the verifier reads have no meaning at run time.
impl Storage for Log {
    type Error = Infallible;

    fn valid(&self) -> bool {
        true
    }

    fn buffered(&self) -> Buffered {
        unreachable!()
    }

    fn chunk_len(&self, watermark: usize) -> usize {
        watermark
    }

    fn buffered_len(&self) -> usize {
        self.data.len()
    }

    fn read_chunk(&mut self, watermark: usize) -> Result<Chunk<'_>, Infallible> {
        let len = self.data.len().min(watermark);
        self.offset += len as u64;
        Ok(Chunk::Owned(self.data.split_to(len)))
    }

    fn track_partial_copy_into<Dest: WriterStorage>(
        &mut self,
        dest: &mut Dest,
        limit: usize,
    ) -> Result<(usize, Chunk<'_>), Infallible> {
        let watermark = dest.remaining_capacity().min(limit);
        Ok((0, self.read_chunk(watermark)?))
    }

    fn track_copy_into<Dest: WriterStorage>(
        &mut self,
        dest: &mut Dest,
        limit: usize,
    ) -> Result<usize, Infallible> {
        let watermark = dest.remaining_capacity().min(limit);
        let chunk = self.read_chunk(watermark)?;
        let len = chunk.len();
        dest.put_chunk(chunk);
        Ok(len)
    }
}

impl Reader for Log {
    fn offsets_fit(&self) {}

    fn current_offset(&self) -> VarInt {
        VarInt::new(self.offset).unwrap()
    }

    fn final_offset(&self) -> Option<VarInt> {
        self.final_offset.map(|v| VarInt::new(v).unwrap())
    }

    fn is_virtually_buffered(&self) -> bool {
        false
    }
}

impl Writer for Log {
    fn takes(&self) -> bool {
        true
    }

    fn took(_before: Log, _after: Log, _source: Buffered, _rest: Buffered) -> bool {
        true
    }

    fn refused(_: Log, _: Log, _: Buffered, _: Buffered, _: Refusal) -> bool {
        true
    }

    fn read_from<R: Reader>(&mut self, reader: &mut R) -> Result<(), Error<R::Error>> {
        self.calls.push(format!("read_from {}", reader.current_offset().as_u64()));
        loop {
            match reader.read_chunk(usize::MAX) {
                Ok(chunk) if chunk.is_empty() => return Ok(()),
                Ok(chunk) => self.data.extend_from_slice(chunk.as_slice()),
                Err(e) => return Err(Error::ReaderError(e)),
            }
        }
    }
}

impl Skip for Log {
    fn skipped(_before: Log, _after: Log, _len: VarInt, _final_offset: Option<VarInt>) -> bool {
        true
    }

    fn skip_refused(_: Log, _: Log, _: VarInt, _: Option<VarInt>, _: Refusal) -> bool {
        true
    }

    fn valid_both_ways(&self) {}

    fn skip(
        &mut self,
        len: VarInt,
        final_offset: Option<VarInt>,
    ) -> Result<(), Error<Infallible>> {
        self.calls.push(format!("skip {}", len.as_u64()));
        if final_offset.is_some() && self.final_offset.is_some() {
            return Err(Error::InvalidFin);
        }
        self.offset += len.as_u64();
        self.final_offset = final_offset.map(|v| v.as_u64());
        Ok(())
    }
}

#[test]
fn interposer_goes_past_the_buffer() {
    let mut out = bounded(8);
    let mut log = Log::new(5);
    {
        let mut interposer = Interposer::new(&mut out, &mut log);
        let mut reader = Request::new(at(5), b"helloworld", true).unwrap();
        interposer.read_from(&mut reader).unwrap();
        assert!(reader.buffer_is_empty());
        // the rest is in the buffer
        assert_eq!(interposer.buffered_len(), 2);
        assert_eq!(interposer.current_offset(), at(13));
        assert_eq!(interposer.final_offset(), Some(at(15)));
        assert!(interposer.has_buffered_fin());
        assert!(!interposer.is_consumed());
        assert!(!interposer.buffer_is_empty());
        assert!(!interposer.is_virtually_buffered());
        assert_eq!(interposer.read_chunk(1).unwrap().as_slice(), b"l");
        let mut rest = bounded(9);
        interposer.copy_into(&mut rest).unwrap();
        assert_eq!(rest.as_slice(), b"d");
        assert!(interposer.partial_copy_into(&mut rest).unwrap().is_empty());
    }
    assert_eq!(out.as_slice(), b"hellowor");
    assert_eq!(log.calls, ["skip 8", "read_from 13"]);
}

#[test]
fn interposer_needs_no_rest() {
    let mut out = bounded(10);
    let mut log = Log::new(0);
    let mut reader = Request::new(at(0), b"helloworld", false).unwrap();
    Interposer::new(&mut out, &mut log).read_from(&mut reader).unwrap();
    assert_eq!(out.as_slice(), b"helloworld");
    assert_eq!(log.calls, ["skip 10"]);
}

#[test]
fn interposer_delegates() {
    // not what comes next
    let mut out = bounded(8);
    let mut log = Log::new(5);
    let mut reader = Request::new(at(6), b"hello", false).unwrap();
    Interposer::new(&mut out, &mut log).read_from(&mut reader).unwrap();
    assert!(out.as_slice().is_empty());
    assert_eq!(log.calls, ["read_from 6"]);
    assert_eq!(&log.data[..], b"hello");

    // no room
    let mut out = bounded(0);
    let mut log = Log::new(5);
    let mut reader = Request::new(at(5), b"hello", false).unwrap();
    Interposer::new(&mut out, &mut log).read_from(&mut reader).unwrap();
    assert_eq!(log.calls, ["read_from 5"]);

    // less than half of the data has room
    let mut out = bounded(4);
    let mut log = Log::new(5);
    let mut reader = Request::new(at(5), b"helloworld", false).unwrap();
    Interposer::new(&mut out, &mut log).read_from(&mut reader).unwrap();
    assert_eq!(log.calls, ["read_from 5"]);

    // half of it has
    let mut out = bounded(5);
    let mut log = Log::new(5);
    let mut reader = Request::new(at(5), b"helloworld", false).unwrap();
    Interposer::new(&mut out, &mut log).read_from(&mut reader).unwrap();
    assert_eq!(out.as_slice(), b"hello");
    assert_eq!(log.calls, ["skip 5", "read_from 10"]);
}

#[test]
fn interposer_hands_errors_on() {
    let mut out = bounded(8);
    let mut log = Log::new(5);
    log.final_offset = Some(9);
    let mut reader = Request::new(at(5), b"hell", true).unwrap();
    let r = Interposer::new(&mut out, &mut log).read_from(&mut reader);
    assert!(matches!(r, Err(Error::InvalidFin)));
}

// A storage that keeps the pieces that are handed to it.
struct Pieces {
    pieces: Vec<Vec<u8>>,
    remaining: usize,
}

impl WriterStorage for Pieces {
    fn space(&self) -> Space {
        unreachable!()
    }

    fn valid(&self) -> bool {
        true
    }

    fn wants_bytes() -> bool {
        false
    }

    fn wants_bytes_mut() -> bool {
        true
    }

    fn in_one_piece(&self, _len: usize) -> bool {
        false
    }

    fn remaining_in_room(&self) {}

    fn specializes_bytes() -> bool {
        false
    }

    fn specializes_bytes_mut() -> bool {
        true
    }

    fn put_slice(&mut self, bytes: &[u8]) {
        self.pieces.push(bytes.to_vec());
        self.remaining -= bytes.len();
    }

    fn remaining_capacity(&self) -> usize {
        self.remaining
    }

    fn has_remaining_capacity(&self) -> bool {
        self.remaining > 0
    }

    fn put_bytes(&mut self, bytes: Bytes) {
        self.put_slice(&bytes);
    }

    fn put_bytes_mut(&mut self, bytes: BytesMut) {
        self.put_slice(&bytes);
    }

    fn put_chunk(&mut self, chunk: Chunk<'_>) {
        self.put_slice(chunk.as_slice());
    }

    fn put_uninit_slice<F, E>(&mut self, _payload_len: usize, _f: F) -> Result<bool, E>
    where
        F: FnOnce(&mut [u8]) -> Result<(), E>,
    {
        Ok(false)
    }
}

#[test]
fn storage_that_wants_whole_pieces() {
    let mut buf = Reassembler::from_slots(
        slots(vec![data_slot(0, 3, b"abc"), data_slot(3, 6, b"def"), data_slot(6, 9, b"ghi")]),
        0,
        None,
    );
    let mut out = Pieces {
        pieces: Vec::new(),
        remaining: 8,
    };
    buf.copy_into(&mut out).unwrap();
    assert_eq!(out.pieces, [&b"abc"[..], b"def", b"gh"]);
    assert_eq!(buf.current_offset(), at(8));

    let mut data = BytesMut::from(&b"hello"[..]);
    let mut out = Pieces {
        pieces: Vec::new(),
        remaining: 4,
    };
    data.copy_into(&mut out).unwrap();
    assert_eq!(out.pieces, [&b"hell"[..]]);
    assert_eq!(&data[..], b"o");

    let mut out = Pieces {
        pieces: Vec::new(),
        remaining: 4,
    };
    let mut once = WriteOnce::new(&mut out);
    let none: Result<bool, ()> = once.put_uninit_slice(1, |_| Ok(()));
    assert_eq!(none, Ok(false));
    assert!(once.has_remaining_capacity());

    // such a storage is left alone
    let mut log = Log::new(0);
    let mut reader = Request::new(at(0), b"hi", false).unwrap();
    Interposer::new(&mut out, &mut log).read_from(&mut reader).unwrap();
    assert!(out.pieces.is_empty());
    assert_eq!(log.calls, ["read_from 0"]);
}

// A reader that hands out one byte and fails from then on.
struct Broken {
    data: BytesMut,
    offset: u64,
}

impl Storage for Broken {
    type Error = &'static str;

    fn valid(&self) -> bool {
        true
    }

    fn buffered(&self) -> Buffered {
        unreachable!()
    }

    fn chunk_len(&self, watermark: usize) -> usize {
        watermark
    }

    fn buffered_len(&self) -> usize {
        self.data.len()
    }

    fn read_chunk(&mut self, _watermark: usize) -> Result<Chunk<'_>, &'static str> {
        Err("broken")
    }

    fn track_partial_copy_into<Dest: WriterStorage>(
        &mut self,
        dest: &mut Dest,
        limit: usize,
    ) -> Result<(usize, Chunk<'_>), &'static str> {
        self.track_copy_into(dest, limit)?;
        Err("broken")
    }

    fn track_copy_into<Dest: WriterStorage>(
        &mut self,
        dest: &mut Dest,
        _limit: usize,
    ) -> Result<usize, &'static str> {
        dest.put_bytes_mut(self.data.split_to(1));
        self.offset += 1;
        Err("broken")
    }
}

impl Reader for Broken {
    fn offsets_fit(&self) {}

    fn current_offset(&self) -> VarInt {
        VarInt::new(self.offset).unwrap()
    }

    fn final_offset(&self) -> Option<VarInt> {
        None
    }

    fn is_virtually_buffered(&self) -> bool {
        false
    }
}

fn broken() -> Broken {
    Broken {
        data: BytesMut::from(&b"hello"[..]),
        offset: 5,
    }
}

#[test]
fn a_failed_copy_moves_no_cursor() {
    let mut inner = broken();
    let mut reader = Complete::new(&mut inner).unwrap();
    let mut out = bounded(9);
    assert_eq!(reader.copy_into(&mut out), Err("broken"));
    assert_eq!(out.as_slice(), b"h");
    assert_eq!(reader.current_offset(), at(0));
    assert_eq!(reader.final_offset(), Some(at(5)));
    assert_eq!(reader.buffered_len(), 4);
    assert!(reader.partial_copy_into(&mut out).is_err());
    assert!(reader.read_chunk(9).is_err());
    assert_eq!(reader.current_offset(), at(0));

    let mut inner = broken();
    let mut limit = Limit::new(&mut inner, 3);
    assert_eq!(limit.copy_into(&mut out), Err("broken"));
    assert!(limit.partial_copy_into(&mut out).is_err());
    assert_eq!(limit.buffered_len(), 3);
    assert!(limit.copy_into(&mut out).is_err());
    assert_eq!(limit.buffered_len(), 2);
    assert!(limit.skip_until(at(99)).is_err());
}

#[test]
fn interposer_leaves_the_buffer_alone_when_a_copy_fails() {
    let mut out = bounded(8);
    let mut log = Log::new(5);
    let mut reader = broken();
    let r = Interposer::new(&mut out, &mut log).read_from(&mut reader);
    assert!(matches!(r, Err(Error::ReaderError("broken"))));
    assert!(log.calls.is_empty());
    assert_eq!(log.current_offset(), at(5));

    // delegated, the storage is left alone
    let mut log = Log::new(0);
    let mut reader = broken();
    let written = out.as_slice().len();
    let r = Interposer::new(&mut out, &mut log).read_from(&mut reader);
    assert!(matches!(r, Err(Error::ReaderError("broken"))));
    assert_eq!(log.calls, ["read_from 5"]);
    assert_eq!(out.as_slice().len(), written);
}

#[test]
fn a_slot_is_unchanged_when_a_copy_fails() {
    let mut slot = data_slot(5, 20, b"");
    let mut filled = false;
    assert!(slot.try_write_reader(&mut broken(), &mut filled).is_err());
    assert!(slot.is_empty() && !filled);
    let mut slot = data_slot(0, 20, b"a");
    assert!(slot.try_write_reader(&mut broken(), &mut filled).is_err());
    assert_eq!(slot.as_slice(), b"a");
    assert_eq!(slot.end_allocated(), 20);
}

#[test]
fn copies_are_limited_and_counted() {
    let mut out = bounded(9);
    let mut req = Request::new(at(0), b"hello", false).unwrap();
    assert_eq!(req.track_copy_into(&mut out, 2), Ok(2));
    let (len, chunk) = req.track_partial_copy_into(&mut out, 2).unwrap();
    assert_eq!((len, chunk.as_slice()), (0, &b"ll"[..]));
    assert_eq!(req.current_offset(), at(4));
    let mut req = RequestLen::new(at(0), 70_000, false).unwrap();
    let mut out = bounded(100_000);
    let (len, chunk) = req.track_partial_copy_into(&mut out, 66_000).unwrap();
    assert_eq!((len, chunk.len()), (464, 65_536));
    assert_eq!(req.track_copy_into(&mut out, 10), Ok(10));
}

#[test]
fn reassembler_copies_are_limited_and_counted() {
    let list = || {
        slots(vec![data_slot(0, 3, b"abc"), data_slot(3, 6, b"def"), data_slot(6, 9, b"ghi")])
    };
    let mut buf = Reassembler::from_slots(list(), 0, None);
    let mut out = bounded(50);
    assert_eq!(buf.track_copy_into(&mut out, 4), Ok(4));
    assert_eq!(out.as_slice(), b"abcd");
    assert_eq!(buf.current_offset(), at(4));
    let mut out = bounded(50);
    let (len, chunk) = buf.track_partial_copy_into(&mut out, 4).unwrap();
    assert_eq!((len, chunk.as_slice()), (2, &b"gh"[..]));
    assert_eq!(out.as_slice(), b"ef");
    let (len, chunk) = buf.track_partial_copy_into(&mut out, 0).unwrap();
    assert_eq!((len, chunk.len()), (0, 0));
    // the limit holds for a limited reader, too
    let mut buf = Reassembler::from_slots(list(), 0, None);
    let mut out = bounded(50);
    let mut limit = Limit::new(&mut buf, 5);
    let chunk = limit.partial_copy_into(&mut out).unwrap();
    assert_eq!(chunk.as_slice(), b"de");
    assert_eq!(out.as_slice(), b"abc");
    assert_eq!(buf.current_offset(), at(5));
}

#[test]
fn a_slot_with_spare_room_stays() {
    let mut buf = Reassembler::from_slots(slots(vec![data_slot(0, 64, b"abc")]), 0, None);
    assert_eq!(buf.read_chunk(9).unwrap().as_slice(), b"abc");
    assert!(buf.is_empty());
}
