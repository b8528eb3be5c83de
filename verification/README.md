# stream_reassembly

Verified building blocks for putting a QUIC stream back together.

- `stream` is the receive side of a stream. `RecvBuf` takes frames in any order,
  overlapping or repeated, checks them against flow control and the final size,
  and hands the data out in order. `stream::state` says what each operation does
  to the state of a buffer, `stream::sorter` how a frame is sorted in, and
  `stream::laws` what holds over several operations: what was sent is what is
  read, nothing is lost, the order of frames does not matter, a reset is told
  exactly once.
- `buffer` holds readers, storages and the slots of a reassembler.
  `buffer::reader::storage` says what taking data means for every reader:
  no byte is lost and none is handed out twice.
- `varint` holds QUIC variable-length integers.

Contracts are stated over mathematical models: byte sequences, maps from offsets
to chunks, sequences of gaps. `bytes_spec` and `stream::gap_list` list what is
taken for granted of the `bytes` and `fast_list` crates.

`app` connects the library to the machine's clock, to `bytes::BufMut` and to
formatting. Before it writes into a buffer it asks `RecvBuf::has_room_for`.
