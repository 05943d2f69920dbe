# flog

A small buffered logging library, verified with Verus.

- `src/item.rs`: `LogItem`, a log line assembled as bytes (`u64` writes a
  right-aligned decimal field of 20 bytes, `str` the UTF-8 bytes of a string,
  `char` one byte), with the specification of the number field and the proof
  that it reads back as the number.
- `src/collector.rs`: `Collector`, the buffer where log lines wait; `log` and
  `log_str` add bytes and hand out everything pending once more than
  `BUFFER_SIZE` bytes have gathered, `flush` hands out the rest. The lemmas
  there show that no byte is lost or reordered and that at most `BUFFER_SIZE`
  bytes stay pending.
- `app/lib.rs`: the per-thread files that the chunks are written to.
