# doracap

Recording and replay of timestamped messages in one self-describing `.dcap` file, with a library
that is proved correct by Verus.

- `src/` is the library. The container file is in `layout`, `wire`, `compress`, `crc` and
  `singlefile`; its laws (what is recorded reads back, a broken-off file keeps its chunks) are in
  `singlefile/laws.rs`. `record` and `play` are the two front ends, `msgs` holds the standard
  messages and their encoding, `fastlio` the sensor data of FAST-LIO, and `json`, `export`,
  `inspect`, `cli` and `selftest` what the command line needs; `jsonvalue` and `jsonline` show that
  each line of JSON is an object.
- `app/` is the command line: files, threads, the wall clock and floating-point arithmetic. Its
  command `glue` records simulated sensor data, plays it and compares; with `--lio` it maps too.
- `tests/` runs the library, with flate2 and fast-lio linked.

The library reads no file and no clock: bytes and nanoseconds come in as arguments. Floating-point
numbers are carried as bit patterns.
