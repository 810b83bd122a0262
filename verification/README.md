# os_dev_toolkit

Building blocks for operating-system development, written in Verus with their behaviour
stated as contracts and proved.

- `src/` is the verified library:
  - `buffer`: `RingBuffer<N>` (overwrite-on-full byte FIFO, viewed as the sequence of
    stored bytes) and `FixedStr<N>` (UTF-8 string builder of at most `N` bytes, viewed as its
    characters), with the laws that a ring keeps exactly the most recent `N` bytes and loses
    nothing while everything fits.
  - `log`: `Level`, the `LogSink` trait (a sink may state what a write leaves it holding),
    `RingLog<N>` (a sink over a ring buffer) and `Logger` (level filtering; an enabled
    message is written as the fragments `[`, level, `] `, message, newline).
  - `fmt`: hex slices, byte counts in binary units and addresses, each specified
    character by character, and hexdumps written to a sink fragment by fragment, stated as a
    run of writes whose text is the dump.
  - `status`: `Status` codes and conversions; `config`: `require`; `panic`: the panic line.
  - `text`: UTF-8 facts and the one call into `core::str::from_utf8`.
- `app/` holds what the library cannot: the spin lock and `Once` (atomics and
  `UnsafeCell`), `halt` and `panic_to_sink`, the `kassert!`/`kinfo!` family of macros and
  the `core::fmt` trait impls for the formatting wrappers.
- `tests/` exercises the library from outside.
