use os_dev_toolkit::fmt::{hexdump_to_sink, Addr, ByteFmt, HexSlice};
use os_dev_toolkit::log::{LogSink, RingLog};

struct Collect {
    text: String,
    calls: usize,
}

impl LogSink for Collect {
    fn write_str(&mut self, s: &str) {
        self.text.push_str(s);
        self.calls += 1;
    }
}

fn hexdump_string(bytes: &[u8], columns: usize) -> String {
    let mut c = Collect { text: String::new(), calls: 0 };
    hexdump_to_sink(bytes, &mut c, columns);
    c.text
}

#[test]
fn hex_slice_renders_each_byte() {
    assert_eq!(HexSlice(&[]).to_string(), "[]");
    assert_eq!(HexSlice(&[0xff]).to_string(), "[ff]");
    assert_eq!(HexSlice(&[0, 1, 2, 0xff]).to_string(), "[00 01 02 ff]");
}

#[test]
fn byte_fmt_units() {
    assert_eq!(ByteFmt(999).to_string(), "999 B");
    assert_eq!(ByteFmt(1023).to_string(), "1023 B");
    assert_eq!(ByteFmt(1536).to_string(), "1.500 KiB");
    assert_eq!(ByteFmt(1024 * 1024).to_string(), "1.000 MiB");
    assert_eq!(ByteFmt(1024 * 1024 + 1).to_string(), "1.000 MiB");
    assert_eq!(ByteFmt(3 * 1024 * 1024 * 1024 / 2).to_string(), "1.500 GiB");
    assert_eq!(ByteFmt(1024 * 1024 * 1024 * 2).to_string(), "2.000 GiB");
    assert_eq!(ByteFmt(u64::MAX).to_string(), "17179869183.999 GiB");
    assert_eq!(ByteFmt(1025).to_string(), "1.000 KiB");
    assert_eq!(ByteFmt(1024 + 1023).to_string(), "1.999 KiB");
}

#[test]
fn addr_lower_hex() {
    assert_eq!(Addr(0).to_string(), "0x0");
    assert_eq!(Addr(0xdead_beef).to_string(), "0xdeadbeef");
}

#[test]
fn hexdump_full_line() {
    let data = [0u8, 1, 2, 3, 0xaa, 0xbb, 0xcc, 0xdd];
    assert_eq!(
        hexdump_string(&data, 8),
        "0x00000000: 00 01 02 03 aa bb cc dd |........|\n"
    );
}

#[test]
fn hexdump_pads_short_last_line() {
    let data = *b"ABCDEF";
    assert_eq!(
        hexdump_string(&data, 4),
        "0x00000000: 41 42 43 44 |ABCD|\n0x00000004: 45 46       |EF  |\n"
    );
}

#[test]
fn hexdump_zero_columns_means_sixteen() {
    let data: Vec<u8> = (0u8..17).collect();
    let text = hexdump_string(&data, 0);
    let lines: Vec<&str> = text.lines().collect();
    assert_eq!(lines.len(), 2);
    assert_eq!(
        lines[0],
        "0x00000000: 00 01 02 03 04 05 06 07 08 09 0a 0b 0c 0d 0e 0f |................|"
    );
    assert!(lines[1].starts_with("0x00000010: 10 "));
    assert_eq!(hexdump_string(&[], 0), "");
}

#[test]
fn hexdump_to_sink_writes_the_dump() {
    let mut sink: RingLog<64> = RingLog::new();
    hexdump_to_sink(b"hi", &mut sink, 2);
    let (a, b) = sink.as_slices();
    let mut v = Vec::new();
    v.extend_from_slice(a);
    v.extend_from_slice(b);
    assert_eq!(String::from_utf8(v).unwrap(), "0x00000000: 68 69 |hi|\n");
}

struct CallCounter {
    calls: usize,
}

impl LogSink for CallCounter {
    fn write_str(&mut self, _s: &str) {
        self.calls += 1;
    }
}

#[test]
fn hexdump_to_sink_empty_input_makes_no_call() {
    let mut c = CallCounter { calls: 0 };
    hexdump_to_sink(&[], &mut c, 0);
    hexdump_to_sink(&[], &mut c, 8);
    assert_eq!(c.calls, 0);
    hexdump_to_sink(&[1], &mut c, 8);
    assert!(c.calls > 1);
}

#[test]
fn hexdump_to_sink_through_dyn_sink() {
    let mut sink: RingLog<64> = RingLog::new();
    let dynsink: &mut dyn LogSink = &mut sink;
    hexdump_to_sink(b"A", dynsink, 1);
    let (a, b) = sink.as_slices();
    let mut v = Vec::new();
    v.extend_from_slice(a);
    v.extend_from_slice(b);
    assert_eq!(String::from_utf8(v).unwrap(), "0x00000000: 41 |A|\n");
}

#[test]
fn hexdump_zero_and_sixteen_columns_agree() {
    let data: Vec<u8> = (0u8..40).collect();
    assert_eq!(hexdump_string(&data, 0), hexdump_string(&data, 16));
}

#[test]
fn hexdump_to_sink_writes_separate_fragments_per_line() {
    let mut c = Collect { text: String::new(), calls: 0 };
    hexdump_to_sink(b"abc", &mut c, 2);
    assert_eq!(c.text, "0x00000000: 61 62 |ab|\n0x00000002: 63    |c |\n");
    assert!(c.calls >= 2 * 5);
}
