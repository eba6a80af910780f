use ltsv::parser::LTSVParser;
use ltsv::reader::LTSVReader;
use ltsv::stream::{ByteSink, ByteSource};
use ltsv::writer::LTSVWriter;

/// A source that hands out its bytes back to front.
struct Backwards(Vec<u8>);

impl ByteSource for Backwards {
    fn read_byte(&mut self) -> Option<u8> {
        self.0.pop()
    }
}

/// A sink that counts what it takes.
struct Counter(usize);

impl ByteSink for Counter {
    fn write_byte(&mut self, _b: u8) {
        self.0 += 1;
    }

    fn write_bytes(&mut self, bytes: &[u8]) {
        self.0 += bytes.len();
    }
}

#[test]
fn parser_reads_from_any_byte_source() {
    let source = Backwards(b"\n2:b\t1:a".to_vec());
    let records = LTSVParser::new(source).read_ltsv().unwrap();
    assert_eq!(records.len(), 1);
    assert_eq!(records[0].get(b"a").unwrap().as_slice(), b"1");
    assert_eq!(records[0].get(b"b").unwrap().as_slice(), b"2");
}

#[test]
fn writer_writes_to_any_byte_sink() {
    let source = Backwards(b"\n2:b\t1:a".to_vec());
    let records = LTSVParser::new(source).read_ltsv().unwrap();
    let mut sink = Counter(0);
    sink.write_ltsv(&records);
    assert_eq!(sink.0, 8);
}
