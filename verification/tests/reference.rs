use ltsv::LTSVReader;
use ltsv::LTSVWriter;
use ltsv::{BytesReader, LTSVParser, Record};

fn mk_record_string() -> String {
    let mut s = String::new();
    // genzairyou
    s.push_str(&format!("{}:{}\t", "tofu", "豆"));
    s.push_str(&format!("{}:{}\t", "kamaboko", "魚"));
    s.push_str(&format!("{}:{}\n", "sukonbu", "海藻"));
    // konomi
    s.push_str(&format!("{}:{}\t", "tofu", "好き"));
    s.push_str(&format!("{}:{}\t", "kamaboko", "普通"));
    s.push_str(&format!("{}:{}\n", "sukonbu", "苦手"));
    s
}

fn reader_of(text: &str) -> LTSVParser<BytesReader> {
    LTSVParser::new(BytesReader::new(text.as_bytes().to_vec()))
}

#[test]
fn test_parse_simple() {
    let records = reader_of("a:1\tb:2").read_ltsv().unwrap();
    assert!(records.len() == 1);
}

#[test]
fn test_parse_full() {
    let s = mk_record_string();
    let records = reader_of(&s).read_ltsv().unwrap();
    assert!(records.len() == 2);
}

#[test]
fn test_parse_ltsv_trailing_nl_and_write() {
    let s = mk_record_string();
    let records_1 = reader_of(&s).read_ltsv().unwrap();
    let mut s2: Vec<u8> = Vec::new();
    s2.write_ltsv(&records_1);
    let records_2 = LTSVParser::new(BytesReader::new(s2)).read_ltsv().unwrap();
    assert!(records_1 == records_2);
}

#[test]
fn test_each_read_each_record() {
    let s = mk_record_string();
    let ks = ["tofu", "kamaboko", "sukonbu"];
    let vs = ["豆", "魚", "海藻", "好き", "普通", "苦手"];
    let mut seen = 0;
    let res = reader_of(&s).each_ltsv_record(|record: &Record| {
        for i in 0..record.len() {
            let field = record.field(i);
            assert!(ks.iter().any(|k| k.as_bytes() == field.label.as_slice()));
            assert!(vs.iter().any(|v| v.as_bytes() == field.value.as_slice()));
        }
        seen += 1;
        true
    });
    assert!(res.is_ok());
    assert_eq!(seen, 2);
}
