use ltsv::error::ParseError;
use ltsv::parser::LTSVParser;
use ltsv::reader::LTSVReader;
use ltsv::record::Record;
use ltsv::stream::BytesReader;
use ltsv::syntax::Delimiter;

fn parser_of(bytes: &[u8]) -> LTSVParser<BytesReader> {
    LTSVParser::new(BytesReader::new(bytes.to_vec()))
}

fn parse(bytes: &[u8]) -> Result<Vec<Record>, ParseError> {
    parser_of(bytes).read_ltsv()
}

fn pairs(record: &Record) -> Vec<(Vec<u8>, Vec<u8>)> {
    (0..record.len())
        .map(|i| (record.field(i).label.clone(), record.field(i).value.clone()))
        .collect()
}

fn pair(label: &str, value: &str) -> (Vec<u8>, Vec<u8>) {
    (label.as_bytes().to_vec(), value.as_bytes().to_vec())
}

#[test]
fn one_line_without_newline_is_one_record_of_two_fields() {
    let records = parse(b"a:1\tb:2").unwrap();
    assert_eq!(records.len(), 1);
    assert_eq!(records[0].len(), 2);
    assert_eq!(records[0].get(b"a").unwrap().as_slice(), b"1");
    assert_eq!(records[0].get(b"b").unwrap().as_slice(), b"2");
    assert!(records[0].get(b"c").is_none());
    assert_eq!(pairs(&records[0]), vec![pair("a", "1"), pair("b", "2")]);
}

#[test]
fn two_lines_are_two_records_with_their_own_fields() {
    let text = "tofu:豆\tkamaboko:魚\tsukonbu:海藻\ntofu:好き\tkamaboko:普通\tsukonbu:苦手\n";
    let records = parse(text.as_bytes()).unwrap();
    assert_eq!(records.len(), 2);
    assert_eq!(
        pairs(&records[0]),
        vec![pair("tofu", "豆"), pair("kamaboko", "魚"), pair("sukonbu", "海藻")]
    );
    assert_eq!(
        pairs(&records[1]),
        vec![pair("tofu", "好き"), pair("kamaboko", "普通"), pair("sukonbu", "苦手")]
    );
}

#[test]
fn values_keep_every_byte() {
    let mut text = b"raw:".to_vec();
    let payload: Vec<u8> = (1u8..=255).filter(|b| ![0x09, 0x0a, 0x0d].contains(b)).collect();
    text.extend_from_slice(&payload);
    text.push(b'\n');
    let records = parse(&text).unwrap();
    assert_eq!(records.len(), 1);
    assert_eq!(records[0].get(b"raw").unwrap(), &payload);
}

#[test]
fn empty_input_is_no_record() {
    let records = parse(b"").unwrap();
    assert_eq!(records.len(), 0);
}

#[test]
fn whitespace_alone_is_an_unterminated_label() {
    assert_eq!(parse(b"\n"), Err(ParseError::UnterminatedLabel));
    assert_eq!(parse(b" \t\r\n"), Err(ParseError::UnterminatedLabel));
}

#[test]
fn crlf_ends_a_line_as_lf_does() {
    let with_crlf = parse(b"a:1\r\n").unwrap();
    let with_lf = parse(b"a:1\n").unwrap();
    assert_eq!(with_crlf.len(), 1);
    assert!(with_crlf == with_lf);
    assert_eq!(pairs(&with_crlf[0]), vec![pair("a", "1")]);
    let two = parse(b"a:1\r\nb:2\r\n").unwrap();
    assert_eq!(two.len(), 2);
    assert_eq!(pairs(&two[1]), vec![pair("b", "2")]);
}

#[test]
fn carriage_return_without_line_feed_is_an_error() {
    assert_eq!(parse(b"a:1\rX"), Err(ParseError::DanglingCarriageReturn));
    assert_eq!(parse(b"a:1\r"), Err(ParseError::DanglingCarriageReturn));
    assert_eq!(parse(b"a:1\r\r\n"), Err(ParseError::DanglingCarriageReturn));
}

#[test]
fn colon_without_label_is_an_error() {
    assert_eq!(parse(b":1"), Err(ParseError::EmptyLabel));
    assert_eq!(parse(b"a:1\t:2"), Err(ParseError::EmptyLabel));
}

#[test]
fn end_of_stream_in_a_label_is_an_error() {
    assert_eq!(parse(b"a"), Err(ParseError::UnterminatedLabel));
    assert_eq!(parse(b"a:1\tb"), Err(ParseError::UnterminatedLabel));
    assert_eq!(parse(b"a:1\t"), Ok(parse(b"a:1").unwrap()));
}

#[test]
fn byte_outside_the_label_class_is_an_error() {
    assert_eq!(parse(b"a b:1"), Err(ParseError::InvalidLabelByte));
    assert_eq!(parse(b"a\n:1"), Err(ParseError::InvalidLabelByte));
    assert_eq!(parse(b"a/b:1"), Err(ParseError::InvalidLabelByte));
    assert_eq!(parse(b"/:1"), Err(ParseError::InvalidLabelByte));
    assert_eq!(parse("é:1".as_bytes()), Err(ParseError::InvalidLabelByte));
}

#[test]
fn nul_in_a_value_is_an_error() {
    assert_eq!(parse(b"a:1\x002"), Err(ParseError::InvalidValueByte));
    assert_eq!(parse(b"a:\x00"), Err(ParseError::InvalidValueByte));
}

#[test]
fn first_error_wins_and_no_record_comes_out() {
    assert_eq!(parse(b"a:1\nb:2\n:3\nc\x00"), Err(ParseError::EmptyLabel));
    assert_eq!(parse(b"a:1\nb:\x00\n:3"), Err(ParseError::InvalidValueByte));
}

#[test]
fn labels_take_every_label_byte() {
    let label = b"ABCDEFGHIJKLMNOPQRSTUVWXYZabcdefghijklmnopqrstuvwxyz0123456789_.-";
    let mut text = label.to_vec();
    text.extend_from_slice(b":v");
    let records = parse(&text).unwrap();
    assert_eq!(pairs(&records[0]), vec![(label.to_vec(), b"v".to_vec())]);
}

#[test]
fn value_may_be_empty_and_may_hold_colons_and_spaces() {
    let records = parse(b"a:\tb: x:y \tc:\n").unwrap();
    assert_eq!(records.len(), 1);
    assert_eq!(pairs(&records[0]), vec![pair("a", ""), pair("b", " x:y "), pair("c", "")]);
}

#[test]
fn later_field_overwrites_earlier_field_of_same_label() {
    let records = parse(b"a:1\tb:2\ta:3\n").unwrap();
    assert_eq!(records.len(), 1);
    assert_eq!(records[0].len(), 2);
    assert_eq!(pairs(&records[0]), vec![pair("a", "3"), pair("b", "2")]);
}

#[test]
fn whitespace_in_front_of_a_label_is_skipped() {
    let records = parse(b"  \n\r\n a:1\n\n\n \x0b\x0cb:2\n \n").unwrap();
    assert_eq!(records.len(), 2);
    assert_eq!(pairs(&records[0]), vec![pair("a", "1")]);
    assert_eq!(pairs(&records[1]), vec![pair("b", "2")]);
    let records = parse(b"\x85a:1\n\xa0b:2").unwrap();
    assert_eq!(records.len(), 2);
}

#[test]
fn whitespace_behind_a_tab_goes_with_the_next_field_of_the_record() {
    let records = parse(b"a:1\t b:2\t\nc:3\nd:4").unwrap();
    assert_eq!(records.len(), 2);
    assert_eq!(pairs(&records[0]), vec![pair("a", "1"), pair("b", "2"), pair("c", "3")]);
    assert_eq!(pairs(&records[1]), vec![pair("d", "4")]);
}

#[test]
fn last_line_needs_no_newline() {
    let records = parse(b"a:1\nb:2").unwrap();
    assert_eq!(records.len(), 2);
    assert_eq!(pairs(&records[1]), vec![pair("b", "2")]);
}

#[test]
fn new_parser_starts_at_the_first_byte() {
    assert!(parser_of(b"").eof());
    let mut p = parser_of(b"a:1");
    assert!(!p.eof());
    let label = p.parse_field_label().unwrap();
    assert_eq!(label, b"a".to_vec());
}

#[test]
fn bump_passes_one_byte_and_rests_at_the_end() {
    let mut p = parser_of(b"xa:1");
    p.bump();
    assert_eq!(p.parse_field_label().unwrap(), b"a".to_vec());
    p.bump();
    p.bump();
    assert!(p.eof());
    p.bump();
    assert!(p.eof());
    assert_eq!(p.parse_field_label(), Err(ParseError::UnterminatedLabel));
}

#[test]
fn skip_whitespaces_stops_at_the_first_other_byte() {
    let mut p = parser_of(b" \t\n\x0b\x0c\r\x85\xa0a b:1");
    p.skip_whitespaces();
    assert_eq!(p.parse_field_label(), Err(ParseError::InvalidLabelByte));
    p.skip_whitespaces();
    assert_eq!(p.parse_field_label().unwrap(), b"b".to_vec());
    let mut q = parser_of(b"  ");
    q.skip_whitespaces();
    assert!(q.eof());
}

#[test]
fn parse_field_label_stops_at_the_colon() {
    let mut p = parser_of(b"host:example");
    assert_eq!(p.parse_field_label().unwrap(), b"host".to_vec());
    let (value, d) = p.parse_field_value().unwrap();
    assert_eq!(value, b":example".to_vec());
    assert_eq!(d, Delimiter::EndOfStream);
    let mut q = parser_of(b" a:1");
    assert_eq!(q.parse_field_label(), Err(ParseError::InvalidLabelByte));
    let mut r = parser_of(b":1");
    assert_eq!(r.parse_field_label(), Err(ParseError::EmptyLabel));
}

#[test]
fn parse_field_value_tells_the_delimiter() {
    let mut p = parser_of(b"one\ttwo\nthree\r\nfour");
    assert_eq!(p.parse_field_value().unwrap(), (b"one".to_vec(), Delimiter::Tab));
    p.bump();
    assert_eq!(p.parse_field_value().unwrap(), (b"two".to_vec(), Delimiter::Newline));
    p.bump();
    assert_eq!(p.parse_field_value().unwrap(), (b"three".to_vec(), Delimiter::Newline));
    p.bump();
    assert_eq!(p.parse_field_value().unwrap(), (b"four".to_vec(), Delimiter::EndOfStream));
    assert!(p.eof());
    let mut q = parser_of(b"x\x00y");
    assert_eq!(q.parse_field_value(), Err(ParseError::InvalidValueByte));
    let mut r = parser_of(b"x\ry");
    assert_eq!(r.parse_field_value(), Err(ParseError::DanglingCarriageReturn));
    assert_eq!(r.parse_field_value().unwrap(), (b"y".to_vec(), Delimiter::EndOfStream));
}

#[test]
fn consume_forward_lf_wants_a_line_feed_behind_the_byte_it_passes() {
    let mut p = parser_of(b"\r\nrest");
    assert_eq!(
        p.consume_forward_LF(b"v".to_vec()).unwrap(),
        (b"v".to_vec(), Delimiter::Newline)
    );
    assert_eq!(p.parse_field_value().unwrap(), (Vec::new(), Delimiter::Newline));
    let mut q = parser_of(b"\rrest");
    assert_eq!(
        q.consume_forward_LF(b"v".to_vec()),
        Err(ParseError::DanglingCarriageReturn)
    );
    assert_eq!(q.parse_field_value().unwrap(), (b"rest".to_vec(), Delimiter::EndOfStream));
    let mut r = parser_of(b"\r");
    assert_eq!(
        r.consume_forward_LF(Vec::new()),
        Err(ParseError::DanglingCarriageReturn)
    );
    assert!(r.eof());
}

#[test]
fn parse_field_tells_how_the_field_ended() {
    let mut p = parser_of(b"a:1\tb:2\nc:3\r\n\nd:4\n");
    let (f, d) = p.parse_field().unwrap();
    assert_eq!((f.label, f.value, d), (b"a".to_vec(), b"1".to_vec(), Delimiter::Tab));
    let (f, d) = p.parse_field().unwrap();
    assert_eq!((f.label, f.value, d), (b"b".to_vec(), b"2".to_vec(), Delimiter::Newline));
    let (f, d) = p.parse_field().unwrap();
    assert_eq!((f.label, f.value, d), (b"c".to_vec(), b"3".to_vec(), Delimiter::Newline));
    let (f, d) = p.parse_field().unwrap();
    assert_eq!((f.label, f.value, d), (b"d".to_vec(), b"4".to_vec(), Delimiter::EndOfStream));
    assert!(p.eof());
    let mut q = parser_of(b"a:1\t");
    let (_, d) = q.parse_field().unwrap();
    assert_eq!(d, Delimiter::EndOfStream);
}

#[test]
fn parse_record_tells_whether_the_stream_is_exhausted() {
    let mut p = parser_of(b"a:1\tb:2\nc:3");
    let (r, d) = p.parse_record().unwrap();
    assert_eq!(pairs(&r), vec![pair("a", "1"), pair("b", "2")]);
    assert_eq!(d, Delimiter::Newline);
    assert!(!p.eof());
    let (r, d) = p.parse_record().unwrap();
    assert_eq!(pairs(&r), vec![pair("c", "3")]);
    assert_eq!(d, Delimiter::EndOfStream);
    assert!(p.eof());
    assert_eq!(p.parse_record().err(), Some(ParseError::UnterminatedLabel));
}

#[test]
fn parse_ltsv_reads_to_the_end() {
    let mut p = parser_of(b"a:1\nb:2\n");
    let records = p.parse_ltsv().unwrap();
    assert_eq!(records.len(), 2);
    assert!(p.eof());
    assert_eq!(p.parse_ltsv().unwrap().len(), 0);
}

#[test]
fn after_an_error_the_rest_of_the_bad_line_is_unread() {
    let mut p = parser_of(b"a:1\nb:\x00\tc:3\nd:4");
    assert_eq!(p.parse_record().unwrap().1, Delimiter::Newline);
    assert_eq!(p.parse_record().err(), Some(ParseError::InvalidValueByte));
    assert_eq!(p.parse_field_value(), Err(ParseError::InvalidValueByte));
    p.bump();
    p.bump();
    let (r, _) = p.parse_record().unwrap();
    assert_eq!(pairs(&r), vec![pair("c", "3")]);
}

#[test]
fn each_error_has_its_message() {
    assert_eq!(ParseError::EmptyLabel.message(), "label is empty");
    assert_eq!(ParseError::InvalidLabelByte.message(), "invalid byte detected in field label");
    assert_eq!(ParseError::UnterminatedLabel.message(), "EOF while parsing field label");
    assert_eq!(ParseError::InvalidValueByte.message(), "invalid byte detected in field value");
    assert_eq!(
        ParseError::DanglingCarriageReturn.message(),
        "CR detected, but not provided with LF"
    );
}
