use fasta::errors::FastaError;
use fasta::parser::{parse, Parser};
use fasta::record::{wrap_string, Record};
use fasta::stream::{FastaBuffer, PeekableLines};

fn ok_lines(text: &str) -> Vec<Result<String, FastaError>> {
    text.lines().map(|l| Ok(l.to_string())).collect()
}

fn stream_all(lines: Vec<Result<String, FastaError>>) -> Vec<Record> {
    let mut buf = FastaBuffer::from(lines);
    let mut out = Vec::new();
    while let Some(r) = buf.next() {
        out.push(r.unwrap());
    }
    out
}

fn fields(r: &Record) -> (&str, &str, &str) {
    (r.id.as_str(), r.description.as_str(), r.sequence.as_str())
}

const EXAMPLE: &str = ">a desc one\nACGT\nACGT\n;comment\n>b\nTTTT\n";

#[test]
fn wrap_str_test() {
    let s = "hello world how are you today?";
    let ws = wrap_string(&s, 14);
    println!("{}", ws);
    assert_eq!(ws, "hello world ho\nw are you toda\ny?");
}

#[test]
fn wrap_shorter_than_width() {
    assert_eq!(wrap_string("ACGT", 80), "ACGT");
    assert_eq!(wrap_string("", 80), "");
}

#[test]
fn wrap_exact_multiple_ends_with_empty_line() {
    assert_eq!(wrap_string("ABCDEF", 3), "ABC\nDEF\n");
    assert_eq!(wrap_string("ABC", 3), "ABC\n");
}

#[test]
fn wrap_counts_characters_not_bytes() {
    assert_eq!(wrap_string("ééé", 2), "éé\né");
}

#[test]
fn header_without_whitespace() {
    let mut r = Record::new();
    r.set_header(">seq1");
    assert_eq!(r.id, "seq1");
    assert_eq!(r.description, "");
}

#[test]
fn header_with_description() {
    let mut r = Record::new();
    r.set_header(">seq1 description text");
    assert_eq!(r.id, "seq1");
    assert_eq!(r.description, "description text");
}

#[test]
fn header_without_marker_and_whitespace_run() {
    let mut r = Record::new();
    r.set_header("x1 \t  rest of it");
    assert_eq!(r.id, "x1");
    assert_eq!(r.description, "rest of it");
    r.set_header(">");
    assert_eq!(r.id, "");
    assert_eq!(r.description, "");
    r.set_header(">a\u{3000}b");
    assert_eq!(r.id, "a");
    assert_eq!(r.description, "b");
}

#[test]
fn set_header_keeps_sequence() {
    let mut r = Record::new();
    r.sequence = "ACGT".to_string();
    r.set_header(">q");
    assert_eq!(r.sequence, "ACGT");
}

#[test]
fn example_two_records() {
    let recs = parse(&ok_lines(EXAMPLE)).unwrap();
    assert_eq!(recs.len(), 2);
    assert_eq!(fields(&recs[0]), ("a", "desc one", "ACGTACGT"));
    assert_eq!(fields(&recs[1]), ("b", "", "TTTT"));
    let streamed = stream_all(ok_lines(EXAMPLE));
    assert_eq!(streamed.len(), 2);
    assert_eq!(fields(&streamed[0]), ("a", "desc one", "ACGTACGT"));
    assert_eq!(fields(&streamed[1]), ("b", "", "TTTT"));
}

#[test]
fn stream_and_batch_agree() {
    let inputs = [
        EXAMPLE,
        "",
        "ACGT\n>x y\n  AC  \n\n;c\nGT\n>z\n>w\nT",
        ">only",
        ";just a comment\n\n   \n",
    ];
    for text in inputs.iter() {
        let batch = parse(&ok_lines(text)).unwrap();
        let streamed = stream_all(ok_lines(text));
        assert_eq!(batch.len(), streamed.len());
        for (a, b) in batch.iter().zip(streamed.iter()) {
            assert_eq!(fields(a), fields(b));
        }
    }
}

#[test]
fn comments_and_blanks_are_ignored() {
    let text = ";lead\n\n>a d\nAC\n;inside\n   \nGT\n\n;between\n>b\n\nTT\n;tail\n";
    let recs = parse(&ok_lines(text)).unwrap();
    assert_eq!(recs.len(), 2);
    assert_eq!(fields(&recs[0]), ("a", "d", "ACGT"));
    assert_eq!(fields(&recs[1]), ("b", "", "TT"));
}

#[test]
fn no_header_no_records() {
    let text = "ACGT\nTTTT\n;c\n\n";
    assert_eq!(parse(&ok_lines(text)).unwrap().len(), 0);
    assert_eq!(stream_all(ok_lines(text)).len(), 0);
    assert_eq!(parse(&Vec::new()).unwrap().len(), 0);
}

#[test]
fn trailing_header_gives_empty_sequence() {
    let text = ">a\nAC\n>last one";
    let recs = parse(&ok_lines(text)).unwrap();
    assert_eq!(recs.len(), 2);
    assert_eq!(fields(&recs[1]), ("last", "one", ""));
    let streamed = stream_all(ok_lines(text));
    assert_eq!(fields(&streamed[1]), ("last", "one", ""));
}

#[test]
fn sequence_lines_are_trimmed() {
    let recs = parse(&ok_lines(">s\n  AC GT \t\n\tTT\n")).unwrap();
    assert_eq!(fields(&recs[0]), ("s", "", "AC GTTT"));
}

#[test]
fn as_string_renders_record() {
    let mut r = Record::new();
    r.id = "a".to_string();
    r.description = "desc one".to_string();
    r.sequence = "ACGTACGT".to_string();
    assert_eq!(r.as_string(), ">a desc one\nACGTACGT\n");
}

#[test]
fn as_string_wraps_at_eighty() {
    let mut r = Record::new();
    r.id = "long".to_string();
    r.sequence = "A".repeat(170);
    let expected = format!(">long \n{}\n{}\n{}\n", "A".repeat(80), "A".repeat(80), "A".repeat(10));
    assert_eq!(r.as_string(), expected);
}

#[test]
fn write_appends_bytes() {
    let mut r = Record::new();
    r.id = "x".to_string();
    r.sequence = "GG".to_string();
    let mut sink: Vec<u8> = b"pre".to_vec();
    r.write(&mut sink);
    assert_eq!(sink, b"pre>x \nGG\n".to_vec());
}

#[test]
fn round_trip() {
    let mut r = Record::new();
    r.id = "chr1".to_string();
    r.description = "a test record".to_string();
    r.sequence = "ACGT".repeat(55);
    let text = r.as_string();
    let back = parse(&ok_lines(&text)).unwrap();
    assert_eq!(back.len(), 1);
    assert_eq!(fields(&back[0]), fields(&r));
    let mut exact = Record::new();
    exact.id = "e".to_string();
    exact.sequence = "C".repeat(160);
    let back = stream_all(ok_lines(&exact.as_string()));
    assert_eq!(back.len(), 1);
    assert_eq!(fields(&back[0]), fields(&exact));
}

#[test]
fn batch_fails_on_unreadable_line() {
    let lines = vec![Ok(">a".to_string()), Err(FastaError), Ok("AC".to_string())];
    assert_eq!(parse(&lines).unwrap_err(), FastaError);
}

#[test]
fn stream_reports_unreadable_line_and_goes_on() {
    let lines = vec![Ok(">a".to_string()), Ok("AC".to_string()), Err(FastaError), Ok("GT".to_string())];
    let mut buf = FastaBuffer::from(lines);
    assert!(matches!(buf.next(), Some(Err(FastaError))));
    let r = buf.next().unwrap().unwrap();
    assert_eq!(fields(&r), ("a", "", "ACGT"));
    assert!(buf.next().is_none());
    assert!(buf.next().is_none());
}

#[test]
fn peekable_lines_peek_and_advance() {
    let mut src = PeekableLines::from(vec![Ok("one".to_string()), Err(FastaError)]);
    assert!(matches!(src.peekline(), Some(Ok(s)) if s == "one"));
    assert!(matches!(src.peekline(), Some(Ok(s)) if s == "one"));
    assert!(matches!(src.advanceline(), Some(Ok(s)) if s == "one"));
    assert!(matches!(src.peekline(), Some(Err(FastaError))));
    assert!(matches!(src.advanceline(), Some(Err(FastaError))));
    assert!(src.peekline().is_none());
    assert!(src.advanceline().is_none());
}

#[test]
fn parser_feed_and_finish() {
    let mut p = Parser::new();
    assert!(p.feed(">a x").is_none());
    assert!(p.feed("AC").is_none());
    let done = p.feed(">b").unwrap();
    assert_eq!(fields(&done), ("a", "x", "AC"));
    assert!(p.feed(">b").is_none());
    let last = p.finish().unwrap();
    assert_eq!(fields(&last), ("b", "", ""));
    assert!(p.finish().is_none());
}

#[test]
fn error_message() {
    assert_eq!(FastaError.message(), "Error parsing FASTA records");
}

#[test]
fn summary_shows_first_forty() {
    let mut r = Record::new();
    r.id = "a".to_string();
    r.description = "d".to_string();
    r.sequence = "C".repeat(50);
    assert_eq!(r.summary(), format!(">a d\n{}...", "C".repeat(40)));
    r.sequence = "GG".to_string();
    assert_eq!(r.summary(), ">a d\nGG...");
}
