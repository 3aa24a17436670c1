use epp::{
    buffer_line, emit_report, parse_record, range, sketch_key, summary_line, ConfigError,
    ParseError, ReportEmit, ReportError, Sketch, StreamIngest,
};

fn lines(text: &[&str]) -> Vec<Vec<u8>> {
    text.iter().map(|l| l.as_bytes().to_vec()).collect()
}

fn text(v: &[u8]) -> String {
    String::from_utf8(v.to_vec()).unwrap()
}

/// Splits a report line into its header and its annotations.
fn parts(line: &[u8]) -> Vec<String> {
    text(line).split('\t').map(|s| s.to_string()).collect()
}

#[test]
fn confidence_of_hundred_is_a_config_error() {
    assert!(matches!(Sketch::new(1, 100), Err(ConfigError::Confidence)));
}

#[test]
fn confidence_of_zero_is_a_config_error() {
    assert!(matches!(Sketch::new(1, 0), Err(ConfigError::Confidence)));
    assert!(matches!(Sketch::new(1, 250), Err(ConfigError::Confidence)));
}

#[test]
fn epsilon_too_small_is_a_config_error() {
    assert!(matches!(Sketch::new(10, 99), Err(ConfigError::Epsilon)));
    assert!(matches!(Sketch::new(10, 100), Err(ConfigError::Epsilon)));
}

#[test]
fn dimensions_follow_epsilon_and_confidence() {
    let s = Sketch::new(0, 50).unwrap();
    assert_eq!((s.width(), s.depth()), (3, 1));
    let s = Sketch::new(1, 99).unwrap();
    assert_eq!((s.width(), s.depth()), (28, 5));
    let s = Sketch::new(2, 90).unwrap();
    assert_eq!((s.width(), s.depth()), (272, 3));
    let s = Sketch::new(3, 64).unwrap();
    assert_eq!((s.width(), s.depth()), (2719, 2));
    let s = Sketch::new(3, 63).unwrap();
    assert_eq!(s.depth(), 1);
    let s = Sketch::new(1, 98).unwrap();
    assert_eq!(s.depth(), 4);
    let s = Sketch::new(4, 96).unwrap();
    assert_eq!((s.width(), s.depth()), (27183, 4));
}

#[test]
fn footprint_does_not_grow_with_puts() {
    let mut s = Sketch::new(1, 99).unwrap();
    let (w, d) = (s.width(), s.depth());
    for i in 0..2000u32 {
        s.put(format!("key{}", i % 37).as_bytes());
    }
    assert_eq!((s.width(), s.depth()), (w, d));
}

#[test]
fn estimate_never_below_true_count() {
    let mut s = Sketch::new(1, 99).unwrap();
    let mut truth = std::collections::HashMap::new();
    for i in 0..500u32 {
        let key = format!("uv{}:op{}", i % 13, i % 7);
        s.put(key.as_bytes());
        *truth.entry(key).or_insert(0u64) += 1;
    }
    for (key, n) in truth {
        let e = s.get(key.as_bytes()).unwrap();
        assert!(e >= n, "{} estimated {} < {}", key, e, n);
    }
}

#[test]
fn fresh_sketch_reports_every_key_absent() {
    let s = Sketch::new(2, 99).unwrap();
    assert_eq!(s.get(b"A:x"), None);
    assert_eq!(s.get(b""), None);
}

#[test]
fn put_key_is_never_absent() {
    let mut s = Sketch::new(0, 99).unwrap();
    s.put(b"A:x");
    assert!(s.get(b"A:x").unwrap() >= 1);
    s.put(b"A:x");
    assert!(s.get(b"A:x").unwrap() >= 2);
}

#[test]
fn single_row_single_key_counts_exactly() {
    let mut s = Sketch::new(3, 50).unwrap();
    for _ in 0..5 {
        s.put(b"only");
    }
    assert_eq!(s.get(b"only"), Some(5));
}

#[test]
fn parses_a_record() {
    let r = parse_record(b"  A 2\tx \r\n").unwrap();
    assert_eq!(r.uv, b"A".to_vec());
    assert_eq!(r.c, 2);
    assert_eq!(r.op, b"x".to_vec());
}

#[test]
fn record_with_wrong_field_count_is_a_parse_error() {
    assert_eq!(parse_record(b"A 2"), Err(ParseError::FieldCount));
    assert_eq!(parse_record(b"A 2 x y"), Err(ParseError::FieldCount));
    assert_eq!(parse_record(b""), Err(ParseError::FieldCount));
}

#[test]
fn record_with_bad_count_is_a_parse_error() {
    assert_eq!(parse_record(b"A b x"), Err(ParseError::Count));
    assert_eq!(parse_record(b"A -2 x"), Err(ParseError::Count));
    assert_eq!(parse_record(b"A 18446744073709551616 x"), Err(ParseError::Count));
    assert_eq!(parse_record(b"A 18446744073709551615 x").unwrap().c, u64::MAX);
}

#[test]
fn buffer_line_and_key() {
    let r = parse_record(b"A 007 x").unwrap();
    assert_eq!(text(&buffer_line(&r)), "A 7 x\n");
    assert_eq!(text(&sketch_key(b"A", b"x")), "A:x");
}

#[test]
fn range_is_floor_of_epsilon_times_n() {
    assert_eq!(range(3, 1), 0);
    assert_eq!(range(25, 1), 2);
    assert_eq!(range(7, 0), 7);
    assert_eq!(range(123456, 3), 123);
}

#[test]
fn summary_line_text() {
    assert_eq!(
        text(&summary_line(3, 3, 1)),
        "Covered 3 lines of input with k=3, e=0.1 and a range of 0"
    );
    assert_eq!(
        text(&summary_line(1234, 4, 0)),
        "Covered 1234 lines of input with k=4, e=1 and a range of 1234"
    );
    assert_eq!(
        text(&summary_line(1234, 5, 3)),
        "Covered 1234 lines of input with k=5, e=0.001 and a range of 1"
    );
}

#[test]
fn ingest_counts_and_buffers() {
    let mut ing = StreamIngest::new(Sketch::new(1, 99).unwrap());
    assert_eq!(text(&ing.ingest_line(b"A 2 x").unwrap()), "A 2 x\n");
    assert_eq!(ing.ingest_line(b"A 2"), Err(ParseError::FieldCount));
    assert_eq!(ing.count(), 1);
    assert!(ing.sketch().get(b"A:x").unwrap() >= 1);
}

#[test]
fn end_to_end_example() {
    let mut ing = StreamIngest::new(Sketch::new(1, 99).unwrap());
    let mut buffer = Vec::new();
    for l in ["A 2 x", "A 2 x", "B 5 y"] {
        buffer.push(ing.ingest_line(l.as_bytes()).unwrap());
    }
    assert_eq!(ing.count(), 3);
    assert_eq!(
        text(&summary_line(ing.count(), 3, 1)),
        "Covered 3 lines of input with k=3, e=0.1 and a range of 0"
    );
    // what the outside sort -u does: sort the lines and drop repeated ones
    buffer.sort();
    buffer.dedup();
    assert_eq!(buffer.len(), 2);
    let sketch = ing.into_sketch();
    let out = emit_report(&sketch, 3, &buffer).unwrap();
    assert_eq!(out.len(), 2);
    let a = parts(&out[0]);
    assert_eq!(a[0], "A 2");
    assert_eq!(a.len(), 2);
    let (label, est) = a[1].split_once(' ').unwrap();
    assert_eq!(label, "3:x");
    assert!(est.parse::<u64>().unwrap() >= 2);
    let b = parts(&out[1]);
    assert_eq!(b[0], "B 5");
    assert_eq!(b.len(), 2);
    let (label, est) = b[1].split_once(' ').unwrap();
    assert_eq!(label, "3:y");
    assert!(est.parse::<u64>().unwrap() >= 1);
}

#[test]
fn malformed_line_aborts_the_report() {
    let mut s = Sketch::new(1, 99).unwrap();
    s.put(b"A:x");
    let unique = lines(&["A 2 x", "B 5"]);
    assert_eq!(emit_report(&s, 3, &unique), Err(ReportError::MalformedRecord));
    let mut em = ReportEmit::new(3);
    assert_eq!(em.push_line(&s, &unique[0]), Ok(None));
    assert_eq!(em.push_line(&s, &unique[1]), Err(ReportError::MalformedRecord));
}

#[test]
fn line_with_four_fields_is_malformed() {
    let s = Sketch::new(1, 99).unwrap();
    assert_eq!(
        emit_report(&s, 3, &lines(&["A 2 x y"])),
        Err(ReportError::MalformedRecord)
    );
}

#[test]
fn groups_come_in_input_order() {
    let mut s = Sketch::new(3, 99).unwrap();
    for k in ["A:x", "A:y", "B:z", "C:x"] {
        s.put(k.as_bytes());
    }
    let unique = lines(&["A 1 x", "A 1 y", "B 2 z", "C 3 x"]);
    let out = emit_report(&s, 4, &unique).unwrap();
    let heads: Vec<String> = out.iter().map(|l| parts(l)[0].clone()).collect();
    assert_eq!(heads, vec!["A 1", "B 2", "C 3"]);
    let a = parts(&out[0]);
    assert_eq!(a.len(), 3);
    assert!(a[1].starts_with("4:x "));
    assert!(a[2].starts_with("4:y "));
}

#[test]
fn streaming_report_matches_whole_report() {
    let mut s = Sketch::new(3, 99).unwrap();
    for k in ["A:x", "B:z"] {
        s.put(k.as_bytes());
    }
    let unique = lines(&["A 1 x", "A 1 y", "B 2 z"]);
    let mut em = ReportEmit::new(7);
    let mut streamed = Vec::new();
    for l in &unique {
        if let Some(done) = em.push_line(&s, l).unwrap() {
            streamed.push(done);
        }
    }
    streamed.extend(em.finish());
    assert_eq!(streamed, emit_report(&s, 7, &unique).unwrap());
}

#[test]
fn absent_op_gets_no_annotation() {
    let s = Sketch::new(3, 99).unwrap();
    let out = emit_report(&s, 3, &lines(&["A 2 x"])).unwrap();
    assert_eq!(text(&out[0]), "A 2");
}

#[test]
fn empty_file_gives_no_lines() {
    let s = Sketch::new(1, 99).unwrap();
    assert!(emit_report(&s, 3, &Vec::new()).unwrap().is_empty());
    assert_eq!(ReportEmit::new(3).finish(), None);
}

#[test]
fn report_is_repeatable() {
    let mut s = Sketch::new(1, 99).unwrap();
    for k in ["A:x", "A:x", "B:y", "C:q"] {
        s.put(k.as_bytes());
    }
    let unique = lines(&["A 2 x", "B 5 y", "B 5 z"]);
    let first = emit_report(&s, 3, &unique).unwrap();
    let second = emit_report(&s, 3, &unique).unwrap();
    assert_eq!(first, second);
}
