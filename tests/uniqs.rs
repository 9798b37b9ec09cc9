use uniqs::counts::{count, LineCounts};
use uniqs::dedup::{program, Dedup};
use uniqs::engine::{select_mode, Mode};
use uniqs::live::{LiveCount, FRAME_INTERVAL_NANOS};
use uniqs::text::{format_count, line_of_chunk, split_lines};

fn t(input: &[u8], expected: &str) {
    let actual = program(input);
    assert_eq!(String::from_utf8(actual).unwrap(), expected);
}

fn c(input: &[u8], expected: &str) {
    let actual = count(input);
    assert_eq!(String::from_utf8(actual).unwrap(), expected);
}

#[test]
fn test_abc() {
    t(
        b"\
aaa
aaa
aaa
bbb
bbb
bbb
ccc
ccc
ccc
",
        "\
aaa
bbb
ccc
",
    )
}

#[test]
fn test_abcabc() {
    t(
        b"\
a
b
c
a
b
c
a
b
c
",
        "\
a
b
c
",
    )
}

#[test]
fn test_count() {
    c(
        b"\
a
a
a
b
b
c
c
a
a
b
b
c
",
        r#"      5 a
      4 b
      3 c
"#,
    )
}

#[test]
fn empty_input_gives_empty_output() {
    t(b"", "");
    c(b"", "");
    let live = LiveCount::new(0);
    assert!(live.report().is_empty());
}

#[test]
fn last_line_without_newline() {
    t(b"xyz", "xyz\n");
    c(b"xyz", "      1 xyz\n");
}

#[test]
fn empty_lines_are_lines() {
    t(b"\n\na\n\n", "\na\n");
    c(b"\n\na\n\n", "      3 \n      1 a\n");
}

#[test]
fn dedup_is_idempotent_on_an_example() {
    let once = program(b"b\na\nb\nc\na\n");
    assert_eq!(once, b"b\na\nc\n".to_vec());
    assert_eq!(program(&once), once);
}

#[test]
fn counts_add_up_to_line_count() {
    let input = b"x\ny\nx\nz\nx\ny\n";
    let mut counts = LineCounts::new();
    for line in split_lines(input) {
        counts.add(line);
    }
    assert_eq!(counts.len(), 3);
    let mut sum = 0;
    for i in 0..counts.len() {
        sum += counts.entry(i).1;
    }
    assert_eq!(sum, 6);
    let (line, n) = counts.entry(0);
    assert_eq!((line.as_slice(), n), (&b"x"[..], 3));
    let (line, n) = counts.entry(1);
    assert_eq!((line.as_slice(), n), (&b"y"[..], 2));
    let (line, n) = counts.entry(2);
    assert_eq!((line.as_slice(), n), (&b"z"[..], 1));
}

#[test]
fn read_error_keeps_emitted_prefix() {
    // A source that yields three lines and then fails: the run stops with the
    // read error, and what was written for the first lines stands.
    let source: Vec<Result<Vec<u8>, &str>> =
        vec![Ok(b"p".to_vec()), Ok(b"q".to_vec()), Ok(b"p".to_vec()), Err("read failed"), Ok(b"r".to_vec())];
    let mut engine = Dedup::new();
    let mut sink: Vec<u8> = Vec::new();
    let mut outcome: Result<(), &str> = Ok(());
    for item in source {
        match item {
            Ok(line) => {
                if let Some(bytes) = engine.feed(line) {
                    sink.extend_from_slice(&bytes);
                }
            }
            Err(e) => {
                outcome = Err(e);
                break;
            }
        }
    }
    assert_eq!(outcome, Err("read failed"));
    assert_eq!(sink, b"p\nq\n".to_vec());
}

#[test]
fn feed_reports_only_new_lines() {
    let mut engine = Dedup::new();
    assert_eq!(engine.feed(b"k".to_vec()), Some(b"k\n".to_vec()));
    assert_eq!(engine.feed(b"k".to_vec()), None);
    assert_eq!(engine.feed(b"".to_vec()), Some(b"\n".to_vec()));
    assert_eq!(engine.feed(b"".to_vec()), None);
}

#[test]
fn count_field_formatting() {
    assert_eq!(format_count(0), b"      0".to_vec());
    assert_eq!(format_count(5), b"      5".to_vec());
    assert_eq!(format_count(42), b"     42".to_vec());
    assert_eq!(format_count(9_999_999), b"9999999".to_vec());
    assert_eq!(format_count(12_345_678), b"12345678".to_vec());
    assert_eq!(format_count(u64::MAX), b"18446744073709551615".to_vec());
}

#[test]
fn every_count_row_is_eight_wide_before_the_line() {
    let out = count(b"q\nrr\nq\n");
    let text = String::from_utf8(out).unwrap();
    for row in text.lines() {
        assert_eq!(&row[7..8], " ");
        assert!(row[..7].trim_start().chars().all(|ch| ch.is_ascii_digit()));
    }
    assert_eq!(text, "      2 q\n      1 rr\n");
}

#[test]
fn split_lines_edges() {
    assert!(split_lines(b"").is_empty());
    assert_eq!(split_lines(b"\n"), vec![Vec::<u8>::new()]);
    assert_eq!(split_lines(b"a\nb"), vec![b"a".to_vec(), b"b".to_vec()]);
    assert_eq!(split_lines(b"a\r\nb\n"), vec![b"a\r".to_vec(), b"b".to_vec()]);
}

#[test]
fn chunks_lose_only_their_newline() {
    assert_eq!(line_of_chunk(b"abc\n".to_vec()), b"abc".to_vec());
    assert_eq!(line_of_chunk(b"abc".to_vec()), b"abc".to_vec());
    assert_eq!(line_of_chunk(b"\n".to_vec()), Vec::<u8>::new());
    assert_eq!(line_of_chunk(Vec::new()), Vec::<u8>::new());
}

#[test]
fn mode_selection() {
    assert_eq!(select_mode(false, false), Mode::Dedup);
    assert_eq!(select_mode(false, true), Mode::Dedup);
    assert_eq!(select_mode(true, true), Mode::CountLive);
    assert_eq!(select_mode(true, false), Mode::CountBatch);
}

#[test]
fn frames_are_throttled() {
    let live = LiveCount::new(1_000);
    assert!(!live.frame_due(1_000));
    assert!(!live.frame_due(1_000 + FRAME_INTERVAL_NANOS));
    assert!(live.frame_due(1_001 + FRAME_INTERVAL_NANOS));
    assert!(!live.frame_due(0));
}

#[test]
fn frames_clip_and_redraw_counts_only() {
    let mut live = LiveCount::new(0);
    for line in [b"a".to_vec(), b"b".to_vec(), b"a".to_vec()] {
        live.add_line(line);
    }
    let rows = live.render(50_000_000, 24);
    assert_eq!(rows.len(), 2);
    assert_eq!((rows[0].row, rows[0].text.clone()), (0, b"      2 a".to_vec()));
    assert_eq!((rows[1].row, rows[1].text.clone()), (1, b"      1 b".to_vec()));
    for line in [b"c".to_vec(), b"b".to_vec(), b"d".to_vec()] {
        live.add_line(line);
    }
    assert!(!live.frame_due(60_000_000));
    assert!(live.frame_due(90_000_000));
    let rows = live.render(90_000_000, 3);
    assert_eq!(rows.len(), 3);
    assert_eq!(rows[0].text, b"      2".to_vec());
    assert_eq!(rows[1].text, b"      2".to_vec());
    assert_eq!(rows[2].text, b"      1 c".to_vec());
    assert_eq!(rows[2].row, 2);
    let rows = live.render(200_000_000, 0);
    assert!(rows.is_empty());
}

#[test]
fn rows_clipped_by_a_short_screen_are_drawn_in_full_later() {
    let mut live = LiveCount::new(0);
    for line in [b"a".to_vec(), b"b".to_vec(), b"c".to_vec(), b"a".to_vec()] {
        live.add_line(line);
    }
    let rows = live.render(40_000_000, 1);
    assert_eq!(rows.len(), 1);
    assert_eq!(rows[0].text, b"      2 a".to_vec());
    let rows = live.render(80_000_000, 10);
    assert_eq!(rows.len(), 3);
    assert_eq!(rows[0].text, b"      2".to_vec());
    assert_eq!(rows[1].text, b"      1 b".to_vec());
    assert_eq!(rows[2].text, b"      1 c".to_vec());
}

#[test]
fn live_report_matches_batch_report() {
    let input = b"a\na\na\nb\nb\nc\nc\na\na\nb\nb\nc\n";
    let mut live = LiveCount::new(0);
    for (i, line) in split_lines(input).into_iter().enumerate() {
        live.add_line(line);
        let now = (i as u64) * 20_000_000;
        if live.frame_due(now) {
            live.render(now, 2);
        }
    }
    assert_eq!(live.report(), count(input));
    assert_eq!(String::from_utf8(live.report()).unwrap(), "      5 a\n      4 b\n      3 c\n");
}
