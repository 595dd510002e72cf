use pick::output::{Output, DEFAULT_CAP};

fn strs(v: Vec<String>) -> Vec<String> {
    v
}

#[test]
fn output_short_output_is_kept_in_full() {
    let mut output = Output::new();
    output.push("one".to_owned());
    output.push("two".to_owned());

    assert_eq!(output.lines(), 2);
    assert_eq!(output.bytes(), 8);
    assert_eq!(output.lines_ellided(), 0);
    assert_eq!(output.to_string(), "one\ntwo");
    assert_eq!(output.all(), ["one", "two"]);
    assert_eq!(Output::new().to_string(), "");
}

#[test]
fn output_a_notice_is_pushed_bracketed() {
    let mut output = Output::new();
    output.push("hello".to_owned());
    output.push_notice("World is vast".to_owned());

    assert_eq!(output.to_string(), "hello\n[World is vast]");
    assert_eq!(output.lines(), 2);
}

#[test]
fn output_a_long_output_keeps_only_its_head_and_tail() {
    let mut output = Output::new();
    for line in 0..(DEFAULT_CAP * 3) {
        output.push(format!("line {line}"));
    }

    assert_eq!(output.lines(), DEFAULT_CAP * 3);
    assert_eq!(output.lines_ellided(), DEFAULT_CAP);
    assert_eq!(output.head(1), ["line 0"]);
    assert_eq!(
        output.head(DEFAULT_CAP).last().cloned(),
        Some(format!("line {}", DEFAULT_CAP - 1))
    );
    assert_eq!(
        output.tail(DEFAULT_CAP).first().cloned(),
        Some(format!("line {}", DEFAULT_CAP * 2))
    );
    assert_eq!(output.tail(1), [format!("line {}", DEFAULT_CAP * 3 - 1)]);
    assert_eq!(output.all().len(), DEFAULT_CAP * 2);
    // `n` is capped at `DEFAULT_CAP`.
    assert_eq!(output.head(DEFAULT_CAP * 3), output.head(DEFAULT_CAP));
    assert_eq!(output.tail(DEFAULT_CAP * 3), output.tail(DEFAULT_CAP));

    let rendered = output.to_string();
    assert!(rendered.starts_with("line 0\nline 1\n"));
    assert!(rendered.contains(&format!(
        "line 499\n[... {DEFAULT_CAP} lines elided]\nline {}",
        DEFAULT_CAP * 2
    )));
    assert!(rendered.ends_with(&format!("line {}", DEFAULT_CAP * 3 - 1)));
}

#[test]
fn output_tail_lines_span_the_head_and_tail() {
    let mut output = Output::new();
    for line in 0..10 {
        output.push(format!("line {line}"));
    }

    assert_eq!(output.head(2), ["line 0", "line 1"]);
    assert_eq!(output.tail(3), ["line 7", "line 8", "line 9"]);
    assert_eq!(output.tail(1), ["line 9"]);

    for line in 0..DEFAULT_CAP {
        output.push(format!("more {line}"));
    }

    assert_eq!(output.tail(2), ["more 498", "more 499"]);
}

#[test]
fn output_a_lowered_cap_bounds_the_head_and_tail() {
    let mut output = Output::with_cap(3);
    for line in 0..8 {
        output.push(format!("line {line}"));
    }

    assert_eq!(output.lines(), 8);
    assert_eq!(output.lines_ellided(), 2);
    assert_eq!(output.head(8), ["line 0", "line 1", "line 2"]);
    assert_eq!(output.tail(8), ["line 5", "line 6", "line 7"]);
    assert_eq!(
        output.to_string(),
        "line 0\nline 1\nline 2\n[... 2 lines elided]\nline 5\nline 6\nline 7"
    );
}

#[test]
fn a_tail_spanning_both_buffers_is_in_reading_order() {
    let mut output = Output::with_cap(5);
    for line in 0..8 {
        output.push(format!("line {line}"));
    }

    assert_eq!(output.tail(4), ["line 4", "line 5", "line 6", "line 7"]);
    assert_eq!(
        output.tail(5),
        ["line 3", "line 4", "line 5", "line 6", "line 7"]
    );
    assert_eq!(output.tail(2), ["line 6", "line 7"]);
}

#[test]
fn output_a_raised_cap_keeps_the_output_whole() {
    let mut output = Output::with_cap(8);
    for line in 0..8 {
        output.push(format!("line {line}"));
    }

    assert_eq!(output.lines_ellided(), 0);
    assert_eq!(
        output.to_string(),
        "line 0\nline 1\nline 2\nline 3\nline 4\nline 5\nline 6\nline 7"
    );
}

#[test]
fn a_line_longer_than_the_byte_cap_is_truncated() {
    let mut output = Output::with_caps(DEFAULT_CAP, 40);
    output.push("x".repeat(100));

    assert_eq!(output.lines(), 1);
    assert_eq!(output.bytes(), 101);
    assert!(output.to_string().len() < 40);
    assert!(output.to_string().starts_with(&"x".repeat(11)));
    assert!(output.to_string().ends_with("[... 89 bytes elided]"));
}

#[test]
fn a_truncation_stays_on_a_char_boundary() {
    let mut output = Output::with_caps(DEFAULT_CAP, 40);
    output.push("é".repeat(100));

    assert!(output.to_string().starts_with("ééééé"));
    assert!(output.to_string().ends_with("[... 190 bytes elided]"));
}

#[test]
fn the_byte_cap_drops_the_oldest_kept_lines() {
    let mut output = Output::with_caps(DEFAULT_CAP, 25);
    for c in ['a', 'b', 'c'] {
        output.push(c.to_string().repeat(9));
    }

    assert_eq!(output.lines(), 3);
    assert_eq!(output.lines_ellided(), 1);
    assert_eq!(
        output.to_string(),
        "[... 1 lines elided]\nbbbbbbbbb\nccccccccc"
    );
}

#[test]
fn the_kept_lines_stay_within_the_byte_cap() {
    let mut output = Output::with_caps(DEFAULT_CAP, 30);
    output.push("x".repeat(100));
    for _ in 0..100 {
        output.push("d".to_owned());
    }

    assert_eq!(output.lines(), 101);
    assert_eq!(output.all().len(), 15);
    assert!(output.to_string().starts_with("[... 86 lines elided]"));
}

#[test]
fn byte_pressure_keeps_the_tail() {
    let mut output = Output::with_caps(DEFAULT_CAP, 30);
    for _ in 0..100 {
        output.push("e".to_owned());
    }

    assert_eq!(output.lines_ellided(), 85);
    assert_eq!(output.head(2), ["e", "e"]);
    assert_eq!(output.tail(2), ["e", "e"]);
}

#[test]
fn byte_pressure_elides_the_front_and_the_middle() {
    let mut output = Output::new();
    for _ in 0..DEFAULT_CAP {
        output.push("z".repeat(130));
    }

    for _ in 0..700 {
        output.push("a".to_owned());
    }

    assert!(output.front() > 0);
    assert_eq!(output.lines_ellided(), 200);
    let middle = output.lines_ellided() - output.front();
    assert!(middle > 0);

    let rendered = output.to_string();
    assert!(rendered.starts_with(&format!("[... {} lines elided]", output.front())));
    assert!(rendered.contains(&format!("[... {middle} lines elided]")));
    assert_eq!(strs(output.head(1)), ["z".repeat(130)]);
    assert_eq!(strs(output.tail(1)), ["a"]);
}

#[test]
fn a_short_output_is_kept_whole_law_example() {
    // The law of short outputs, on values: lines within both caps are all
    // kept, in order, nothing elided.
    let mut output = Output::with_caps(4, 100);
    for line in ["a", "bb", "ccc"] {
        output.push(line.to_owned());
    }
    assert_eq!(output.all(), ["a", "bb", "ccc"]);
    assert_eq!(output.lines_ellided(), 0);
}

#[test]
fn truncate_marks_the_bytes_it_drops() {
    assert_eq!(pick::output::truncate("abcdefghij", 30), "abcdefghij"[..2].to_owned() + "[... 8 bytes elided]");
}

#[test]
fn a_notice_survives_the_byte_cap() {
    let mut output = Output::with_caps(10, 16);
    output.push("0123456789".to_owned());
    output.push_notice("a notice longer than the byte cap".to_owned());

    assert_eq!(output.front(), 0);
    assert!(output.all().contains(&"[a notice longer than the byte cap]".to_owned()));
    assert!(output.to_string().ends_with("[a notice longer than the byte cap]"));
}

#[test]
fn the_newest_line_is_kept_under_byte_pressure() {
    let mut output = Output::with_caps(3, 40);
    for line in 0..10 {
        output.push(format!("line {line} {}", "-".repeat(10)));
        assert_eq!(output.all().last(), Some(&format!("line {line} {}", "-".repeat(10))));
    }

    // A line longer than the cap is kept cut, still the newest.
    output.push("y".repeat(100));
    let last = output.all().last().cloned().unwrap();
    assert!(last.starts_with("yyyyyyyyyyy"));
    assert!(last.ends_with("bytes elided]"));
    assert!(last.len() + 1 <= 40);
}
