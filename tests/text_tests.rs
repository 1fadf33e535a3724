use lit::doc::{AlphabeticParser, PlainTextParser};
use lit::dt::Dir;
use lit::vtt::{fmt_cue_time, remove_tags, truncate_repetitions, CueTime, TruncateOptions};

fn opts(max: usize, keep: usize, suffix: &str) -> TruncateOptions {
    TruncateOptions { max_repetitions: max, truncated_repetitions: keep, truncation_suffix: suffix.to_string() }
}

fn chars(s: &str) -> Vec<char> {
    s.chars().collect()
}

#[test]
fn alphabetic_words_with_byte_ranges() {
    let segs = AlphabeticParser.parse("Hi, 세계 x2");
    let texts: Vec<&str> = segs.iter().map(|s| s.text.as_str()).collect();
    assert_eq!(texts, vec!["Hi", "세계", "x"]);
    assert_eq!(segs[0].range, 0..2);
    assert_eq!(segs[1].range, 4..10);
    assert_eq!(segs[2].range, 11..12);
    assert!(segs.iter().all(|s| s.words.is_empty()));
    assert!(AlphabeticParser.parse("12 ,.").is_empty());
}

#[test]
fn plain_text_is_one_span() {
    let d = PlainTextParser.parse_document("책을 읽다");
    assert_eq!(d.text, "책을 읽다");
    assert_eq!(d.spans, vec![0..13]);
}

#[test]
fn long_repetition_is_truncated() {
    let r = truncate_repetitions(&chars("hahahahahahahaha!"), &opts(5, 3, "..."));
    assert_eq!(r, "hahaha...!");
}

#[test]
fn short_repetition_is_kept() {
    let r = truncate_repetitions(&chars("hahaha"), &opts(5, 3, "..."));
    assert_eq!(r, "hahaha");
    assert_eq!(truncate_repetitions(&chars(""), &opts(5, 3, "...")), "");
}

#[test]
fn single_character_runs() {
    let r = truncate_repetitions(&chars("ㅋㅋㅋㅋㅋㅋㅋㅋ"), &opts(5, 3, "~"));
    assert_eq!(r, "ㅋㅋㅋ~");
}

#[test]
fn cue_times_format() {
    assert_eq!(fmt_cue_time(&CueTime { seconds: 75, millis: 5 }), "01:15.005");
    assert_eq!(fmt_cue_time(&CueTime { seconds: 3661, millis: 250 }), "01:01:01.250");
    assert_eq!(fmt_cue_time(&CueTime { seconds: 0, millis: 0 }), "00:00.000");
    assert_eq!(fmt_cue_time(&CueTime { seconds: 360000, millis: 1 }), "100:00:00.001");
}

#[test]
fn tags_are_removed() {
    assert_eq!(remove_tags("<i>안녕</i> 하세요".to_string()), "안녕 하세요");
    assert_eq!(remove_tags("a <b".to_string()), "a ");
    assert_eq!(remove_tags("plain".to_string()), "plain");
}

#[test]
fn cue_times_order() {
    assert!(CueTime { seconds: 1, millis: 999 } < CueTime { seconds: 2, millis: 0 });
    assert_eq!(Dir::default(), Dir::Asc);
}

#[test]
fn small_text_helpers() {
    assert_eq!(lit::text::sanitize_tag("proper noun"), "proper_noun");
    assert_eq!(lit::text::non_empty(""), None);
    assert_eq!(lit::text::non_empty("x"), Some("x".to_string()));
    assert!(lit::text::is_base64_digit('Z') && lit::text::is_base64_digit('-') && lit::text::is_base64_digit('7'));
    assert!(!lit::text::is_base64_digit('+') && !lit::text::is_base64_digit('가'));
}

#[test]
fn status_closeness_and_tags() {
    let s = lit::status::WordStatus::Level4;
    assert!(lit::status::is_status_close(s, lit::status::WordStatus::Level5));
    assert!(!lit::status::is_status_close(s, lit::status::WordStatus::WellKnown));
    let mut w = lit::word::Word::empty("a".to_string());
    w.tags = vec!["noun".to_string(), "noanki".to_string()];
    assert!(lit::word::has_tag(&w, &"noanki".to_string()));
    assert!(!lit::word::has_tag(&w, &"verb".to_string()));
    assert!(lit::word::has_any_tags(&w, &vec!["x".to_string(), "noun".to_string()]));
    assert!(!lit::word::has_any_tags(&w, &vec![]));
}
