use lit::parser::WordParsing;
use lit::pattern::{normalize_jamo, normalize_text, Element, Pattern};
use lit::segment::group_tokens;
use lit::token::{fill_gaps, tokens_from_lexer, Token};
use lit::word::{Segment, Word};
use lit::Error;

fn token(text: &str, start: usize, end: usize, pattern: &str) -> Token {
    Token { range: Some(start..end), text: text.to_string(), pattern: Pattern::parse(pattern).unwrap() }
}

#[test]
fn element_parses_three_fields() {
    let e = Element::parse("먹/VV/*").unwrap();
    assert_eq!(e.text, "먹");
    assert_eq!(e.pos, "VV");
    assert!(matches!(Element::parse("먹/VV"), Err(Error::Parse(m)) if m == "먹/VV"));
    assert!(Element::parse("a/b/c/d").is_err());
}

#[test]
fn element_text_is_jamo_normalized() {
    let e = Element::parse("\u{11af}/ETM/*").unwrap();
    assert_eq!(e.text, "\u{3139}");
    assert_eq!(normalize_jamo('\u{1100}'), '\u{3131}');
    assert_eq!(normalize_jamo('\u{1175}'), '\u{3163}');
    assert_eq!(normalize_jamo('가'), '가');
    assert_eq!(normalize_text("\u{1100}a\u{11a8}"), "\u{3131}a\u{3131}");
}

#[test]
fn pattern_parses_and_prints() {
    let p = Pattern::parse("되/XSV/*+었/EP/*+습니다/EF/*").unwrap();
    assert_eq!(p.0.len(), 3);
    assert_eq!(p.0[2].text, "습니다");
    assert_eq!(p.notation(), "되/XSV/*+었/EP/*+습니다/EF/*");
    assert_eq!(Element::parse("다/EF/*").unwrap().notation(), "다/EF/*");
    assert!(Pattern::parse("되/XSV/*+었/EP").is_err());
}

#[test]
fn word_class_by_tag() {
    assert!(Pattern::parse("먹/VV/*+었/EP/*").unwrap().is_word());
    assert!(!Pattern::parse(",/SC/*").unwrap().is_word());
    assert!(!Pattern::parse("x/UNK/*").unwrap().is_word());
    assert!(!Pattern::parse("먹/VV/*+./SF/*").unwrap().is_word());
}

#[test]
fn feature_string_with_own_pattern() {
    let t = Token::from_feature("VV+EP,*,T,했,Inflect,VV,EP,하/VV/*+았/EP/*", 3..6).unwrap();
    assert_eq!(t.text, "했");
    assert_eq!(t.range, Some(3..6));
    assert_eq!(t.pattern.notation(), "하/VV/*+았/EP/*");
}

#[test]
fn feature_string_with_star_pattern() {
    let t = Token::from_feature("NNG,*,T,책,*,*,*,*", 0..3).unwrap();
    assert_eq!(t.text, "책");
    assert_eq!(t.pattern.notation(), "책/NNG/*");
}

#[test]
fn feature_string_field_count() {
    assert!(matches!(Token::from_feature("NNG,*,T,책", 0..3), Err(Error::Tokenize(_))));
}

#[test]
fn gaps_are_filled_between_tokens() {
    let text = "책 읽다.";
    let lexed = vec![token("책", 0, 3, "책/NNG/*"), token("읽다", 4, 10, "읽/VV/*+다/EF/*"), token(".", 10, 11, "./SF/*")];
    let q = fill_gaps(text, lexed).unwrap();
    let texts: Vec<&str> = q.iter().map(|t| t.text.as_str()).collect();
    assert_eq!(texts, vec!["책", " ", "읽다", "."]);
    assert_eq!(q[1].range, Some(3..4));
    assert_eq!(q[1].pattern.notation(), " /UNK/*");
}

#[test]
fn gaps_at_both_ends_and_star_tokens_dropped() {
    let text = " 책 ";
    let lexed = vec![token("*", 0, 1, "*/SY/*"), token("책", 1, 4, "책/NNG/*")];
    let q = fill_gaps(text, lexed).unwrap();
    let texts: Vec<&str> = q.iter().map(|t| t.text.as_str()).collect();
    assert_eq!(texts, vec![" ", "책", " "]);
    assert_eq!(q[2].range, Some(4..5));
}

#[test]
fn overlapping_tokens_are_rejected() {
    let lexed = vec![token("책", 0, 3, "책/NNG/*"), token("책", 1, 4, "책/NNG/*")];
    assert!(matches!(fill_gaps("책책", lexed), Err(Error::Tokenize(_))));
}

#[test]
fn segments_partition_the_input() {
    let text = "책을 읽었다.";
    let lexed = vec![
        token("책", 0, 3, "책/NNG/*"),
        token("을", 3, 6, "을/JKO/*"),
        token("읽", 7, 10, "읽/VV/*"),
        token("었", 10, 13, "었/EP/*"),
        token("다", 13, 16, "다/EF/*"),
        token(".", 16, 17, "./SF/*"),
    ];
    let q = fill_gaps(text, lexed).unwrap();
    let groups = group_tokens(&q).unwrap();
    let texts: Vec<&str> = groups.iter().map(|g| g.text.as_str()).collect();
    assert_eq!(texts, vec!["책을", " ", "읽었다", "."]);
    assert_eq!(texts.concat(), text);
    assert_eq!(groups[0].range, 0..6);
    assert_eq!(groups[2].range, 7..16);
    assert!(groups[2].is_word && !groups[1].is_word);
    let mut end = 0;
    for g in groups.iter() {
        assert_eq!(g.range.start, end);
        end = g.range.end;
    }
    assert_eq!(end, text.len());
}

#[test]
fn grouping_is_repeatable() {
    let text = "책 책";
    let make = || vec![token("책", 0, 3, "책/NNG/*"), token("책", 4, 7, "책/NNG/*")];
    let a = group_tokens(&fill_gaps(text, make()).unwrap()).unwrap();
    let b = group_tokens(&fill_gaps(text, make()).unwrap()).unwrap();
    assert_eq!(a.len(), b.len());
    for (x, y) in a.iter().zip(b.iter()) {
        assert_eq!(x.range, y.range);
        assert_eq!(x.text, y.text);
        assert_eq!(x.is_word, y.is_word);
    }
}

#[test]
fn token_without_range_is_rejected() {
    let q = vec![Token { range: None, text: "책".to_string(), pattern: Pattern::parse("책/NNG/*").unwrap() }];
    assert!(matches!(group_tokens(&q), Err(Error::Tokenize(_))));
}

#[test]
fn override_parsing() {
    let wp = WordParsing::parse("갔(가/VV/*+았/EP/*);다(다/EF/*)").unwrap();
    assert_eq!(wp.tokens.len(), 2);
    assert_eq!(wp.tokens[0].text, "갔");
    assert_eq!(wp.tokens[0].pattern.notation(), "가/VV/*+았/EP/*");
    assert_eq!(wp.tokens[1].range, None);
    assert!(matches!(WordParsing::parse("갔가/VV/*"), Err(Error::Parse(_))));
    assert!(matches!(WordParsing::parse("갔(가/VV/*"), Err(Error::Parse(_))));
}

#[test]
fn segment_offset() {
    let s = Segment { range: 2..5, text: "abc".to_string(), words: vec![Word::empty("abc".to_string())] };
    let s = s.with_offset(10);
    assert_eq!(s.range, 12..15);
    assert_eq!(s.text, "abc");
    assert_eq!(s.words.len(), 1);
}

#[test]
fn lexer_output_becomes_tokens_with_input_text() {
    let text = "했다.";
    let lexed = vec![
        ("VV+EP,*,T,하았,Inflect,VV,EP,하/VV/*+았/EP/*".to_string(), 0..3),
        ("EF,*,F,다,*,*,*,*".to_string(), 3..6),
    ];
    let q = tokens_from_lexer(text, &lexed).unwrap();
    let texts: Vec<&str> = q.iter().map(|t| t.text.as_str()).collect();
    assert_eq!(texts, vec!["했", "다", "."]);
    assert_eq!(q[0].pattern.notation(), "하/VV/*+았/EP/*");
    assert_eq!(q[2].pattern.notation(), "./UNK/*");
    let groups = lit::segment::group_tokens(&q).unwrap();
    let seg_texts: Vec<&str> = groups.iter().map(|g| g.text.as_str()).collect();
    assert_eq!(seg_texts.concat(), text);
}

#[test]
fn lexer_output_errors() {
    assert!(matches!(tokens_from_lexer("책", &vec![("NNG,*".to_string(), 0..3)]), Err(Error::Tokenize(_))));
    assert!(matches!(tokens_from_lexer("책", &vec![("NNG,*,T,책,*,*,*,x/y".to_string(), 0..3)]), Err(Error::Parse(_))));
    assert!(matches!(tokens_from_lexer("책", &vec![("NNG,*,T,책,*,*,*,*".to_string(), 0..2)]), Err(Error::Tokenize(_))));
    assert!(tokens_from_lexer("", &vec![]).unwrap().is_empty());
}

#[test]
fn empty_range_tokens_are_dropped() {
    let lexed = vec![token("", 0, 0, "x/NNG/*"), token("책", 0, 3, "책/NNG/*")];
    let q = fill_gaps("책", lexed).unwrap();
    assert_eq!(q.len(), 1);
    assert_eq!(q[0].text, "책");
}
