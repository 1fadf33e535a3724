use lit::analyze::{merge_segment_words, pos_tags, tokens_to_word};
use lit::word::Word;
use lit::parser::{OverrideTable, WordParsing};
use lit::pattern::Pattern;
use lit::segment::TokenGroup;
use lit::root::{choose_root, is_noun_pos, is_verb_pos, normalize, root_candidates, RootProposal};
use lit::rules::{maybe_string_to_list, Reduction, Rule, RuleRow, RuleTrie};
use lit::status::WordStatus;
use lit::token::Token;
use lit::Error;

fn token(text: &str, pattern: &str) -> Token {
    Token { range: None, text: text.to_string(), pattern: Pattern::parse(pattern).unwrap() }
}

fn rule(pattern: &str, parents: Option<&str>, tags: Option<&str>, translation: Option<&str>, output: Option<&str>) -> Rule {
    Rule::from_row(RuleRow {
        pattern: Pattern::parse(pattern).unwrap(),
        parents: parents.map(|s| s.to_string()),
        tags: tags.map(|s| s.to_string()),
        translation: translation.map(|s| s.to_string()),
        output: output.map(|s| Pattern::parse(s).unwrap()),
    })
}

fn proposal(word: &str, pos: &str, tokens_consumed: usize, extra_element: bool, in_dict: bool) -> RootProposal {
    RootProposal { word: word.to_string(), pos: pos.to_string(), tokens_consumed, extra_element, in_dict }
}

#[test]
fn tag_classes() {
    assert!(is_noun_pos("NNG") && is_noun_pos("NP") && is_noun_pos("XSN") && is_noun_pos("ETN"));
    assert!(!is_noun_pos("VV") && !is_noun_pos("ETM"));
    assert!(is_verb_pos("VV") && is_verb_pos("VA") && is_verb_pos("VX") && is_verb_pos("XSV") && is_verb_pos("XSA"));
    assert!(!is_verb_pos("EP") && !is_verb_pos("VCP"));
}

#[test]
fn normalized_tags() {
    assert_eq!(proposal("", "VX", 0, false, false).normalize_pos(), "VV");
    assert_eq!(proposal("", "XSV", 0, false, false).normalize_pos(), "VV");
    assert_eq!(proposal("", "XSA", 0, false, false).normalize_pos(), "VA");
    assert_eq!(proposal("", "ETN", 0, false, false).normalize_pos(), "NN");
    assert_eq!(proposal("", "NNG", 0, false, false).normalize_pos(), "NNG");
}

#[test]
fn candidates_of_a_verb_run() {
    let tokens = vec![token("공부", "공부/NNG/*"), token("했", "하/XSV/*+았/EP/*"), token("다", "다/EF/*")];
    let cands = root_candidates(&tokens);
    let words: Vec<&str> = cands.iter().map(|c| c.word.as_str()).collect();
    assert_eq!(words, vec!["공부", "공부하다"]);
    assert!(cands[0].extra_element && cands[0].tokens_consumed == 0 && cands[0].pos == "NNG");
    assert!(cands[1].extra_element && cands[1].tokens_consumed == 1 && cands[1].pos == "XSV");
}

#[test]
fn known_candidate_beats_longer_unknown() {
    let known = proposal("하다", "VV", 0, true, true);
    let longer = proposal("했다다", "VV", 2, false, false);
    assert!(known.preferred_over(&longer));
    assert!(!longer.preferred_over(&known));
    let cands = vec![longer, known];
    assert_eq!(choose_root(&cands), Some(1));
}

#[test]
fn preference_order_without_dictionary() {
    let vx = proposal("a", "VX", 2, false, false);
    let vv = proposal("b", "VV", 1, false, false);
    assert!(vv.preferred_over(&vx));
    let vx_short = proposal("c", "VX", 1, false, false);
    assert!(vx_short.preferred_over(&vx));
    let long = proposal("d", "NNG", 2, false, false);
    let short = proposal("e", "NNG", 1, true, false);
    assert!(long.preferred_over(&short));
    let known_long = proposal("f", "NNG", 1, true, true);
    let known_short = proposal("g", "NNG", 1, false, true);
    assert!(known_long.preferred_over(&known_short));
}

#[test]
fn normalization_replaces_root() {
    let tokens = vec![token("공부", "공부/NNG/*"), token("했", "하/XSV/*+았/EP/*"), token("다", "다/EF/*")];
    let mut cands = root_candidates(&tokens);
    cands[1].in_dict = true;
    let (root, pattern) = normalize(&tokens, &cands).unwrap();
    assert_eq!(root, "공부하다");
    assert_eq!(pattern.notation(), "*/VV/*+았/EP/*+다/EF/*");
}

#[test]
fn normalization_without_root() {
    let tokens = vec![token("이", "이/VCP/*"), token("다", "다/EF/*")];
    let cands = root_candidates(&tokens);
    assert!(cands.is_empty());
    let (root, pattern) = normalize(&tokens, &cands).unwrap();
    assert_eq!(root, "이다");
    assert_eq!(pattern.notation(), "*/VCP/*+다/EF/*");
}

#[test]
fn list_items_are_trimmed() {
    assert_eq!(maybe_string_to_list(Some(" a, b ,c".to_string())), vec!["a", "b", "c"]);
    assert!(maybe_string_to_list(Some(String::new())).is_empty());
    assert!(maybe_string_to_list(None).is_empty());
}

#[test]
fn later_rule_replaces_same_pattern() {
    let mut rules = RuleTrie::new();
    assert!(!rules.insert(rule("다/EF/*", None, None, Some("one"), None)));
    assert!(rules.insert(rule("다/EF/*", None, None, Some("two"), None)));
    assert_eq!(rules.rules().len(), 1);
    assert_eq!(rules.rules()[0].translation.as_deref(), Some("two"));
}

#[test]
fn longest_rule_wins() {
    let mut rules = RuleTrie::new();
    rules.insert(rule("었/EP/*", None, None, None, Some("X/EP/*")));
    rules.insert(rule("었/EP/*+다/EF/*", None, None, None, Some("Y/EF/*")));
    let p = Pattern::parse("*/VA/*+었/EP/*+다/EF/*").unwrap();
    assert_eq!(rules.longest_match_at(&p, 1), Some(1));
    assert_eq!(rules.longest_match_at(&p, 0), None);
}

#[test]
fn terminal_rule_only_over_whole_pattern() {
    let mut rules = RuleTrie::new();
    rules.insert(rule("다/EC/*", None, Some("connective"), None, None));
    rules.insert(rule("되/XSV/*+었/EP/*+습니다/EF/*", Some("되다"), None, Some("became"), None));
    let mut p = Pattern::parse("되/XSV/*+었/EP/*+습니다/EF/*").unwrap();
    let mut parents = vec!["root".to_string()];
    let mut tags = vec![];
    let mut debug = String::new();
    match rules.reduce_pattern_once(&mut p, &mut parents, &mut tags, &mut debug) {
        Some(Reduction::Terminal(t)) => assert_eq!(t, "became"),
        other => panic!("unexpected {:?}", other),
    }
    assert_eq!(parents, vec!["root", "되다"]);

    let mut p = Pattern::parse("*/NNG/*+되/XSV/*+었/EP/*+습니다/EF/*").unwrap();
    let mut parents = vec![];
    let mut tags = vec![];
    let mut debug = String::new();
    assert!(rules.reduce_pattern_once(&mut p, &mut parents, &mut tags, &mut debug).is_none());
    assert!(parents.is_empty());
}

#[test]
fn rewrite_splices_output() {
    let mut rules = RuleTrie::new();
    rules.insert(rule("었/EP/*+다/EF/*", Some("p"), Some("past, past"), None, Some("다/EF/*")));
    let mut p = Pattern::parse("*/VA/*+었/EP/*+다/EF/*").unwrap();
    let mut parents = vec!["p".to_string()];
    let mut tags = vec![];
    let mut debug = String::new();
    assert!(matches!(rules.reduce_pattern_once(&mut p, &mut parents, &mut tags, &mut debug), Some(Reduction::Step)));
    assert_eq!(p.notation(), "*/VA/*+다/EF/*");
    assert_eq!(parents, vec!["p"]);
    assert_eq!(tags, vec!["past"]);
    assert!(debug.contains("Applying rule: 었/EP/*+다/EF/* ==> 다/EF/*"));
    assert!(debug.contains("Adding tag: past"));
}

#[test]
fn pos_tag_table() {
    assert_eq!(pos_tags("NNP"), vec!["noun", "proper noun"]);
    assert_eq!(pos_tags("XSA"), vec!["adj"]);
    assert!(pos_tags("EF").is_empty());
}

fn hard_tokens() -> Vec<Token> {
    vec![token("힘들", "힘들/VA/*"), token("었", "었/EP/*"), token("다", "다/EF/*")]
}

#[test]
fn end_to_end_translation() {
    let mut rules = RuleTrie::new();
    rules.insert(rule("었/EP/*+다/EF/*", None, None, None, Some("다/EF/*")));
    rules.insert(rule("*/VA/*+다/EF/*", None, None, Some("(verb ending)"), None));
    let tokens = hard_tokens();
    let mut cands = root_candidates(&tokens);
    for c in cands.iter_mut() {
        c.in_dict = c.word == "힘들다";
    }
    let w = tokens_to_word(&rules, "힘들었다", &tokens, &cands).unwrap();
    assert_eq!(w.text, "힘들었다");
    assert_eq!(w.parents, vec!["힘들다"]);
    assert_eq!(w.translation, "(verb ending)");
    assert!(w.inherit);
    assert_eq!(w.status, None);
}

#[test]
fn end_to_end_terminal_at_later_offset_stays_irreducible() {
    let mut rules = RuleTrie::new();
    rules.insert(rule("었/EP/*+다/EF/*", None, None, None, Some("다/EF/*")));
    rules.insert(rule("다/EF/*", None, None, Some("(verb ending)"), None));
    let tokens = hard_tokens();
    let mut cands = root_candidates(&tokens);
    for c in cands.iter_mut() {
        c.in_dict = c.word == "힘들다";
    }
    let w = tokens_to_word(&rules, "힘들었다", &tokens, &cands).unwrap();
    assert_eq!(w.parents, vec!["힘들다"]);
    assert_eq!(w.translation, "`*/VA/*+다/EF/*`");
    assert_eq!(w.status, Some(WordStatus::Unknown));
}

#[test]
fn root_word_is_its_own_entry() {
    let rules = RuleTrie::new();
    let tokens = vec![token("책", "책/NNG/*")];
    let cands = root_candidates(&tokens);
    let w = tokens_to_word(&rules, "책", &tokens, &cands).unwrap();
    assert_eq!(w.text, "책");
    assert!(w.parents.is_empty());
    assert_eq!(w.tags, vec!["noun"]);
    assert_eq!(w.status, Some(WordStatus::Unknown));
}

#[test]
fn empty_run_is_rejected() {
    let rules = RuleTrie::new();
    assert!(matches!(tokens_to_word(&rules, "", &vec![], &vec![]), Err(Error::NoTokens)));
}

#[test]
fn endless_rewriting_is_cut_off() {
    let mut rules = RuleTrie::new();
    rules.insert(rule("었/EP/*", None, None, None, Some("었/EP/*")));
    let tokens = hard_tokens();
    let cands = root_candidates(&tokens);
    assert!(matches!(tokens_to_word(&rules, "힘들었다", &tokens, &cands), Err(Error::ReductionLimit)));
}

#[test]
fn segment_words_merge() {
    let mut stored = Word::empty("책".to_string());
    stored.id = Some(1);
    let mut own_parent = Word::empty("책".to_string());
    own_parent.parents = vec!["책".to_string()];
    own_parent.translation = "x".to_string();
    let mut untranslated = Word::empty("책".to_string());
    untranslated.parents = vec!["채".to_string()];
    let mut translated = Word::empty("책".to_string());
    translated.translation = "book".to_string();
    let analysed = vec![own_parent, untranslated, translated];
    let merged = merge_segment_words(vec![stored], &analysed);
    assert_eq!(merged.len(), 2);
    assert_eq!(merged[0].id, Some(1));
    assert_eq!(merged[1].translation, "book");
    let merged = merge_segment_words(vec![], &analysed);
    assert_eq!(merged.len(), 2);
    assert!(merged[0].translation.is_empty());
}

#[test]
fn analysis_is_repeatable() {
    let mut rules = RuleTrie::new();
    rules.insert(rule("었/EP/*+다/EF/*", Some("past"), Some("past"), None, Some("다/EF/*")));
    rules.insert(rule("*/VA/*+다/EF/*", None, None, Some("(verb ending)"), None));
    let run = || {
        let tokens = hard_tokens();
        let mut cands = root_candidates(&tokens);
        for c in cands.iter_mut() {
            c.in_dict = c.word == "힘들다";
        }
        tokens_to_word(&rules, "힘들었다", &tokens, &cands).unwrap()
    };
    let (a, b) = (run(), run());
    assert_eq!(a.text, b.text);
    assert_eq!(a.parents, b.parents);
    assert_eq!(a.tags, b.tags);
    assert_eq!(a.translation, b.translation);
    assert_eq!(a.parents, vec!["힘들다", "past"]);
    assert_eq!(a.tags, vec!["past"]);
}


#[test]
fn override_runs_come_first() {
    let mut table = OverrideTable::new();
    table.add_override("갔".to_string(), WordParsing::parse("가(가/VV/*);았(았/EP/*)").unwrap());
    table.add_override("집".to_string(), WordParsing::parse("집(집/NNG/*)").unwrap());
    table.add_override("갔".to_string(), WordParsing::parse("갔(가/VV/*+았/EP/*)").unwrap());
    assert_eq!(table.entries.len(), 2);
    assert_eq!(table.overrides_for(&"갔".to_string()).unwrap().len(), 2);
    assert!(table.overrides_for(&"없".to_string()).is_none());
    let group = TokenGroup { range: 0..3, text: "갔".to_string(), tokens: vec![token("갔", "가/VV/*+았/EP/*")], is_word: true };
    let runs = table.token_runs(&group);
    assert_eq!(runs.len(), 3);
    assert_eq!(runs[0].iter().map(|t| t.text.as_str()).collect::<Vec<_>>(), vec!["가", "았"]);
    assert_eq!(runs[1][0].pattern.notation(), "가/VV/*+았/EP/*");
    assert_eq!(runs[2][0].text, "갔");
    let other = TokenGroup { range: 0..3, text: "책".to_string(), tokens: vec![token("책", "책/NNG/*")], is_word: true };
    assert_eq!(table.token_runs(&other).len(), 1);
}

#[test]
fn list_items_trim_unicode_white_space() {
    assert_eq!(maybe_string_to_list(Some("\t하다\u{3000},\u{a0}것 ".to_string())), vec!["하다", "것"]);
}

#[test]
fn words_of_all_runs() {
    let mut rules = RuleTrie::new();
    rules.insert(rule("*/VA/*+었/EP/*+다/EF/*", None, None, Some("was hard"), None));
    let tokens = hard_tokens();
    let mut cands = root_candidates(&tokens);
    for c in cands.iter_mut() {
        c.in_dict = true;
    }
    let single = vec![token("힘들었다", "힘들/VA/*+었/EP/*+다/EF/*")];
    let single_cands = root_candidates(&single);
    let ws = lit::analyze::build_words(&rules, "힘들었다", &vec![(single, single_cands), (tokens, cands)]).unwrap();
    assert_eq!(ws.len(), 2);
    assert_eq!(ws[1].translation, "was hard");
    assert!(matches!(lit::analyze::build_words(&rules, "x", &vec![(vec![], vec![])]), Err(Error::NoTokens)));
}
