use lit::cache::Cache;
use lit::word::Word;

fn stored(id: i64, text: &str) -> Word {
    let mut w = Word::empty(text.to_string());
    w.id = Some(id);
    w.translation = format!("word {id}");
    w
}

#[test]
fn fresh_cache_knows_nothing() {
    let c = Cache::new();
    assert_eq!(c.exists_by_text("책"), None);
    assert!(c.find_all_words_by_text("책").is_none());
    assert!(c.find_word_by_id(1).is_none());
}

#[test]
fn insert_into_complete_text_is_found() {
    let mut c = Cache::new();
    c.set_text_index_complete("책");
    assert_eq!(c.exists_by_text("책"), Some(false));
    assert_eq!(c.find_all_words_by_text("책").unwrap().len(), 0);
    c.insert_word(&stored(7, "책"));
    let all = c.find_all_words_by_text("책").unwrap();
    assert_eq!(all.len(), 1);
    assert_eq!(all[0].id, Some(7));
    assert_eq!(all[0].translation, "word 7");
    assert_eq!(c.exists_by_text("책"), Some(true));
}

#[test]
fn invalidated_id_must_be_fetched_again() {
    let mut c = Cache::new();
    c.insert_word(&stored(7, "책"));
    assert_eq!(c.find_word_by_id(7).unwrap().text, "책");
    c.invalidate_by_id(7);
    assert!(c.find_word_by_id(7).is_none());
    assert_eq!(c.exists_by_text("책"), None);
}

#[test]
fn insert_without_id_is_ignored() {
    let mut c = Cache::new();
    c.insert_word(&Word::empty("책".to_string()));
    assert_eq!(c.exists_by_text("책"), None);
}

#[test]
fn reinsert_under_new_text_moves_the_id() {
    let mut c = Cache::new();
    c.set_text_index_complete("old");
    c.insert_word(&stored(3, "old"));
    c.set_text_index_complete("new");
    c.insert_word(&stored(3, "new"));
    assert!(c.find_all_words_by_text("old").is_none());
    assert_eq!(c.exists_by_text("old"), None);
    let all = c.find_all_words_by_text("new").unwrap();
    assert_eq!(all.len(), 1);
    assert_eq!(all[0].text, "new");
}

#[test]
fn same_text_reinsert_replaces_word() {
    let mut c = Cache::new();
    c.insert_word(&stored(3, "책"));
    let mut w = stored(3, "책");
    w.translation = "book".to_string();
    c.insert_word(&w);
    assert_eq!(c.find_word_by_id(3).unwrap().translation, "book");
}

#[test]
fn all_words_flag_answers_absent_texts() {
    let mut c = Cache::new();
    c.set_text_index_has_all_words();
    assert_eq!(c.exists_by_text("없음"), Some(false));
    assert_eq!(c.find_all_words_by_text("없음").unwrap().len(), 0);
}

#[test]
fn known_absent_drops_words() {
    let mut c = Cache::new();
    c.insert_word(&stored(1, "책"));
    c.insert_word(&stored(2, "책"));
    c.set_word_exists("책", false);
    assert!(c.find_word_by_id(1).is_none());
    assert!(c.find_word_by_id(2).is_none());
    assert_eq!(c.exists_by_text("책"), Some(false));
    c.set_word_exists("책", true);
    assert_eq!(c.exists_by_text("책"), Some(true));
}

#[test]
fn invalidations_of_flags() {
    let mut c = Cache::new();
    c.set_text_index_complete("책");
    c.set_word_exists("책", true);
    c.invalidate_text_index_complete("책");
    assert!(c.find_all_words_by_text("책").is_none());
    assert_eq!(c.exists_by_text("책"), Some(true));
    c.invalidate_text_index_flags("책");
    assert_eq!(c.exists_by_text("책"), None);
}

#[test]
fn store_results_are_filed() {
    let mut c = Cache::new();
    c.record_text_words("책", &vec![stored(1, "책"), stored(2, "책")]);
    let all = c.find_all_words_by_text("책").unwrap();
    assert_eq!(all.iter().map(|w| w.id.unwrap()).collect::<Vec<_>>(), vec![1, 2]);
    assert_eq!(c.exists_by_text("집"), None);

    let mut c = Cache::new();
    c.record_all_words(&vec![stored(1, "책"), stored(2, "집")]);
    assert_eq!(c.exists_by_text("집"), Some(true));
    assert_eq!(c.exists_by_text("물"), Some(false));
    assert_eq!(c.find_all_words_by_text("책").unwrap().len(), 1);
}
