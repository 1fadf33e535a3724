use lit::resolve::{resolve_stati, resolve_stati_with_eval, resolve_status, segment_status_range, WordTree};
use lit::status::{fold_status_range_parents, fold_status_range_possibilities, WordStatus};
use lit::word::Word;
use lit::Error;

use WordStatus::{Ignored, Level2, Level3, Level4, Level5, New, Unknown, WellKnown};

fn word(text: &str, status: Option<WordStatus>, parents: &[&str]) -> Word {
    let mut w = Word::empty(text.to_string());
    w.status = status;
    w.parents = parents.iter().map(|p| p.to_string()).collect();
    w
}

#[test]
fn possibilities_unknown_gives_way() {
    assert_eq!(fold_status_range_possibilities((Unknown, Unknown), (New, Level3)).unwrap(), (New, Level3));
    assert_eq!(fold_status_range_possibilities((Level2, Level4), (Unknown, Unknown)).unwrap(), (Level2, Level4));
}

#[test]
fn possibilities_take_worst_low_and_best_high() {
    assert_eq!(fold_status_range_possibilities((Level2, Level3), (New, Level5)).unwrap(), (New, Level5));
    assert_eq!(fold_status_range_possibilities((Level4, WellKnown), (Level2, Level3)).unwrap(), (Level2, WellKnown));
}

#[test]
fn possibilities_skip_ignored() {
    assert_eq!(fold_status_range_possibilities((Ignored, Ignored), (New, New)).unwrap(), (New, New));
    assert_eq!(fold_status_range_possibilities((New, New), (Ignored, Ignored)).unwrap(), (New, New));
    assert_eq!(fold_status_range_possibilities((Ignored, Ignored), (Ignored, Ignored)).unwrap(), (Ignored, Ignored));
}

#[test]
fn possibilities_reject_half_ignored() {
    match fold_status_range_possibilities((Ignored, New), (New, New)) {
        Err(Error::InvalidStatusRange(a, b)) => assert_eq!((a, b), (Ignored, New)),
        other => panic!("unexpected {:?}", other),
    }
    match fold_status_range_possibilities((New, New), (Level2, Ignored)) {
        Err(Error::InvalidStatusRange(a, b)) => assert_eq!((a, b), (Level2, Ignored)),
        other => panic!("unexpected {:?}", other),
    }
}

#[test]
fn parents_lower_both_bounds() {
    assert_eq!(fold_status_range_parents((WellKnown, WellKnown), (Level2, Level4)).unwrap(), (Level2, Level4));
    assert_eq!(fold_status_range_parents((Level3, Level5), (New, WellKnown)).unwrap(), (New, Level5));
}

#[test]
fn parents_ignored_absorbs() {
    assert_eq!(fold_status_range_parents((Level3, Level5), (Ignored, Ignored)).unwrap(), (Ignored, Ignored));
    assert_eq!(fold_status_range_parents((Ignored, Ignored), (New, New)).unwrap(), (Ignored, Ignored));
}

#[test]
fn parents_reject_half_ignored() {
    assert!(matches!(
        fold_status_range_parents((WellKnown, WellKnown), (New, Ignored)),
        Err(Error::InvalidStatusRange(New, Ignored))
    ));
}

#[test]
fn parent_fold_never_exceeds_well_known() {
    let starts = [Unknown, New, Level2, Level3, Level4, Level5, WellKnown];
    for a in starts {
        for b in starts {
            let (lo, hi) = fold_status_range_parents((WellKnown, WellKnown), (a, b)).unwrap();
            assert!(lo.code() <= WellKnown.code() && hi.code() <= WellKnown.code());
            assert!(lo.code() <= a.code() && hi.code() <= b.code());
        }
    }
}

#[test]
fn ignored_entries_are_skipped() {
    let tree = WordTree { entries: vec![] };
    let words = vec![word("a", Some(Ignored), &[]), word("a", Some(New), &[])];
    assert_eq!(resolve_stati(&tree, &words).unwrap(), (New, New));
}

#[test]
fn status_inherits_from_parents() {
    let tree = WordTree {
        entries: vec![
            ("하다".to_string(), vec![word("하다", Some(Level4), &[])]),
            ("것".to_string(), vec![word("것", Some(New), &[]), word("것", Some(Level5), &[])]),
        ],
    };
    let w = word("할 것", None, &["하다", "것"]);
    assert_eq!(resolve_status(&tree, &w).unwrap(), (New, Level4));
}

#[test]
fn own_status_wins() {
    let tree = WordTree { entries: vec![] };
    let w = word("x", Some(Level3), &["missing"]);
    assert_eq!(resolve_status(&tree, &w).unwrap(), (Level3, Level3));
}

#[test]
fn missing_parent_is_reported() {
    let tree = WordTree { entries: vec![] };
    let w = word("x", None, &["missing"]);
    assert!(matches!(resolve_status(&tree, &w), Err(Error::MissingWords(t)) if t == "missing"));
}

#[test]
fn parent_cycle_is_detected() {
    let tree = WordTree {
        entries: vec![
            ("a".to_string(), vec![word("a", None, &["b"])]),
            ("b".to_string(), vec![word("b", None, &["a"])]),
        ],
    };
    let w = word("a", None, &["b"]);
    assert!(matches!(resolve_status(&tree, &w), Err(Error::CycleDetected(_))));
}

#[test]
fn evaluation_override_applies() {
    let tree = WordTree { entries: vec![("root".to_string(), vec![word("root", Some(New), &[])])] };
    let words = vec![word("child", None, &["root"])];
    let eval = |w: &Word| -> Option<WordStatus> {
        if w.text == "root" {
            Some(Level5)
        } else {
            w.status
        }
    };
    assert_eq!(resolve_stati_with_eval(&tree, &words, &eval).unwrap(), (Level5, Level5));
    assert_eq!(resolve_stati(&tree, &words).unwrap(), (New, New));
}

#[test]
fn status_codes() {
    assert_eq!(Ignored.code(), 98);
    assert_eq!(WellKnown.code(), 99);
    assert_eq!(WordStatus::from_code(3), Some(Level3));
    assert_eq!(WordStatus::from_code(7), None);
    assert_eq!(WordStatus::default(), Unknown);
}

#[test]
fn check_and_must() {
    assert!(lit::check(true, "fine").is_ok());
    assert!(matches!(lit::check(false, "bad"), Err(Error::Status(400, m)) if m == "bad"));
    assert_eq!(lit::must(Some(4)).unwrap(), 4);
    assert!(matches!(lit::must::<i32>(None), Err(Error::Status(404, _))));
}

#[test]
fn missing_parents_are_listed_once() {
    let mut tree = WordTree::new();
    tree.file("a".to_string(), vec![word("a", None, &["b", "c"]), word("a", None, &["b"])]);
    tree.file("c".to_string(), vec![word("c", None, &["a", "d"])]);
    assert_eq!(tree.missing_parents(), vec!["b".to_string(), "d".to_string()]);
    tree.file("b".to_string(), vec![]);
    tree.file("d".to_string(), vec![]);
    assert!(tree.missing_parents().is_empty());
}

#[test]
fn segment_range_from_resolved_words() {
    let mut a = word("a", None, &[]);
    a.resolved_status = Some((Level2, Level4));
    let mut b = word("b", None, &[]);
    b.resolved_status = Some((New, Level3));
    let c = word("c", None, &[]);
    assert_eq!(segment_status_range(&vec![a, c, b]), (New, Level4));
    assert_eq!(segment_status_range(&vec![]), (Unknown, Unknown));
}
