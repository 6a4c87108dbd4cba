use english_tool::progress::ProcessData;
use english_tool::session::AfterMain;
use english_tool::session::MainChoice;
use english_tool::session::SubChoice;
use english_tool::words::Word;

fn word(w: &str, t: &str) -> Word {
    Word { word: w.to_string(), translated: t.to_string() }
}

fn list() -> Vec<Word> {
    vec![
        word("apple", " a"),
        word("pear", " b"),
        word("plum", " c"),
        word("fig", " d"),
        word("date", " e"),
    ]
}

#[test]
fn cursor_is_normalized_before_use() {
    let d = ProcessData { process: 12, later: vec![], removed: vec![] };
    assert_eq!(d.normalized_cursor(5), 2);
    let e = ProcessData { process: usize::MAX, later: vec![], removed: vec![] };
    assert!(e.normalized_cursor(5) < 5);
}

#[test]
fn next_three_times_advances_cursor() {
    let words = list();
    let mut d = ProcessData::default();
    for expected in 1..=3usize {
        let i = d.next_word_index(&words).unwrap();
        let after = d.choose_main(&words[i], &MainChoice::Next);
        assert!(matches!(after, AfterMain::Done));
        d.advance(words.len());
        assert_eq!(d.process, expected);
    }
}

#[test]
fn removed_words_are_never_presented() {
    let words = list();
    let mut d = ProcessData::default();
    d.mark_removed(&words[0]);
    d.mark_removed(&words[1]);
    d.mark_removed(&words[3]);
    for _ in 0..10 {
        let i = d.next_word_index(&words).unwrap();
        assert!(!d.is_removed(&words[i].word));
        d.advance(words.len());
    }
}

#[test]
fn all_removed_presents_nothing() {
    let words = list();
    let mut d = ProcessData::default();
    for w in &words {
        d.mark_removed(w);
    }
    assert_eq!(d.next_word_index(&words), None);
}

#[test]
fn skipping_lands_on_first_unremoved_at_or_after_cursor() {
    let words = list();
    let mut d = ProcessData { process: 1, later: vec![], removed: vec![] };
    d.mark_removed(&words[1]);
    d.mark_removed(&words[2]);
    assert_eq!(d.next_word_index(&words), Some(3));
    assert_eq!(d.process, 3);
    // wraps around past the end
    let mut e = ProcessData { process: 4, later: vec![], removed: vec![] };
    e.mark_removed(&words[4]);
    e.mark_removed(&words[0]);
    assert_eq!(e.next_word_index(&words), Some(1));
}

#[test]
fn show_then_later_queues_and_advances() {
    let words = list();
    let mut d = ProcessData::default();
    let i = d.next_word_index(&words).unwrap();
    let w = words[i].clone();
    let after = d.choose_main(&w, &MainChoice::Show);
    assert!(matches!(after, AfterMain::ShowTranslation));
    d.choose_sub(&w, &SubChoice::Later);
    d.advance(words.len());
    assert_eq!(d.later, vec![word("apple", " a")]);
    assert_eq!(d.process, 1);
}

#[test]
fn remove_choice_records_the_identifier() {
    let words = list();
    let mut d = ProcessData::default();
    let after = d.choose_main(&words[2], &MainChoice::Remove);
    assert!(matches!(after, AfterMain::Done));
    assert_eq!(d.removed, vec!["plum".to_string()]);
}

#[test]
fn sub_next_changes_nothing() {
    let words = list();
    let mut d = ProcessData::default();
    d.choose_sub(&words[0], &SubChoice::Next);
    assert_eq!(d, ProcessData::default());
}

#[test]
fn drain_check_is_certain_with_twelve_entries() {
    let mut d = ProcessData::default();
    for k in 0..12usize {
        d.push_later(word(&format!("w{}", k), ""));
    }
    // the threshold is reached for every possible draw
    for draw in 0..10usize {
        assert!(d.should_drain(draw));
    }
    // and so the random decision always triggers
    for _ in 0..50 {
        assert!(d.drain_triggered());
    }
}

#[test]
fn drain_never_triggers_on_empty_queue() {
    let d = ProcessData::default();
    for _ in 0..50 {
        assert!(!d.drain_triggered());
    }
}
