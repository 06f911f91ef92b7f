use boggle::board::{Board, BoardResult, ShapeError, Word};
use boggle::lexicon::Lexicon;

fn chars(s: &str) -> Vec<char> {
    s.chars().collect()
}

fn dict(words: &[&str]) -> Lexicon {
    let list: Vec<Vec<char>> = words.iter().map(|w| chars(w)).collect();
    Lexicon::new(&list)
}

fn found_texts(res: &BoardResult) -> Vec<String> {
    let mut out = Vec::new();
    let mut k = 0;
    while k < res.len() {
        out.push(res.get(k).text().iter().collect::<String>());
        k += 1;
    }
    out
}

#[test]
fn shape_rejection_non_squares() {
    for n in [2usize, 3, 5, 10] {
        let cs: Vec<char> = vec!['x'; n];
        assert!(matches!(Board::new(&cs), Err(ShapeError)), "length {} must be rejected", n);
    }
}

#[test]
fn shape_acceptance_squares() {
    for n in [1usize, 4, 9, 16] {
        let cs: Vec<char> = vec!['x'; n];
        assert!(Board::new(&cs).is_ok(), "length {} must be accepted", n);
    }
}

#[test]
fn empty_grid_is_a_square() {
    let b = Board::new(&chars("")).unwrap();
    assert_eq!(b.dim(), 0);
    let d = dict(&["abc"]);
    assert_eq!(b.find_words(&d).len(), 0);
}

#[test]
fn single_cell_grid_reports_nothing() {
    let b = Board::new(&chars("a")).unwrap();
    let d = dict(&["a"]);
    assert_eq!(b.find_words(&d).len(), 0);
}

#[test]
fn grid_accessors() {
    let b = Board::new(&chars("ABDC")).unwrap();
    assert_eq!(b.dim(), 2);
    assert_eq!(b.at(0, 0), 'A');
    assert_eq!(b.at(0, 1), 'B');
    assert_eq!(b.at(1, 0), 'D');
    assert_eq!(b.at(1, 1), 'C');
}

#[test]
fn scenario_case_mismatch_yields_nothing() {
    let b = Board::new(&chars("ABCD")).unwrap();
    let d = dict(&["abc", "bad", "cab"]);
    let res = b.find_words(&d);
    assert_eq!(res.len(), 0);
}

#[test]
fn scenario_finds_abc_with_path() {
    let b = Board::new(&chars("abdc")).unwrap();
    let d = dict(&["abc"]);
    let res = b.find_words(&d);
    assert_eq!(res.len(), 1);
    let w = res.get(0);
    assert_eq!(*w.text(), chars("abc"));
    assert_eq!(*w.path(), vec![(0, 0), (0, 1), (1, 1)]);
}

#[test]
fn minimum_length_excludes_short_words() {
    let b = Board::new(&chars("abdc")).unwrap();
    let d = dict(&["ab", "bad"]);
    let res = b.find_words(&d);
    let texts = found_texts(&res);
    assert!(!texts.contains(&"ab".to_string()));
    assert_eq!(texts, vec!["bad".to_string()]);
}

#[test]
fn soundness_every_find_is_a_dictionary_word() {
    let b = Board::new(&chars("abdcxyzwq")).unwrap();
    let d = dict(&["abc", "bcw", "zzz", "xab", "wcz"]);
    let res = b.find_words(&d);
    let mut k = 0;
    while k < res.len() {
        assert!(d.is_word(res.get(k).text()));
        k += 1;
    }
}

#[test]
fn completeness_on_small_grid() {
    // In a 2x2 grid every pair of distinct cells is adjacent, so every
    // sequence of distinct cells is a path.
    let b = Board::new(&chars("abdc")).unwrap();
    let d = dict(&["abc", "abd", "bda", "cab", "xyz", "ab"]);
    let res = b.find_words(&d);
    let mut texts = found_texts(&res);
    texts.sort();
    assert_eq!(texts, vec!["abc", "abd", "bda", "cab"]);
}

#[test]
fn determinism_repeated_searches_agree() {
    let b = Board::new(&chars("abdcxyzwq")).unwrap();
    let d = dict(&["abc", "bcw", "xab", "zyx", "qwc"]);
    let r1 = b.find_words(&d);
    let r2 = b.find_words(&d);
    assert_eq!(r1.len(), r2.len());
    let mut k = 0;
    while k < r1.len() {
        assert_eq!(r1.get(k).text(), r2.get(k).text());
        assert_eq!(r1.get(k).path(), r2.get(k).path());
        k += 1;
    }
}

#[test]
fn dictionary_round_trip() {
    let d = dict(&["apple", "app", "banana"]);
    let persisted = d.persist();
    let restored = Lexicon::restore(&persisted).expect("persisted form must restore");
    for probe in ["apple", "app", "banana", "appl", "ap", "banan", "xyz", "", "applepie"] {
        let cs = chars(probe);
        assert_eq!(d.is_word(&cs), restored.is_word(&cs), "is_word({:?})", probe);
        assert_eq!(d.is_prefix(&cs), restored.is_prefix(&cs), "is_prefix({:?})", probe);
    }
}

#[test]
fn restore_rejects_malformed_text() {
    assert!(Lexicon::restore(&chars("hello")).is_err());
    assert!(Lexicon::restore(&chars(">abc")).is_err());
    assert!(Lexicon::restore(&chars(">abc\nxyz\n")).is_err());
}

#[test]
fn restore_accepts_well_formed_text() {
    let lex = Lexicon::restore(&chars(">abc\n>de\n")).unwrap();
    assert!(lex.is_word(&chars("abc")));
    assert!(lex.is_word(&chars("de")));
    assert!(!lex.is_word(&chars("ab")));
    assert!(lex.is_prefix(&chars("ab")));
}

#[test]
fn persist_distinguishes_empty_list_from_empty_word() {
    let none = dict(&[]);
    let one_empty = dict(&[""]);
    let p_none = none.persist();
    let p_one = one_empty.persist();
    assert_eq!(p_none, chars(""));
    assert_eq!(p_one, chars(">\n"));
    let r_none = Lexicon::restore(&p_none).unwrap();
    let r_one = Lexicon::restore(&p_one).unwrap();
    assert!(!r_none.is_word(&chars("")));
    assert!(r_one.is_word(&chars("")));
}

#[test]
fn empty_dictionary_queries() {
    let d = dict(&[]);
    assert!(!d.is_word(&chars("")));
    assert!(!d.is_word(&chars("a")));
    assert!(d.is_prefix(&chars("")));
    assert!(!d.is_prefix(&chars("a")));
}

#[test]
fn prefix_includes_every_inserted_word_prefix() {
    let d = dict(&["stone"]);
    for p in ["", "s", "st", "sto", "ston", "stone"] {
        assert!(d.is_prefix(&chars(p)), "prefix {:?}", p);
    }
    assert!(!d.is_prefix(&chars("stones")));
    assert!(!d.is_prefix(&chars("t")));
    assert!(d.is_word(&chars("stone")));
    assert!(!d.is_word(&chars("sto")));
}

#[test]
fn word_push_pop_round() {
    let mut w = Word::new();
    assert_eq!(w.len(), 0);
    w.push('a', (0, 0));
    w.push('b', (0, 1));
    assert_eq!(w.len(), 2);
    assert_eq!(w.pop(), Some(('b', (0, 1))));
    assert_eq!(w.len(), 1);
    assert_eq!(*w.text(), chars("a"));
    assert_eq!(w.pop(), Some(('a', (0, 0))));
    assert_eq!(w.pop(), None);
}

#[test]
fn result_set_deduplicates_keeping_first_path() {
    let mut res = BoardResult::new();
    let mut w1 = Word::new();
    w1.push('h', (0, 0));
    w1.push('i', (0, 1));
    let mut w2 = Word::new();
    w2.push('h', (1, 1));
    w2.push('i', (1, 0));
    res.add(w1);
    res.add(w2);
    assert_eq!(res.len(), 1);
    assert_eq!(*res.get(0).path(), vec![(0, 0), (0, 1)]);
}

#[test]
fn sorted_view_orders_by_descending_length_stably() {
    let mut res = BoardResult::new();
    for (text, row) in [("ccc", 0usize), ("a", 1), ("bb", 2), ("ddd", 3)] {
        let mut w = Word::new();
        for (k, c) in text.chars().enumerate() {
            w.push(c, (row, k));
        }
        res.add(w);
    }
    let sorted = res.sorted_view();
    let texts: Vec<String> = sorted.iter().map(|w| w.text().iter().collect()).collect();
    assert_eq!(texts, vec!["ccc", "ddd", "bb", "a"]);
}
