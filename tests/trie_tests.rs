use trie::Trie;

fn fold(a: char, b: char) -> bool {
    a.to_lowercase().eq(b.to_lowercase())
}

fn sorted(mut v: Vec<String>) -> Vec<String> {
    v.sort();
    v
}

fn strings(words: &[&str]) -> Vec<String> {
    sorted(words.iter().map(|w| String::from(*w)).collect())
}

#[test]
fn insert_and_search() {
    let mut trie = Trie::new();
    trie.add_word_mut("test");
    trie.add_word_mut("alex");
    trie.add_word_mut("mary");
    assert!(trie.search("test"));
    assert!(trie.search("alex"));
    assert!(trie.search("mary"));
}

#[test]
fn insert_and_predict() {
    let mut trie = Trie::new();
    trie.add_word_mut("test");
    trie.add_word_mut("alex");
    trie.add_word_mut("testosterone");
    trie.add_word_mut("alexander");
    assert!(trie.predict("alex").contains(&String::from("alexander")));
    assert!(trie.predict("test").contains(&String::from("testosterone")));
}

#[test]
fn doesnt_match_nonexistent() {
    let mut trie = Trie::new();
    trie.add_word_mut("test");
    trie.add_word_mut("alex");
    trie.add_word_mut("testosterone");
    trie.add_word_mut("alexander");
    assert_eq!(trie.predict("not_in_the_tree").len(), 0);
    assert_eq!(trie.predict("alexx").len(), 0);
}

#[test]
fn proper_prefix_is_not_found() {
    let mut trie = Trie::new();
    trie.add_word_mut("test");
    trie.add_word_mut("alex");
    trie.add_word_mut("mary");
    assert!(!trie.search("te"));
    assert!(!trie.search("tests"));
    assert!(!trie.search("bob"));
}

#[test]
fn new_trie_is_empty() {
    let trie = Trie::new();
    assert!(!trie.search(""));
    assert!(!trie.search("a"));
    assert!(trie.predict("").is_empty());
    assert!(trie.predict("a").is_empty());
}

#[test]
fn predict_lists_exactly_the_completions() {
    let mut trie = Trie::new();
    trie.add_word_mut("test");
    trie.add_word_mut("alex");
    trie.add_word_mut("testosterone");
    trie.add_word_mut("alexander");
    assert_eq!(sorted(trie.predict("alex")), strings(&["alex", "alexander"]));
    assert_eq!(sorted(trie.predict("test")), strings(&["test", "testosterone"]));
    assert_eq!(sorted(trie.predict("testo")), strings(&["testosterone"]));
    assert_eq!(sorted(trie.predict("alexander")), strings(&["alexander"]));
}

#[test]
fn no_match_after_a_shorter_shared_prefix() {
    let mut trie = Trie::new();
    trie.add_word_mut("alex");
    trie.add_word_mut("alexander");
    assert!(trie.predict("alexz").is_empty());
    assert!(trie.predict("ab").is_empty());
    assert!(!trie.search("alexz"));
}

#[test]
fn empty_word_is_stored() {
    let mut trie = Trie::new();
    trie.add_word_mut("");
    assert!(trie.search(""));
    assert!(trie.predict("").contains(&String::new()));
    trie.add_word_mut("ab");
    assert_eq!(sorted(trie.predict("")), strings(&["", "ab"]));
    assert!(!trie.search("a"));
}

#[test]
fn empty_query_lists_every_word_once() {
    let mut trie = Trie::new();
    for w in ["b", "a", "ab", "abc", "b", "ba", "a"] {
        trie.add_word_mut(w);
    }
    assert_eq!(sorted(trie.predict("")), strings(&["a", "ab", "abc", "b", "ba"]));
}

#[test]
fn repeated_insertion_changes_nothing() {
    let mut once = Trie::new();
    once.add_word_mut("word");
    once.add_word_mut("wore");
    let mut many = Trie::new();
    for _ in 0..3 {
        many.add_word_mut("word");
    }
    many.add_word_mut("wore");
    for q in ["", "w", "wor", "word", "wore", "words", "x"] {
        assert_eq!(once.search(q), many.search(q));
        assert_eq!(sorted(once.predict(q)), sorted(many.predict(q)));
    }
    assert_eq!(many.predict("word"), vec![String::from("word")]);
}

#[test]
fn every_inserted_word_is_found() {
    let words = ["one", "only", "on", "two", "twelve", "x", "xylophone"];
    let mut trie = Trie::new();
    for w in words {
        trie.add_word_mut(w);
    }
    for w in words {
        assert!(trie.search(w));
        for k in 0..=w.len() {
            assert!(trie.predict(&w[..k]).contains(&String::from(w)));
        }
    }
    for q in ["", "o", "onl", "tw", "twelv", "xy", "three", "ones"] {
        assert!(!trie.search(q));
    }
}

#[test]
fn predictions_start_with_the_query() {
    let mut trie = Trie::new();
    for w in ["car", "cart", "care", "cat", "dog", "do"] {
        trie.add_word_mut(w);
    }
    for q in ["", "c", "ca", "car", "d", "do", "dog", "z"] {
        for w in trie.predict(q) {
            assert!(w.starts_with(q));
            assert!(trie.search(&w));
        }
    }
    assert_eq!(sorted(trie.predict("car")), strings(&["car", "care", "cart"]));
}

#[test]
fn multibyte_words() {
    let mut trie = Trie::new();
    trie.add_word_mut("café");
    trie.add_word_mut("cafés");
    trie.add_word_mut("日本語");
    trie.add_word_mut("日本");
    trie.add_word_mut("🦀rust");
    trie.add_word_mut("é");
    assert!(trie.search("café"));
    assert!(trie.search("cafés"));
    assert!(!trie.search("caf"));
    assert!(!trie.search("cafe"));
    assert!(trie.search("日本語"));
    assert!(trie.search("日本"));
    assert!(!trie.search("日"));
    assert!(trie.search("🦀rust"));
    assert!(!trie.search("🦀"));
    assert!(trie.search("é"));
    assert!(!trie.search("e"));
    assert_eq!(sorted(trie.predict("caf")), strings(&["café", "cafés"]));
    assert_eq!(sorted(trie.predict("日")), strings(&["日本", "日本語"]));
    assert_eq!(sorted(trie.predict("🦀")), strings(&["🦀rust"]));
    assert!(trie.predict("日語").is_empty());
}

#[test]
fn predict_by_key_case_insensitive() {
    let mut trie = Trie::new();
    trie.add_word_mut("test");
    trie.add_word_mut("alex");
    trie.add_word_mut("Testosterone");
    trie.add_word_mut("Alexander");
    assert!(trie.predict_by_key("alex", fold).contains(&String::from("Alexander")));
    assert!(trie.predict_by_key("test", fold).contains(&String::from("Testosterone")));
    assert_eq!(sorted(trie.predict_by_key("ALEX", fold)), strings(&["Alexander", "alex"]));
    assert!(trie.predict_by_key("alexx", fold).is_empty());
}

#[test]
fn predict_by_key_with_equality_matches_predict() {
    let mut trie = Trie::new();
    for w in ["Alex", "alex", "alexander", "bob"] {
        trie.add_word_mut(w);
    }
    for q in ["", "a", "A", "alex", "Alex", "b", "z"] {
        assert_eq!(sorted(trie.predict_by_key(q, |a, b| a == b)), sorted(trie.predict(q)));
    }
    assert_eq!(sorted(trie.predict_by_key("", fold)), strings(&["Alex", "alex", "alexander", "bob"]));
}

#[test]
fn predict_by_key_keeps_stored_characters() {
    let mut trie = Trie::new();
    trie.add_word_mut("Éclair");
    trie.add_word_mut("éCLAT");
    assert_eq!(sorted(trie.predict_by_key("écl", fold)), strings(&["Éclair", "éCLAT"]));
    assert!(trie.predict_by_key("ecl", fold).is_empty());
    assert_eq!(sorted(trie.predict_by_key("x", |_a, _b| true)), strings(&["Éclair", "éCLAT"]));
    assert!(trie.predict_by_key("", |_a, _b| false).len() == 2);
}
