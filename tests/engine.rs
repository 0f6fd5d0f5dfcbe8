use nlp::binary_trie::build_from_json_with_canonical;
use nlp::word_trie::TrieNode;
use nlp::engine::NlpEngine;

#[test]
fn test_trie_insert_and_search() {
    let mut trie = TrieNode::default();
    trie.insert("hello", 100);
    trie.insert("help", 50);
    trie.insert("world", 75);

    assert!(trie.search_prefix("hel").is_some());
    assert!(trie.search_prefix("wor").is_some());
    assert!(trie.search_prefix("xyz").is_none());
}

#[test]
fn test_engine_load_and_suggest() {
    let mut engine = NlpEngine::new();
    let json = r#"{"hello": 1000, "help": 500, "world": 750}"#;
    engine.load_dictionary(json).unwrap();

    let suggestions = engine.suggest("hel", &[], 5);
    assert!(!suggestions.is_empty());
    assert!(suggestions.iter().any(|s| s.text.to_lowercase() == "hello" || s.text.to_lowercase() == "help"));
}

#[test]
fn test_spell_check() {
    let mut engine = NlpEngine::new();
    let json = r#"{"hello": 1000, "world": 750}"#;
    engine.load_dictionary(json).unwrap();

    let result = engine.spell_check("hello", &[], 3);
    assert!(result.is_valid);

    let result = engine.spell_check("helo", &[], 3);
    assert!(result.is_typo);
    assert!(!result.suggestions.is_empty());
}

#[test]
fn test_learn_word() {
    let mut engine = NlpEngine::new();
    engine.learn_word("floris", &["hello".to_string()]);

    assert!(engine.personal_frequency("floris").is_some());
}

#[test]
fn test_predict_next_word() {
    let mut engine = NlpEngine::new();
    engine.learn_word("are", &["how".to_string()]);
    engine.learn_word("are", &["how".to_string()]);
    engine.learn_word("you", &["are".to_string()]);
    engine.learn_word("doing", &["you".to_string()]);

    let predictions = engine.predict_next_word(&["how".to_string()], 5);
    assert!(!predictions.is_empty());
    assert_eq!(predictions[0].text.to_lowercase(), "are");

    let predictions = engine.predict_next_word(&["how".to_string(), "are".to_string()], 5);
    assert!(predictions.iter().any(|s| s.text.to_lowercase() == "you"));
}

#[test]
fn test_canonical_form_storage() {
    let mut engine = NlpEngine::new();
    let json = r#"{"I'm": 200, "don't": 180, "USA": 150, "hello": 100}"#;
    engine.load_dictionary(json).unwrap();

    assert_eq!(engine.get_canonical_form("im"), Some("I'm".to_string()));
    assert_eq!(engine.get_canonical_form("dont"), Some("don't".to_string()));
    assert_eq!(engine.get_canonical_form("usa"), Some("USA".to_string()));
    assert_eq!(engine.get_canonical_form("hello"), None);
}

#[test]
fn test_suggest_returns_canonical_forms() {
    let mut engine = NlpEngine::new();
    let json = r#"{"I'm": 200, "don't": 180, "USA": 150, "hello": 100, "image": 90}"#;
    engine.load_dictionary(json).unwrap();

    let suggestions = engine.suggest("im", &[], 5);
    let texts: Vec<&str> = suggestions.iter().map(|s| s.text.as_str()).collect();
    assert!(texts.contains(&"I'm"), "Expected I'm in suggestions: {:?}", texts);

    let suggestions = engine.suggest("us", &[], 5);
    let texts: Vec<&str> = suggestions.iter().map(|s| s.text.as_str()).collect();
    assert!(texts.contains(&"USA"), "Expected USA in suggestions: {:?}", texts);

    let suggestions = engine.suggest("don", &[], 5);
    let texts: Vec<&str> = suggestions.iter().map(|s| s.text.as_str()).collect();
    assert!(texts.contains(&"don't"), "Expected don't in suggestions: {:?}", texts);
}

#[test]
fn test_spell_check_contractions() {
    let mut engine = NlpEngine::new();
    let json = r#"{"I'm": 200, "don't": 180, "USA": 150, "hello": 100}"#;
    engine.load_dictionary(json).unwrap();

    let result = engine.spell_check("im", &[], 3);
    assert!(result.is_typo, "im should be typo");
    assert!(result.suggestions.contains(&"I'm".to_string()),
        "Expected I'm in suggestions: {:?}", result.suggestions);

    let result = engine.spell_check("dont", &[], 3);
    assert!(result.is_typo, "dont should be typo");
    assert!(result.suggestions.contains(&"don't".to_string()),
        "Expected don't in suggestions: {:?}", result.suggestions);

    let result = engine.spell_check("usa", &[], 3);
    assert!(result.is_valid, "usa should be valid (maps to USA)");

    let result = engine.spell_check("hello", &[], 3);
    assert!(result.is_valid);
}

#[test]
fn test_ngrams_prediction() {
    let mut engine = NlpEngine::new();
    let ngrams = r#"{"how": {"are": 100, "is": 90}, "good": {"morning": 80, "night": 70}}"#;
    engine.load_ngrams_for_language("en_US", ngrams).unwrap();
    engine.set_language("en_US");

    let predictions = engine.predict_next_word(&["how".to_string()], 5);
    assert!(!predictions.is_empty());
    assert!(predictions.iter().any(|s| s.text == "are"));

    let predictions = engine.predict_next_word(&["good".to_string()], 5);
    assert!(predictions.iter().any(|s| s.text == "morning"));
}

#[test]
fn test_learned_beats_ngrams() {
    let mut engine = NlpEngine::new();
    let ngrams = r#"{"how": {"is": 10}}"#;
    engine.load_ngrams_for_language("en_US", ngrams).unwrap();
    engine.set_language("en_US");

    for _ in 0..5 {
        engine.learn_word("are", &["how".to_string()]);
    }

    let predictions = engine.predict_next_word(&["how".to_string()], 5);
    assert!(!predictions.is_empty());
    assert_eq!(predictions[0].text.to_lowercase(), "are");
}

#[test]
fn suggest_scenario_hel() {
    let mut engine = NlpEngine::new();
    engine.load_dictionary(r#"{"hello":1000,"help":500,"world":750}"#).unwrap();
    let s = engine.suggest("hel", &[], 5);
    let lower: Vec<String> = s.iter().map(|x| x.text.to_lowercase()).collect();
    assert!(lower.contains(&"hello".to_string()));
    assert!(lower.contains(&"help".to_string()));
    assert!(!lower.contains(&"world".to_string()));
}

#[test]
fn spell_check_scenario_helo() {
    let mut engine = NlpEngine::new();
    engine.load_dictionary(r#"{"hello":1000,"help":500,"world":750}"#).unwrap();
    let r = engine.spell_check("helo", &[], 3);
    assert!(r.is_typo);
    assert!(!r.is_valid);
    assert!(r.suggestions.contains(&"hello".to_string()));
}

#[test]
fn spell_check_scenario_canonical() {
    let mut engine = NlpEngine::new();
    engine.load_dictionary(r#"{"I'm":200,"don't":180,"USA":150,"hello":100}"#).unwrap();
    assert!(engine.spell_check("im", &[], 3).suggestions.contains(&"I'm".to_string()));
    assert!(engine.spell_check("dont", &[], 3).suggestions.contains(&"don't".to_string()));
    assert!(engine.spell_check("usa", &[], 3).is_valid);
    assert!(engine.spell_check("HELLO", &[], 3).is_valid);
    let empty = engine.spell_check("", &[], 3);
    assert!(!empty.is_valid && !empty.is_typo && empty.suggestions.is_empty());
}

#[test]
fn suggest_scenario_canonical() {
    let mut engine = NlpEngine::new();
    engine.load_dictionary(r#"{"I'm":200,"don't":180,"USA":150,"hello":100}"#).unwrap();
    let s = engine.suggest("im", &[], 5);
    assert!(s.iter().any(|x| x.text == "I'm" && x.is_eligible_for_auto_commit));
    let s = engine.suggest("us", &[], 5);
    assert!(s.iter().any(|x| x.text == "USA"));
}

#[test]
fn predict_scenario_learned() {
    let mut engine = NlpEngine::new();
    engine.learn_word("are", &["how".to_string()]);
    engine.learn_word("are", &["how".to_string()]);
    engine.learn_word("you", &["are".to_string()]);
    engine.learn_word("doing", &["you".to_string()]);
    let p = engine.predict_next_word(&["how".to_string()], 5);
    assert_eq!(p[0].text.to_lowercase(), "are");
    assert_eq!(p[0].confidence, 10000);
    let p = engine.predict_next_word(&["how".to_string(), "are".to_string()], 5);
    assert!(p.iter().any(|s| s.text.to_lowercase() == "you"));
    assert!(engine.predict_next_word(&[], 5).is_empty());
}

#[test]
fn suggest_respects_count_and_distinct_keys() {
    let mut engine = NlpEngine::new();
    engine.load_dictionary(r#"{"hello":1000,"help":500,"helmet":300,"hell":200,"held":100}"#).unwrap();
    engine.learn_word("hello", &[]);
    let s = engine.suggest("hel", &[], 3);
    assert_eq!(s.len(), 3);
    let mut keys: Vec<String> = s.iter().map(|x| x.text.to_lowercase().replace('\'', "")).collect();
    keys.sort();
    keys.dedup();
    assert_eq!(keys.len(), 3);
    assert!(engine.suggest("h", &[], 3).is_empty());
    for w in s.windows(2) {
        assert!(w[0].confidence >= w[1].confidence);
    }
}

#[test]
fn spell_check_is_deterministic() {
    let mut engine = NlpEngine::new();
    engine.load_dictionary(r#"{"hello":1000,"help":500,"hell":500,"held":500}"#).unwrap();
    let a = engine.spell_check("helo", &[], 3);
    let b = engine.spell_check("helo", &[], 3);
    assert_eq!(a.suggestions, b.suggestions);
    assert_eq!(a.is_valid, b.is_valid);
    assert_eq!(a.is_typo, b.is_typo);
}

#[test]
fn learn_word_grows_until_cap() {
    let mut engine = NlpEngine::new();
    let mut last = 0;
    for _ in 0..60 {
        engine.learn_word("  Word ", &[]);
        let f = engine.personal_frequency("word").unwrap();
        assert!(f > last || f == 255);
        last = f;
    }
    assert_eq!(last, 255);
    engine.learn_word("a", &[]);
    assert!(engine.personal_frequency("a").is_none());
}

#[test]
fn penalize_and_remove() {
    let mut engine = NlpEngine::new();
    engine.learn_word("word", &[]);
    engine.learn_word("word", &[]);
    engine.penalize_word("WORD");
    assert_eq!(engine.personal_frequency("word"), Some(9));
    assert!(engine.remove_word("Word"));
    assert!(!engine.remove_word("word"));
    engine.learn_word("xy", &[]);
    for _ in 0..40 {
        engine.penalize_word("xy");
    }
    assert!(engine.personal_frequency("xy").is_none());
}

#[test]
fn known_word_is_valid_in_any_case() {
    let mut engine = NlpEngine::new();
    engine.load_dictionary(r#"{"paris":120}"#).unwrap();
    assert!(engine.spell_check("Paris", &[], 3).is_valid);
    assert!(engine.spell_check("PARIS", &[], 3).is_valid);
    engine.learn_word("zork", &[]);
    assert!(engine.spell_check("ZORK", &[], 3).is_valid);
}

#[test]
fn frequency_scores() {
    let mut engine = NlpEngine::new();
    engine.load_dictionary(r#"{"a1":250,"b2":200,"c3":150,"d4":100,"e5":50,"f6":10,"g7":9}"#).unwrap();
    assert_eq!(engine.get_frequency("a1"), 10000);
    assert_eq!(engine.get_frequency("b2"), 9000);
    assert_eq!(engine.get_frequency("c3"), 8000);
    assert_eq!(engine.get_frequency("d4"), 7000);
    assert_eq!(engine.get_frequency("e5"), 5000);
    assert_eq!(engine.get_frequency("f6"), 3000);
    assert_eq!(engine.get_frequency("g7"), 1000);
}

#[test]
fn language_switching_and_clear() {
    let mut engine = NlpEngine::new();
    assert_eq!(engine.get_language(), "en_US");
    engine.set_language("de_DE");
    assert_eq!(engine.get_language(), "de_DE");
    engine.load_dictionary_for_language("de_DE", r#"{"Haus":100}"#).unwrap();
    assert!(engine.spell_check("haus", &[], 3).is_valid);
    assert_eq!(engine.get_canonical_form("haus"), Some("Haus".to_string()));
    engine.clear();
    assert_eq!(engine.get_language(), "en_US");
    assert!(!engine.spell_check("haus", &[], 3).is_valid);
}

#[test]
fn load_errors() {
    let mut engine = NlpEngine::new();
    assert!(engine.load_dictionary("{").is_err());
    assert!(engine.load_dictionary(r#"{"a": 99999999999}"#).is_err());
    assert!(engine.load_dictionary_binary(&[1, 2, 3]).is_err());
}

#[test]
fn binary_dictionary_loading() {
    let trie = build_from_json_with_canonical(r#"{"hello":200,"help":150,"I'm":100}"#).unwrap();
    let data = trie.serialize().unwrap();
    let mut engine = NlpEngine::new();
    engine.load_dictionary_binary(&data).unwrap();
    assert!(engine.spell_check("hello", &[], 3).is_valid);
    assert_eq!(engine.get_canonical_form("im"), Some("I'm".to_string()));
    let s = engine.suggest("hel", &[], 5);
    assert!(s.iter().any(|x| x.text == "hello"));
}

#[test]
fn context_raises_corrections() {
    let mut engine = NlpEngine::new();
    engine.load_dictionary(r#"{"cat":100,"car":100}"#).unwrap();
    engine.learn_word("car", &["fast".to_string()]);
    let r = engine.spell_check("cax", &["fast".to_string()], 1);
    assert_eq!(r.suggestions, vec!["car".to_string()]);
}

#[test]
fn personal_export_import() {
    let mut engine = NlpEngine::new();
    engine.learn_word("alpha", &["beta".to_string()]);
    let dict = engine.export_personal_dict();
    let ctx = engine.export_context_map();
    let mut other = NlpEngine::new();
    other.import_personal_dict(&dict).unwrap();
    other.import_context_map(&ctx).unwrap();
    assert_eq!(other.personal_frequency("alpha"), Some(5));
    assert!(other.import_personal_dict("[").is_err());
    let p = other.predict_next_word(&["beta".to_string()], 3);
    assert_eq!(p[0].text, "alpha");
}

#[test]
fn exact_match_ignores_ascii_case() {
    let mut engine = NlpEngine::new();
    engine.load_dictionary(r#"{"hel":10,"hello":250}"#).unwrap();
    let s = engine.suggest("HEL", &[], 5);
    assert_eq!(s[0].text, "HEL");
    assert!(!s[0].is_eligible_for_auto_commit);
    assert_eq!(s[1].text, "HELLO");
}

#[test]
fn learned_words_keep_characters_beyond_the_bmp() {
    let mut engine = NlpEngine::new();
    engine.learn_word("a\u{1F600}", &[]);
    let s = engine.suggest("a\u{1F600}", &[], 5);
    assert!(s.iter().any(|x| x.text == "a\u{1F600}"));
    assert!(s.iter().any(|x| x.text == "a\u{1F600}" && x.confidence >= 10000));
    let s = engine.suggest("a\u{F600}", &[], 5);
    assert!(!s.iter().any(|x| x.text == "a\u{F600}"));
    assert!(s.iter().all(|x| x.confidence < 10000));
}
