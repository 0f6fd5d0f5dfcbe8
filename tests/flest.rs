use nlp::candidates::CandidateQueue;
use nlp::dyntrie::DynTrieNode;
use nlp::model::{calc_confidence, norm_weight, NgramModel};
use nlp::version::NgramModelVersion;

#[test]
fn basic_insertions() {
    let mut queue = CandidateQueue::with_capacity(3);
    queue.push("foo".to_string(), 5000);
    queue.push("bar".to_string(), 7000);
    queue.push("baz".to_string(), 6000);
    queue.push("qux".to_string(), 8000);
    queue.push("quux".to_string(), 9000);
    let vec = queue.into_sorted_vec();
    assert_eq!(vec.len(), 3);
    assert_eq!(vec[0].text, "quux");
    assert_eq!(vec[1].text, "qux");
    assert_eq!(vec[2].text, "bar");
}

#[test]
fn basic_insertions_with_duplicates() {
    let mut queue = CandidateQueue::with_capacity(3);
    queue.push("foo".to_string(), 5000);
    queue.push("bar".to_string(), 7000);
    queue.push("baz".to_string(), 6000);
    queue.push("qux".to_string(), 8000);
    queue.push("quux".to_string(), 9000);
    queue.push("quux".to_string(), 9000);
    let vec = queue.into_sorted_vec();
    assert_eq!(vec.len(), 3);
    assert_eq!(vec[0].text, "quux");
    assert_eq!(vec[1].text, "qux");
    assert_eq!(vec[2].text, "bar");
}

#[test]
fn empty_candidate_set() {
    let queue = CandidateQueue::with_capacity(3);
    let vec = queue.into_sorted_vec();
    assert_eq!(vec.len(), 0);
}

#[test]
fn queue_keeps_higher_confidence_and_clamps() {
    let mut queue = CandidateQueue::with_capacity(2);
    queue.push("a".to_string(), 2000);
    queue.push("a".to_string(), 5000);
    queue.push("a".to_string(), 1000);
    queue.push("b".to_string(), 20000);
    queue.push("c".to_string(), -5);
    let vec = queue.into_sorted_vec();
    assert_eq!(vec.len(), 2);
    assert_eq!(vec[0].text, "b");
    assert_eq!(vec[0].confidence, 255);
    assert_eq!(vec[1].text, "a");
    assert_eq!(vec[1].confidence, 127);
}

#[test]
fn zero_capacity_holds_one() {
    let mut queue = CandidateQueue::with_capacity(0);
    queue.push("a".to_string(), 1000);
    queue.push("b".to_string(), 2000);
    let vec = queue.into_sorted_vec();
    assert_eq!(vec.len(), 1);
    assert_eq!(vec[0].text, "b");
}

#[test]
fn display() {
    assert_eq!(NgramModelVersion::new(0, 1).display_string(), "v0.1");
    assert_eq!(NgramModelVersion::new(0, 1).debug_string(), "v0.1 (0x0001)");
    assert_eq!(NgramModelVersion::new(1, 0).display_string(), "v1.0");
    assert_eq!(NgramModelVersion::new(1, 0).debug_string(), "v1.0 (0x0100)");
}

#[test]
fn equality() {
    assert_eq!(NgramModelVersion::new(0, 1), NgramModelVersion::new(0, 1));
    assert_eq!(NgramModelVersion::new(1, 0), NgramModelVersion::new(1, 0));
    assert_ne!(NgramModelVersion::new(0, 1), NgramModelVersion::new(1, 0));
}

#[test]
fn comparison() {
    assert!(NgramModelVersion::new(0, 1) > NgramModelVersion::new(0, 0));
    assert!(NgramModelVersion::new(1, 0) > NgramModelVersion::new(0, 1));
    assert!(NgramModelVersion::new(1, 0) > NgramModelVersion::new(0, 42));
}

#[test]
fn development_version_text() {
    assert_eq!(NgramModelVersion::dev().display_string(), "vDEV");
    assert_eq!(NgramModelVersion::latest(), NgramModelVersion::new(0, 1));
    assert_eq!(NgramModelVersion::new(12, 255).debug_string(), "v12.255 (0x0cff)");
}

#[test]
fn model_predicts_next_word_after_training() {
    let mut m = NgramModel::new();
    m.train_from_sentence(&["how".to_string(), "are".to_string(), "you".to_string()]);
    assert_eq!(m.meta.global_time, 9);
    let p = m.predict(&["how".to_string(), "".to_string()]);
    assert!(!p.is_empty());
    assert_eq!(p[0].text, "are");
    let p = m.predict(&["how".to_string(), "ar".to_string()]);
    assert_eq!(p.len(), 1);
    assert_eq!(p[0].text, "are");
    assert!(m.predict(&[]).is_empty());
}

#[test]
fn model_trains_from_tokens() {
    let mut m = NgramModel::new();
    m.train_from_tokens(&["a".to_string(), "b".to_string()]);
    // two unigrams and one bigram
    assert_eq!(m.meta.global_time, 3);
    assert_eq!(m.meta.global_count, 3);
}

#[test]
fn norm_and_blend() {
    assert_eq!(norm_weight(0, 0, 10), 0);
    assert_eq!(norm_weight(10, 0, 10), 10000);
    assert_eq!(norm_weight(5, 0, 10), 7500);
    assert_eq!(calc_confidence(10000, 10000, 10000), 10000);
    assert_eq!(calc_confidence(10000, 0, 0), 4500);
}

#[test]
fn model_stores_words_decomposed() {
    let mut m = NgramModel::new();
    m.train_from_sentence(&["x".to_string(), "caf\u{e9}".to_string()]);
    let p = m.predict(&["x".to_string(), "".to_string()]);
    assert_eq!(p.len(), 1);
    assert_eq!(p[0].text, "cafe\u{301}");
}

#[test]
fn token_path_training() {
    let mut m = NgramModel::new();
    m.train_input(&["good".to_string(), "morning".to_string()]);
    assert_eq!(m.meta.global_time, 1);
    assert_eq!(m.meta.global_count, 1);
    m.train_dataset(&["good".to_string(), "night".to_string()]);
    assert_eq!(m.meta.global_time, 1);
    let p = m.predict(&["".to_string()]);
    assert!(p.iter().all(|c| c.text == "good"));
}

#[test]
fn dyn_trie_mutable_access() {
    use_dyn_trie();
}

fn use_dyn_trie() {
    let mut t: DynTrieNode<u32> = DynTrieNode::new();
    let k = t.get_or_insert(0, &vec!['a', 'b'], 1);
    if let Some(v) = t.get_mut(0, &vec!['a', 'b']) {
        *v = Some(7);
    }
    assert_eq!(t.value(k), &Some(7));
    let a = t.traverse(0, 'a').unwrap();
    assert_eq!(t.value(a), &None);
    if let Some(v) = t.traverse_mut(0, 'a') {
        *v = Some(3);
    }
    assert_eq!(t.value(a), &Some(3));
    assert!(t.traverse_mut(0, 'z').is_none());
    let ngram = vec![vec!['a', 'b']];
    if let Some(v) = t.get_ngram_mut(&ngram) {
        *v = Some(9);
    }
    assert_eq!(t.get_ngram(&ngram), Some(k));
    assert_eq!(t.value(k), &Some(9));
}
