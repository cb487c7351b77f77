use word_doc_qa::events::Event;
use word_doc_qa::ml_tokenizer::{build_tokenizer, build_vocab, TokenizerError};
use word_doc_qa::ml_train::{encode_texts, pad_or_truncate, pad_rows, prepare_month_training, TrainError, MAX_LEN, PAD_ID};

fn corpus(lines: &[&str]) -> Vec<String> {
    lines.iter().map(|s| s.to_string()).collect()
}

fn pairs(v: &[(String, u32)]) -> Vec<(&str, u32)> {
    v.iter().map(|(s, i)| (s.as_str(), *i)).collect()
}

#[test]
fn vocabulary_by_frequency() {
    let c = corpus(&["a b a", "B c"]);
    let v = build_vocab(&c, 5).unwrap();
    assert_eq!(pairs(&v), vec![("[UNK]", 0), ("[PAD]", 1), ("a", 2), ("b", 3), ("c", 4)]);
    let v = build_vocab(&c, 4).unwrap();
    assert_eq!(pairs(&v), vec![("[UNK]", 0), ("[PAD]", 1), ("a", 2), ("b", 3)]);
    let v = build_vocab(&c, 0).unwrap();
    assert_eq!(pairs(&v), vec![("[UNK]", 0), ("[PAD]", 1)]);
    let v = build_vocab(&[], 100).unwrap();
    assert_eq!(pairs(&v), vec![("[UNK]", 0), ("[PAD]", 1)]);
}

#[test]
fn ties_keep_first_occurrence_order() {
    let c = corpus(&["z y x", "x"]);
    let v = build_vocab(&c, 10).unwrap();
    assert_eq!(pairs(&v), vec![("[UNK]", 0), ("[PAD]", 1), ("x", 2), ("z", 3), ("y", 4)]);
}

#[test]
fn vocabulary_shape() {
    let c = corpus(&["MONTH=January TITLE=New Year", "MONTH=March TITLE=Council meeting", "month=march"]);
    for size in [0usize, 1, 2, 3, 5, 50] {
        let v = build_vocab(&c, size).unwrap();
        assert!(v.len() <= size.max(2));
        for (i, (_, id)) in v.iter().enumerate() {
            assert_eq!(*id as usize, i);
        }
        let mut names: Vec<&String> = v.iter().map(|(s, _)| s).collect();
        names.sort();
        names.dedup();
        assert_eq!(names.len(), v.len());
    }
}

#[test]
fn tokenizer_encodes_known_and_unknown_words() {
    let c = corpus(&["hello world hello"]);
    let t = build_tokenizer(&c, 10).unwrap();
    let ids = t.encode("hello there world", false).unwrap().get_ids().to_vec();
    assert_eq!(ids, vec![2, 0, 3]);
    let flat = encode_texts(&t, &corpus(&["hello", "world hello world"]), 2).unwrap();
    assert_eq!(flat, vec![2, 1, 3, 2]);
    let _unused: Option<TokenizerError> = None;
}

#[test]
fn padding_and_truncation() {
    assert_eq!(pad_or_truncate(&[5, 6, 7], 5), vec![5, 6, 7, PAD_ID, PAD_ID]);
    assert_eq!(pad_or_truncate(&[5, 6, 7], 2), vec![5, 6]);
    assert_eq!(pad_or_truncate(&[], 3), vec![1, 1, 1]);
    assert_eq!(pad_or_truncate(&[9], 0), Vec::<i64>::new());
}

#[test]
fn month_training_data() {
    let mk = |m: u32, t: &str| Event { year: 2026, month: m, day: 1, title: t.to_string(), source: "s".to_string() };
    let events = vec![mk(1, "New Year"), mk(14, "bad"), mk(3, "Council meeting")];
    let d = prepare_month_training(&events).unwrap();
    assert_eq!(d.texts, vec!["MONTH=January TITLE=New Year".to_string(), "MONTH=March TITLE=Council meeting".to_string()]);
    assert_eq!(d.labels, vec![0, 2]);
    assert_eq!(d.max_len, MAX_LEN);
    assert_eq!(d.input_ids.len(), 2 * MAX_LEN);
    assert!(d.input_ids[MAX_LEN - 1] == PAD_ID);
    let _unused: Option<TrainError> = None;
}

#[test]
fn tokenizer_holds_the_vocabulary() {
    let c = corpus(&["Hello world hello", "World of words"]);
    let t = build_tokenizer(&c, 6).unwrap();
    let mut got: Vec<(String, u32)> = t.get_vocab(false).into_iter().collect();
    got.sort_by_key(|p| p.1);
    let want = build_vocab(&c, 6).unwrap();
    assert_eq!(got, want);
    assert_eq!(pairs(&want), vec![("[UNK]", 0), ("[PAD]", 1), ("hello", 2), ("world", 3), ("of", 4), ("words", 5)]);
    // an unknown word is encoded as [UNK]
    let ids = t.encode("unseen", false).unwrap().get_ids().to_vec();
    assert_eq!(ids, vec![0]);
}

#[test]
fn rows_are_padded_and_concatenated() {
    assert_eq!(pad_rows(&vec![vec![4, 5, 6], vec![], vec![7]], 2), vec![4, 5, 1, 1, 7, 1]);
    assert_eq!(pad_rows(&vec![], 3), Vec::<i64>::new());
    let t = build_tokenizer(&corpus(&["a"]), 5).unwrap();
    assert_eq!(encode_texts(&t, &[], 4).unwrap(), Vec::<i64>::new());
}
