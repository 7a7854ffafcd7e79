use attention_matters::tokenizer::{ingest_text, split_sentences, split_tokens, token_count, tokenize};

#[test]
fn test_basic_tokenize() {
    let tokens = tokenize("Hello, world!");
    assert_eq!(tokens, vec!["hello", "world"]);
}

#[test]
fn test_apostrophe_preserved() {
    let tokens = tokenize("Don't stop!");
    assert_eq!(tokens, vec!["don't", "stop"]);
}

#[test]
fn test_leading_trailing_apostrophes_stripped() {
    let tokens = tokenize("'hello' 'world'");
    assert_eq!(tokens, vec!["hello", "world"]);
}

#[test]
fn test_empty_input() {
    let tokens = tokenize("");
    assert!(tokens.is_empty());
}

#[test]
fn test_whitespace_only() {
    let tokens = tokenize("   \t\n  ");
    assert!(tokens.is_empty());
}

#[test]
fn test_punctuation_stripped() {
    let tokens = tokenize("hello! world? foo.");
    assert_eq!(tokens, vec!["hello", "world", "foo"]);
}

#[test]
fn test_numbers_preserved() {
    let tokens = tokenize("test 123 hello");
    assert_eq!(tokens, vec!["test", "123", "hello"]);
}

#[test]
fn test_sentence_splitting() {
    let sentences = split_sentences("First. Second! Third? Fourth.");
    assert_eq!(sentences.len(), 4);
}

#[test]
fn test_ingest_text_3_sentence_chunks() {
    let text = "First sentence. Second sentence. Third sentence. Fourth sentence. Fifth sentence. Sixth sentence.";
    let ep = ingest_text(text, Some("test"));

    // 6 sentences / 3 per chunk = 2 neighborhoods
    assert_eq!(ep.neighborhoods.len(), 2);
    assert_eq!(ep.name, "test");
}

#[test]
fn test_ingest_text_empty() {
    let ep = ingest_text("", None);
    assert_eq!(ep.neighborhoods.len(), 0);
}

#[test]
fn test_no_stemming() {
    let tokens = tokenize("running runs ran runner");
    assert_eq!(tokens, vec!["running", "runs", "ran", "runner"]);
}

#[test]
fn test_no_stop_word_removal() {
    let tokens = tokenize("the a an is are was");
    assert_eq!(tokens, vec!["the", "a", "an", "is", "are", "was"]);
}

#[test]
fn sentences_keep_their_punctuation_and_skip_blank_runs() {
    let sentences = split_sentences("First.   Second!\nThird");
    assert_eq!(sentences, vec!["First.", "Second!", "Third"]);
}

#[test]
fn ingest_chunks_sentences_and_tokenizes_each_chunk() {
    let ep = ingest_text("One two. Three four. Five six. Seven.", Some("doc"));
    assert_eq!(ep.neighborhoods.len(), 2);
    assert_eq!(ep.neighborhoods[0].source_text, "One two. Three four. Five six.");
    let words: Vec<&str> = ep.neighborhoods[0].occurrences.iter().map(|o| o.word.as_str()).collect();
    assert_eq!(words, vec!["one", "two", "three", "four", "five", "six"]);
    assert_eq!(ep.neighborhoods[1].source_text, "Seven.");
}

#[test]
fn token_count_is_number_of_tokens() {
    assert_eq!(token_count("Hello, brave new world!"), 4);
    assert_eq!(token_count(""), 0);
}

#[test]
fn tokenize_lowercases_unicode_letters() {
    assert_eq!(tokenize("Straße ÉCOLE"), vec!["straße", "école"]);
}

#[test]
fn split_tokens_splits_trims_and_drops_empty_fields() {
    assert_eq!(split_tokens("  don't 'quoted'  '' x "), vec!["don't", "quoted", "x"]);
    assert!(split_tokens(" \t\n ").is_empty());
    assert_eq!(split_tokens("a\u{3000}b"), vec!["a", "b"]);
}

#[test]
fn tokens_have_no_blank_or_edge_apostrophe() {
    for text in ["'Hello', world's 'end'", "  ''  ", "Mixed\tCASE words!"] {
        for t in tokenize(text) {
            assert!(!t.is_empty());
            assert!(!t.starts_with('\'') && !t.ends_with('\''));
            assert!(!t.chars().any(char::is_whitespace));
        }
    }
}

#[test]
fn tokenizing_joined_tokens_gives_them_back() {
    for text in ["Don't STOP -- 'quoted' words!", "  Hello,   World... it's 42 ''' o'clock ", "", "Ünïcode ÉCOLE straße"] {
        let tokens = tokenize(text);
        assert_eq!(tokenize(&tokens.join(" ")), tokens);
        assert_eq!(split_tokens(&tokens.join(" ")), tokens);
    }
}
