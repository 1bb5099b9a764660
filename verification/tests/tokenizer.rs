use y3::patterns::{Found, Patterns};
use y3::text::is_whitespace;
use y3::tokenizer::{Token, Tokenizer};

fn tokenize_content(content: &str) -> Tokenizer {
    let mut tokenizer = Tokenizer::new();
    let lines: Vec<String> = content.lines().map(|l| l.to_string()).collect();
    tokenizer.tokenize_lines(&lines);
    tokenizer
}

fn run_test_case(file_content: &str, expected_tokens: Vec<Token>) {
    let tokenizer = tokenize_content(file_content);
    let tokens = tokenizer.tokens();

    assert_eq!(
        tokens.len(),
        expected_tokens.len(),
        "Token count mismatch: expected {}, got {}",
        expected_tokens.len(),
        tokens.len()
    );

    for (i, token) in tokens.iter().enumerate() {
        assert_eq!(
            token.word(),
            expected_tokens[i].word(),
            "Word mismatch at index {}: expected '{}', got '{}'",
            i,
            expected_tokens[i].word(),
            token.word()
        );
        assert_eq!(
            token.position().start(),
            expected_tokens[i].position().start(),
            "Start position mismatch at index {}",
            i
        );
        assert_eq!(
            token.position().end(),
            expected_tokens[i].position().end(),
            "End position mismatch at index {}",
            i
        );
    }
}

fn words_and_positions(tokenizer: &Tokenizer) -> Vec<(String, usize, usize, usize)> {
    tokenizer
        .tokens()
        .iter()
        .map(|t| {
            (
                t.word().to_string(),
                t.position().start(),
                t.position().end(),
                t.position().line_no(),
            )
        })
        .collect()
}

#[test]
fn test_split_word_cases() {
    let word = "camelCaseExample";
    let parts = Tokenizer::split_word_cases(word);
    assert_eq!(parts, vec!["camel", "Case", "Example"]);

    let word = "PascalCase";
    let parts = Tokenizer::split_word_cases(word);
    assert_eq!(parts, vec!["Pascal", "Case"]);

    let word = "TITLECase";
    let parts = Tokenizer::split_word_cases(word);
    assert_eq!(parts, vec!["TITLECase"]);

    let word = "simple";
    let parts = Tokenizer::split_word_cases(word);
    assert_eq!(parts, vec!["simple"]);
}

#[test]
fn test_patterns() {
    let patterns = Patterns::new().unwrap();

    assert!(patterns.is_ignored("https://example.com"));

    assert!(patterns.is_ignored("C:\\path\\file.txt"));

    assert!(patterns.is_ignored("12345"));

    assert!(patterns.is_ignored("user@example.com"));

    assert!(patterns.matches_word("word123"));

    assert!(patterns.matches_word("example"));

    let split: Vec<String> = patterns.split_joined("snake_case").into_iter().map(|p| p.1).collect();
    assert_eq!(split, vec!["snake", "case"]);

    let split: Vec<String> = patterns.split_joined("run—but").into_iter().map(|p| p.1).collect();
    assert_eq!(split, vec!["run", "but"]);
}

#[test]
fn test_tokenizer_basic() {
    let content = "Hello, World! This is test of the tokenizer.";

    let expected_tokens = vec![
        Token::new("Hello", 0, 4, 1),
        Token::new("World", 6, 10, 1),
        Token::new("This", 12, 15, 1),
        Token::new("is", 17, 18, 1),
        Token::new("test", 20, 23, 1),
        Token::new("of", 25, 26, 1),
        Token::new("the", 28, 30, 1),
        Token::new("tokenizer", 32, 40, 1),
    ];

    run_test_case(content, expected_tokens);
}

#[test]
fn test_tokenizer_with_unicode() {
    let content = r#"
Rust 🦀 is a fast lang, 
u m m lol!
"#;

    let expected_tokens = vec![
        Token::new("Rust", 0, 3, 1),
        Token::new("is", 5, 6, 1),
        Token::new("fast", 10, 13, 1),
        Token::new("lang", 15, 18, 1),
        Token::new("lol", 6, 8, 2),
    ];

    run_test_case(content, expected_tokens);
}

#[test]
fn test_complex_urls() {
    let content = r#"
        (https://example.com/path#section)
        (https://example.com?q=lol&w=uio&x=%20)
        (https://example.com/path?q=lol%20wut)
        "#;

    let expected_tokens = vec![];

    run_test_case(content, expected_tokens);
}

#[test]
fn test_punctuation_surrounded_tokens() {
    let content = r#"word (word)., "[word]""#;

    let expected_tokens = vec![
        Token::new("word", 0, 3, 1),
        Token::new("word", 5, 8, 1),
        Token::new("word", 10, 13, 1),
    ];

    run_test_case(content, expected_tokens);
}

#[test]
fn test_punctuation_alphanumeric_tokens() {
    let content = r#"abc123, 123abc, abc123def"#;

    let expected_tokens = vec![
        Token::new("abc123", 0, 5, 1),
        Token::new("abc", 10, 12, 1),
        Token::new("abc123def", 14, 22, 1),
    ];

    run_test_case(content, expected_tokens);
}

#[test]
fn token_new_and_getters() {
    let token = Token::new("word", 0, 3, 1);
    assert_eq!(token.word(), "word");
    assert_eq!(token.position().start(), 0);
    assert_eq!(token.position().end(), 3);
    assert_eq!(token.position().line_no(), 1);
}

#[test]
fn new_tokenizer_has_no_tokens() {
    let tokenizer = Tokenizer::new();
    assert_eq!(tokenizer.tokens().len(), 0);
    let tokenizer = Tokenizer::try_new().unwrap();
    assert_eq!(tokenizer.tokens().len(), 0);
}

#[test]
fn clear_tokens_forgets_everything() {
    let mut tokenizer = tokenize_content("some words here\nand more");
    assert_eq!(tokenizer.tokens().len(), 5);
    tokenizer.clear_tokens();
    assert_eq!(tokenizer.tokens().len(), 0);
    tokenizer.tokenize_line("again", 7);
    assert_eq!(words_and_positions(&tokenizer), vec![("again".to_string(), 0, 4, 7)]);
}

#[test]
fn tokenize_line_appends_and_keeps_line_numbers() {
    let mut tokenizer = Tokenizer::new();
    tokenizer.tokenize_line("first line", 3);
    tokenizer.tokenize_line("second", 9);
    assert_eq!(
        words_and_positions(&tokenizer),
        vec![
            ("first".to_string(), 0, 4, 3),
            ("line".to_string(), 6, 9, 3),
            ("second".to_string(), 0, 5, 9),
        ]
    );
}

#[test]
fn joined_words_are_measured_from_their_own_place() {
    let tokenizer = tokenize_content("snake_case Get-Item");
    assert_eq!(
        words_and_positions(&tokenizer),
        vec![
            ("snake".to_string(), 0, 4, 1),
            ("case".to_string(), 6, 9, 1),
            ("Get".to_string(), 11, 13, 1),
            ("Item".to_string(), 15, 18, 1),
        ]
    );
}

#[test]
fn camel_case_pieces_have_their_own_positions() {
    let tokenizer = tokenize_content("x myVariableName");
    assert_eq!(
        words_and_positions(&tokenizer),
        vec![
            ("my".to_string(), 2, 3, 1),
            ("Variable".to_string(), 4, 11, 1),
            ("Name".to_string(), 12, 15, 1),
        ]
    );
}

#[test]
fn snake_and_camel_case_positions() {
    let tokenizer = tokenize_content("snake_case camelCase");
    assert_eq!(
        words_and_positions(&tokenizer),
        vec![
            ("snake".to_string(), 0, 4, 1),
            ("case".to_string(), 6, 9, 1),
            ("camel".to_string(), 11, 15, 1),
            ("Case".to_string(), 16, 19, 1),
        ]
    );
}

#[test]
fn apostrophes_stay_inside_words() {
    let tokenizer = tokenize_content("'don't'");
    assert_eq!(words_and_positions(&tokenizer), vec![("don't".to_string(), 1, 5, 1)]);
}

#[test]
fn offsets_count_bytes() {
    let tokenizer = tokenize_content("é hello");
    assert_eq!(words_and_positions(&tokenizer), vec![("hello".to_string(), 3, 7, 1)]);
}

#[test]
fn ignored_chunks_do_not_advance_the_offset() {
    let tokenizer = tokenize_content("12345 user@example.com src/main.rs done");
    assert_eq!(words_and_positions(&tokenizer), vec![("done".to_string(), 0, 3, 1)]);
}

#[test]
fn symbols_only_chunks_are_skipped() {
    let tokenizer = tokenize_content("--- (ok) !!!");
    assert_eq!(words_and_positions(&tokenizer), vec![("ok".to_string(), 0, 1, 1)]);
}

#[test]
fn empty_and_blank_lines_give_nothing() {
    let mut tokenizer = Tokenizer::new();
    tokenizer.tokenize_line("", 1);
    tokenizer.tokenize_line(" \t  ", 2);
    assert_eq!(tokenizer.tokens().len(), 0);
}

#[test]
fn split_word_cases_edges() {
    assert_eq!(Tokenizer::split_word_cases(""), vec![""]);
    assert_eq!(Tokenizer::split_word_cases("aB"), vec!["a", "B"]);
    assert_eq!(Tokenizer::split_word_cases("abcDEF"), vec!["abc", "DEF"]);
    assert_eq!(Tokenizer::split_word_cases("HTTPServer"), vec!["HTTPServer"]);
    assert_eq!(Tokenizer::split_word_cases("getHTTPResponse"), vec!["get", "HTTPResponse"]);
}

#[test]
fn match_tokens_from_given_matches() {
    let found = vec![
        Found { start: 3, end: 9, text: "fooBar".to_string() },
        Found { start: 10, end: 11, text: "a".to_string() },
        Found { start: 12, end: 14, text: "ok".to_string() },
    ];
    let tokens = Tokenizer::match_tokens(&found, 10, 4);
    let got: Vec<(String, usize, usize, usize)> = tokens
        .iter()
        .map(|t| {
            (
                t.word().to_string(),
                t.position().start(),
                t.position().end(),
                t.position().line_no(),
            )
        })
        .collect();
    assert_eq!(
        got,
        vec![
            ("foo".to_string(), 13, 15, 4),
            ("Bar".to_string(), 16, 18, 4),
            ("ok".to_string(), 22, 23, 4),
        ]
    );
}

#[test]
fn match_tokens_empty_match_at_zero_wraps() {
    let found = vec![Found { start: 0, end: 0, text: String::new() }];
    let tokens = Tokenizer::match_tokens(&found, 0, 1);
    assert_eq!(tokens.len(), 1);
    assert_eq!(tokens[0].word(), "");
    assert_eq!(tokens[0].position().start(), 0);
    assert_eq!(tokens[0].position().end(), usize::MAX);
}

#[test]
fn patterns_find_and_split() {
    let patterns = Patterns::new().unwrap();
    let found = patterns.find_words("12ab3cd!ef");
    let got: Vec<(usize, usize, String)> =
        found.into_iter().map(|m| (m.start, m.end, m.text)).collect();
    assert_eq!(
        got,
        vec![(2, 7, "ab3cd".to_string()), (8, 10, "ef".to_string())]
    );
    assert_eq!(
        patterns.split_joined("a-b_c d—e"),
        vec![
            (0, "a".to_string()),
            (2, "b".to_string()),
            (4, "c".to_string()),
            (6, "d".to_string()),
            (10, "e".to_string()),
        ]
    );
    let separators: Vec<(usize, usize)> =
        patterns.find_separators("a-b").into_iter().map(|m| (m.start, m.end)).collect();
    assert_eq!(separators, vec![(1, 2)]);
    assert!(!patterns.is_ignored("plain"));
    assert!(!patterns.matches_word("1234"));
}

#[test]
fn contextual_special_characters_are_kept() {
    let tokenizer = tokenize_content("sh🤬t sh*t");
    assert_eq!(
        words_and_positions(&tokenizer),
        vec![("sh🤬t".to_string(), 0, 6, 1), ("sh*t".to_string(), 8, 11, 1)]
    );
}

#[test]
fn join_words_joins_across_symbols_only() {
    let piece = "ab3!x4cd";
    let found = vec![
        Found { start: 0, end: 3, text: "ab3".to_string() },
        Found { start: 4, end: 8, text: "x4cd".to_string() },
    ];
    let joined: Vec<(usize, usize, String)> = Tokenizer::join_words(piece, &found)
        .into_iter()
        .map(|m| (m.start, m.end, m.text))
        .collect();
    assert_eq!(joined, vec![(0, 8, "ab3!x4cd".to_string())]);

    let piece = "ab12!34cd";
    let found = vec![
        Found { start: 0, end: 4, text: "ab12".to_string() },
        Found { start: 7, end: 9, text: "cd".to_string() },
    ];
    let joined: Vec<(usize, usize, String)> = Tokenizer::join_words(piece, &found)
        .into_iter()
        .map(|m| (m.start, m.end, m.text))
        .collect();
    assert_eq!(joined, vec![(0, 4, "ab12".to_string()), (7, 9, "cd".to_string())]);

    assert_eq!(Tokenizer::join_words("!!", &Vec::new()).len(), 0);
}

#[test]
fn single_letter_case_pieces_are_dropped() {
    let tokenizer = tokenize_content("xAb iPhone");
    assert_eq!(
        words_and_positions(&tokenizer),
        vec![("Ab".to_string(), 1, 2, 1), ("Phone".to_string(), 5, 9, 1)]
    );
}

#[test]
fn token_words_keep_their_case() {
    let tokenizer = tokenize_content("MiXeD-case WORDS");
    assert_eq!(
        words_and_positions(&tokenizer),
        vec![
            ("Mi".to_string(), 0, 1, 1),
            ("Xe".to_string(), 2, 3, 1),
            ("case".to_string(), 6, 9, 1),
            ("WORDS".to_string(), 11, 15, 1),
        ]
    );
}

#[test]
fn lines_are_numbered_from_one() {
    let mut tokenizer = Tokenizer::new();
    tokenizer.tokenize_line("before", 40);
    let lines = vec!["alpha beta".to_string(), String::new(), "gamma".to_string()];
    tokenizer.tokenize_lines(&lines);
    assert_eq!(
        words_and_positions(&tokenizer),
        vec![
            ("before".to_string(), 0, 5, 40),
            ("alpha".to_string(), 0, 4, 1),
            ("beta".to_string(), 6, 9, 1),
            ("gamma".to_string(), 0, 4, 3),
        ]
    );
}

#[test]
fn whitespace_class_agrees_with_std() {
    for u in 0..=0x10FFFFu32 {
        if let Some(c) = char::from_u32(u) {
            assert_eq!(is_whitespace(c), c.is_whitespace(), "U+{:04X}", u);
        }
    }
}
