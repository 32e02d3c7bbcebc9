use sheltie::analyze;
use sheltie::Token;

#[test]
fn analyzer_test_analyze() {
    assert_eq!(analyze(&"".to_string()), vec![]);
    assert_eq!(analyze(&" ".to_string()), vec![]);
    assert_eq!(analyze(&"   ".to_string()), vec![]);
    assert_eq!(
        analyze(&"aaa bbb cc d".to_string()),
        vec![
            Token {
                token: String::from("aaa")
            },
            Token {
                token: String::from("bbb")
            },
            Token {
                token: String::from("cc")
            },
            Token {
                token: String::from("d")
            },
        ]
    );
}

#[test]
fn lib_test_analyze() {
    assert_eq!(analyze(&"".to_string()), vec![]);
    assert_eq!(analyze(&" ".to_string()), vec![]);
    assert_eq!(analyze(&"   ".to_string()), vec![]);
    assert_eq!(
        analyze(&"aaa bbb cc d".to_string()),
        vec![
            Token {
                token: String::from("aaa")
            },
            Token {
                token: String::from("bbb")
            },
            Token {
                token: String::from("cc")
            },
            Token {
                token: String::from("d")
            },
        ]
    );
}

#[test]
fn analyze_mixed_whitespace() {
    let tokens = analyze(&"a\tb\nc\r d".to_string());
    let forms: Vec<String> = tokens.into_iter().map(|t| t.token).collect();
    assert_eq!(forms, vec!["a", "b", "c", "d"]);
}

#[test]
fn analyze_rejoin_is_idempotent() {
    // joining the tokens with single spaces and re-tokenizing gives the
    // same tokens
    let first = analyze(&"  aaa bbb\t\tcc   d ".to_string());
    let forms: Vec<String> = first.iter().map(|t| t.token.clone()).collect();
    let joined = forms.join(" ");
    let second = analyze(&joined);
    assert_eq!(first, second);
}
