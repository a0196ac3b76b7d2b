use stract::query::{is_whitespace, parse, parse_lowercased, parse_term, Term};

#[test]
fn parse_not() {
    assert_eq!(
        parse("this -that"),
        vec![
            Box::new(Term::Simple("this".to_string())),
            Box::new(Term::Not(Box::new(Term::Simple("that".to_string()))))
        ]
    );

    assert_eq!(
        parse("this -"),
        vec![
            Box::new(Term::Simple("this".to_string())),
            Box::new(Term::Simple("-".to_string()))
        ]
    );
}

#[test]
fn double_not() {
    assert_eq!(
        parse("this --that"),
        vec![
            Box::new(Term::Simple("this".to_string())),
            Box::new(Term::Simple("--that".to_string()))
        ]
    );
}

#[test]
fn site() {
    assert_eq!(
        parse("this site:test.com"),
        vec![
            Box::new(Term::Simple("this".to_string())),
            Box::new(Term::Site("test.com".to_string()))
        ]
    );
}

#[test]
fn title() {
    assert_eq!(
        parse("this intitle:test"),
        vec![
            Box::new(Term::Simple("this".to_string())),
            Box::new(Term::Title("test".to_string()))
        ]
    );
}

#[test]
fn body() {
    assert_eq!(
        parse("this inbody:test"),
        vec![
            Box::new(Term::Simple("this".to_string())),
            Box::new(Term::Body("test".to_string()))
        ]
    );
}

#[test]
fn url() {
    assert_eq!(
        parse("this inurl:test"),
        vec![
            Box::new(Term::Simple("this".to_string())),
            Box::new(Term::Url("test".to_string()))
        ]
    );
}

#[test]
fn empty() {
    assert_eq!(parse(""), vec![]);
}

#[test]
fn phrase() {
    assert_eq!(
        parse("\"this is a\" inurl:test"),
        vec![
            Box::new(Term::Phrase("this is a".to_string(),)),
            Box::new(Term::Url("test".to_string()))
        ]
    );
    assert_eq!(
        parse("\"this is a inurl:test"),
        vec![
            Box::new(Term::Simple("\"this".to_string())),
            Box::new(Term::Simple("is".to_string())),
            Box::new(Term::Simple("a".to_string())),
            Box::new(Term::Url("test".to_string()))
        ]
    );
    assert_eq!(
        parse("this is a\" inurl:test"),
        vec![
            Box::new(Term::Simple("this".to_string())),
            Box::new(Term::Simple("is".to_string())),
            Box::new(Term::Simple("a\"".to_string())),
            Box::new(Term::Url("test".to_string()))
        ]
    );

    assert_eq!(
        parse("\"this is a inurl:test\""),
        vec![Box::new(Term::Phrase("this is a inurl:test".to_string(),)),]
    );

    assert_eq!(
        parse("\"\""),
        vec![Box::new(Term::Phrase("".to_string(),)),]
    );
    assert_eq!(
        parse("“this is a“ inurl:test"),
        vec![
            Box::new(Term::Phrase("this is a".to_string(),)),
            Box::new(Term::Url("test".to_string()))
        ]
    );
}

#[test]
fn parse_lowers_case() {
    assert_eq!(
        parse("THIS Site:Test.COM"),
        vec![
            Box::new(Term::Simple("this".to_string())),
            Box::new(Term::Site("test.com".to_string()))
        ]
    );
    // the part that takes the lower-case text keeps the case it is given
    assert_eq!(
        parse_lowercased("THIS"),
        vec![Box::new(Term::Simple("THIS".to_string()))]
    );
}

#[test]
fn parse_straightens_both_curly_quotes() {
    assert_eq!(
        parse("“a b” c"),
        vec![
            Box::new(Term::Phrase("a b".to_string())),
            Box::new(Term::Simple("c".to_string()))
        ]
    );
}

#[test]
fn parse_skips_runs_of_white_space() {
    assert_eq!(
        parse("  a \t\n b  "),
        vec![
            Box::new(Term::Simple("a".to_string())),
            Box::new(Term::Simple("b".to_string()))
        ]
    );
    assert_eq!(parse("   "), vec![]);
}

#[test]
fn parse_wide_white_space_starts_next_word() {
    assert_eq!(
        parse("a\u{3000}b"),
        vec![
            Box::new(Term::Simple("a".to_string())),
            Box::new(Term::Simple("\u{3000}b".to_string()))
        ]
    );
}

#[test]
fn parse_phrase_then_word_without_space() {
    assert_eq!(
        parse("\"a b\"c d"),
        vec![
            Box::new(Term::Phrase("a b".to_string())),
            Box::new(Term::Simple("c".to_string())),
            Box::new(Term::Simple("d".to_string()))
        ]
    );
}

#[test]
fn parse_term_operators() {
    assert_eq!(*parse_term("site:"), Term::Simple("site:".to_string()));
    assert_eq!(*parse_term("intitle:"), Term::Simple("intitle:".to_string()));
    assert_eq!(*parse_term("inbody:"), Term::Simple("inbody:".to_string()));
    assert_eq!(*parse_term("inurl:"), Term::Simple("inurl:".to_string()));
    assert_eq!(*parse_term("!w"), Term::PossibleBang("w".to_string()));
    assert_eq!(*parse_term("!"), Term::PossibleBang("".to_string()));
    assert_eq!(*parse_term(""), Term::Simple("".to_string()));
    assert_eq!(
        *parse_term("-site:a.com"),
        Term::Not(Box::new(Term::Site("a.com".to_string())))
    );
    assert_eq!(
        *parse_term("-!g"),
        Term::Not(Box::new(Term::PossibleBang("g".to_string())))
    );
    assert_eq!(*parse_term("-"), Term::Simple("-".to_string()));
    assert_eq!(*parse_term("--a"), Term::Simple("--a".to_string()));
    assert_eq!(*parse_term("sites:a"), Term::Simple("sites:a".to_string()));
}

#[test]
fn as_simple_text_drops_operator() {
    assert_eq!(Term::Simple("a".to_string()).as_simple_text(), "a");
    assert_eq!(Term::Phrase("a b".to_string()).as_simple_text(), "a b");
    assert_eq!(Term::Site("a.com".to_string()).as_simple_text(), "a.com");
    assert_eq!(Term::Title("t".to_string()).as_simple_text(), "t");
    assert_eq!(Term::Body("b".to_string()).as_simple_text(), "b");
    assert_eq!(Term::Url("u".to_string()).as_simple_text(), "u");
    assert_eq!(Term::PossibleBang("w".to_string()).as_simple_text(), "w");
    assert_eq!(
        Term::Not(Box::new(Term::Url("u".to_string()))).as_simple_text(),
        "u"
    );
}

#[test]
fn to_string_writes_term_as_in_query() {
    assert_eq!(Term::Simple("a".to_string()).to_string(), "a");
    assert_eq!(Term::Phrase("a b".to_string()).to_string(), "\"a b\"");
    assert_eq!(Term::Site("a.com".to_string()).to_string(), "site:a.com");
    assert_eq!(Term::Title("t".to_string()).to_string(), "intitle:t");
    assert_eq!(Term::Body("b".to_string()).to_string(), "inbody:b");
    assert_eq!(Term::Url("u".to_string()).to_string(), "inurl:u");
    assert_eq!(Term::PossibleBang("w".to_string()).to_string(), "!w");
    assert_eq!(
        Term::Not(Box::new(Term::Site("a.com".to_string()))).to_string(),
        "-site:a.com"
    );
}

#[test]
fn term_clone_is_equal() {
    let term = Term::Not(Box::new(Term::Phrase("a b".to_string())));
    assert_eq!(term.clone(), term);
}

#[test]
fn is_whitespace_agrees_with_char() {
    let mut n: u32 = 0;
    while n <= 0x10ffff {
        if let Some(c) = char::from_u32(n) {
            assert_eq!(is_whitespace(c), c.is_whitespace());
        }
        n += 1;
    }
}
