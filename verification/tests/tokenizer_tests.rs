use fgt_parser::tokenize;

#[test]
fn quoted_token_keeps_comma_and_space() {
    let toks = tokenize("set allow \"a, b\" c");
    assert_eq!(toks, vec!["set", "allow", "a, b", "c"]);
}

#[test]
fn comment_terminates_line() {
    let toks = tokenize("key val # comment");
    assert_eq!(toks, vec!["key", "val"]);
}

#[test]
fn quoted_hash_is_literal() {
    let toks = tokenize("key \"val # x\"");
    assert_eq!(toks, vec!["key", "val # x"]);
}

#[test]
fn escaped_hash_is_literal() {
    let toks = tokenize("a b\\#c");
    assert_eq!(toks, vec!["a", "b#c"]);
}

#[test]
fn single_quotes_work_like_double() {
    let toks = tokenize("set x 'two words'");
    assert_eq!(toks, vec!["set", "x", "two words"]);
}

#[test]
fn backslash_escapes_next_character() {
    let toks = tokenize("a\\ b c\\\\d");
    assert_eq!(toks, vec!["a b", "c\\d"]);
}

#[test]
fn dangling_backslash_is_kept() {
    let toks = tokenize("abc\\");
    assert_eq!(toks, vec!["abc\\"]);
}

#[test]
fn unterminated_quote_runs_to_end() {
    let toks = tokenize("set x \"abc def");
    assert_eq!(toks, vec!["set", "x", "abc def"]);
}

#[test]
fn empty_and_blank_lines_yield_no_tokens() {
    assert_eq!(tokenize(""), Vec::<String>::new());
    assert_eq!(tokenize("   \t  "), Vec::<String>::new());
    assert_eq!(tokenize("# only a comment"), Vec::<String>::new());
}

#[test]
fn unicode_whitespace_only_lines_yield_no_tokens() {
    assert_eq!(tokenize("\u{b}"), Vec::<String>::new());
    assert_eq!(tokenize("\u{a0}\u{2003}\u{3000}"), Vec::<String>::new());
}

#[test]
fn unicode_whitespace_separates_tokens() {
    assert_eq!(tokenize("a\u{a0}b\u{2028}c"), vec!["a", "b", "c"]);
}

#[test]
fn whitespace_runs_make_no_empty_tokens() {
    let toks = tokenize("  a   b  ");
    assert_eq!(toks, vec!["a", "b"]);
}

#[test]
fn adjacent_quoted_and_bare_concatenate() {
    let toks = tokenize("\"abc\"def");
    assert_eq!(toks, vec!["abcdef"]);
}
