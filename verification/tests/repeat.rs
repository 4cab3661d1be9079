use rorolala::repeat::{expand_body, internal_repeat, parse_range, Delimiter, Token};

fn ident(name: &str) -> Token {
    Token::Ident(name.to_string())
}

fn punct(c: char) -> Token {
    Token::Punct(c, false)
}

fn lit(text: &str) -> Token {
    Token::Literal(text.to_string())
}

fn group(delimiter: Delimiter, inner: Vec<Token>) -> Token {
    Token::Group(delimiter, inner)
}

fn paren(inner: Vec<Token>) -> Token {
    group(Delimiter::Parenthesis, inner)
}

fn brace(inner: Vec<Token>) -> Token {
    group(Delimiter::Brace, inner)
}

/// `start..=end =>`, as tokens.
fn inclusive(start: &str, end: &str) -> Vec<Token> {
    vec![
        lit(start),
        punct('.'),
        punct('.'),
        punct('='),
        lit(end),
        punct('='),
        punct('>'),
    ]
}

/// The range's tokens, then the template in braces.
fn input(range: Vec<Token>, body: Vec<Token>) -> Vec<Token> {
    let mut tokens = range;
    tokens.push(brace(body));
    tokens
}

/// `count += 1;`, as tokens.
fn count_once() -> Vec<Token> {
    vec![
        ident("count"),
        Token::Punct('+', true),
        punct('='),
        lit("1"),
        punct(';'),
    ]
}

/// Every literal's text, in order, nested groups included.
fn literals(tokens: &[Token]) -> Vec<String> {
    let mut found = Vec::new();
    for token in tokens {
        match token {
            Token::Literal(text) => found.push(text.clone()),
            Token::Group(_, inner) => found.extend(literals(inner)),
            _ => {}
        }
    }
    found
}

/// Every identifier's name, in order, nested groups included.
fn idents(tokens: &[Token]) -> Vec<String> {
    let mut found = Vec::new();
    for token in tokens {
        match token {
            Token::Ident(name) => found.push(name.clone()),
            Token::Group(_, inner) => found.extend(idents(inner)),
            _ => {}
        }
    }
    found
}

/// How many times `name` is an identifier in `tokens`.
fn times(tokens: &[Token], name: &str) -> usize {
    idents(tokens).iter().filter(|found| *found == name).count()
}

#[test]
fn an_inclusive_range_repeats_once_per_number() {
    let out = internal_repeat(input(inclusive("2", "4"), count_once()));
    assert_eq!(times(&out, "count"), 3);
}

#[test]
fn an_exclusive_range_stops_before_its_end() {
    let range = vec![lit("2"), punct('.'), punct('.'), lit("5"), punct('='), punct('>')];
    let out = internal_repeat(input(range, count_once()));
    assert_eq!(times(&out, "count"), 3);
}

#[test]
fn a_bare_number_counts_up_to_itself() {
    let range = vec![lit("4"), punct('='), punct('>')];
    let body = vec![ident("sum"), Token::Punct('+', true), punct('='), punct('$'), punct(';')];
    let out = internal_repeat(input(range, body));
    assert_eq!(literals(&out), ["1usize", "2usize", "3usize", "4usize"]);
}

#[test]
fn a_missing_arrow_falls_back_to_twelve_repetitions() {
    let out = internal_repeat(vec![brace(count_once())]);
    assert_eq!(times(&out, "count"), 12);
}

#[test]
fn an_empty_range_falls_back_to_twelve_repetitions() {
    let range = vec![lit("5"), punct('.'), punct('.'), lit("3"), punct('='), punct('>')];
    let out = internal_repeat(input(range, count_once()));
    assert_eq!(times(&out, "count"), 12);
}

#[test]
fn a_non_numeric_bound_falls_back_to_twelve_repetitions() {
    let range = vec![
        lit("1"),
        punct('.'),
        punct('.'),
        punct('='),
        ident("abc"),
        punct('='),
        punct('>'),
    ];
    let out = internal_repeat(input(range, count_once()));
    assert_eq!(times(&out, "count"), 12);
}

#[test]
fn the_current_number_is_written_per_repetition() {
    let body = vec![ident("sum"), Token::Punct('+', true), punct('='), punct('$'), punct(';')];
    let out = internal_repeat(input(inclusive("1", "3"), body));
    assert_eq!(literals(&out), ["1usize", "2usize", "3usize"]);
}

#[test]
fn the_caret_placeholders_write_the_range_bounds() {
    let end = vec![ident("sum"), punct('^'), punct('$'), punct(';')];
    let out = internal_repeat(input(inclusive("1", "4"), end));
    assert_eq!(literals(&out), ["4usize", "4usize", "4usize", "4usize"]);

    let start = vec![ident("sum"), punct('$'), punct('^'), punct(';')];
    let out = internal_repeat(input(inclusive("1", "4"), start));
    assert_eq!(idents(&out), ["sum1", "sum1", "sum1", "sum1"]);

    let start = vec![punct('='), punct('$'), punct('^'), punct(';')];
    let out = internal_repeat(input(inclusive("1", "4"), start));
    assert_eq!(literals(&out), ["1usize", "1usize", "1usize", "1usize"]);
}

#[test]
fn the_plus_and_minus_placeholders_shift_the_current_number() {
    let plus = vec![punct('='), punct('$'), punct('+'), punct(';')];
    let out = internal_repeat(input(inclusive("1", "3"), plus));
    assert_eq!(literals(&out), ["2usize", "3usize", "4usize"]);

    let minus = vec![punct('='), punct('$'), punct('-'), punct(';')];
    let out = internal_repeat(input(inclusive("1", "3"), minus));
    assert_eq!(literals(&out), ["0usize", "1usize", "2usize"]);
}

#[test]
fn an_identifier_gains_the_current_number_as_a_suffix() {
    let body = vec![ident("let"), ident("value"), punct('$'), punct('='), punct('$'), punct(';')];
    let out = internal_repeat(input(inclusive("1", "3"), body));
    assert_eq!(
        idents(&out),
        ["let", "value1", "let", "value2", "let", "value3"]
    );
    assert_eq!(literals(&out), ["1usize", "2usize", "3usize"]);
}

#[test]
fn an_identifier_suffix_survives_the_number_being_inserted() {
    let body = vec![ident("value"), punct('$'), ident("arg")];
    let out = internal_repeat(input(inclusive("1", "3"), body));
    assert_eq!(idents(&out), ["value1arg", "value2arg", "value3arg"]);
}

#[test]
fn an_identifier_can_take_a_shifted_or_minimum_number() {
    let next = vec![ident("next"), punct('$'), punct('+')];
    let out = internal_repeat(input(inclusive("1", "3"), next));
    assert_eq!(idents(&out), ["next2", "next3", "next4"]);

    let previous = vec![ident("previous"), punct('$'), punct('-')];
    let out = internal_repeat(input(inclusive("1", "3"), previous));
    assert_eq!(idents(&out), ["previous0", "previous1", "previous2"]);

    let first = vec![ident("first"), punct('$'), punct('^')];
    let out = internal_repeat(input(inclusive("1", "3"), first));
    assert_eq!(idents(&out), ["first1", "first1", "first1"]);
}

#[test]
fn a_comma_separated_group_repeats_as_a_tuple() {
    let body = vec![paren(vec![paren(vec![punct('$'), punct(','), punct('+')])])];
    let out = internal_repeat(input(inclusive("3", "3"), body));

    assert_eq!(out.len(), 1);
    match &out[0] {
        Token::Group(Delimiter::Parenthesis, inner) => {
            assert_eq!(inner.len(), 5);
            assert!(matches!(&inner[1], Token::Punct(',', false)));
            assert!(matches!(&inner[3], Token::Punct(',', false)));
        }
        other => panic!("{other:?}"),
    }
    assert_eq!(literals(&out), ["1usize", "2usize", "3usize"]);
}

#[test]
fn a_semicolon_separated_group_repeats_as_statements() {
    let mut stream = count_once();
    stream.push(punct('+'));
    let out = internal_repeat(input(inclusive("3", "3"), vec![paren(stream)]));

    assert_eq!(times(&out, "count"), 3);
    let separators = out
        .iter()
        .filter(|token| matches!(token, Token::Punct(';', _)))
        .count();
    assert_eq!(separators, 2);
}

#[test]
fn a_group_without_a_separator_repeats_what_it_holds() {
    let inner = brace(vec![ident("sum"), Token::Punct('+', true), punct('='), punct('$'), punct(';')]);
    let out = internal_repeat(input(inclusive("3", "3"), vec![paren(vec![inner, punct('+')])]));

    assert_eq!(out.len(), 3);
    assert_eq!(literals(&out), ["1usize", "2usize", "3usize"]);
}

#[test]
fn a_bare_marker_repeats_nothing() {
    let mut body = count_once();
    body.push(paren(vec![punct('+')]));
    let out = internal_repeat(input(inclusive("3", "3"), body));

    assert_eq!(times(&out, "count"), 1);
    assert_eq!(out.len(), 5);
}

#[test]
fn a_trailing_plus_repeats_the_group_once_more() {
    let mut stream = count_once();
    stream.push(punct('+'));
    let out = internal_repeat(input(inclusive("3", "3"), vec![paren(stream), punct('+')]));
    assert_eq!(times(&out, "count"), 4);
}

#[test]
fn a_trailing_minus_repeats_the_group_once_less() {
    let mut stream = count_once();
    stream.push(punct('+'));
    let out = internal_repeat(input(inclusive("3", "3"), vec![paren(stream), punct('-')]));
    assert_eq!(times(&out, "count"), 2);
}

#[test]
fn a_trailing_caret_repeats_the_complement_of_the_range() {
    let stream = vec![brace(count_once()), punct('+')];
    let out = internal_repeat(input(inclusive("2", "4"), vec![paren(stream), punct('^')]));
    assert_eq!(times(&out, "count"), 3);
}

#[test]
fn a_range_reads_its_bounds_and_where_the_template_starts() {
    assert_eq!(parse_range(&input(inclusive("2", "4"), Vec::new())), (2, 4, 7));
    assert_eq!(
        parse_range(&vec![lit("2"), punct('.'), punct('.'), lit("5"), punct('='), punct('>')]),
        (2, 4, 6)
    );
    assert_eq!(parse_range(&vec![lit("7"), punct('='), punct('>')]), (1, 7, 3));
    assert_eq!(parse_range(&vec![brace(Vec::new())]), (1, 12, 0));
    assert_eq!(
        parse_range(&vec![lit("+"), lit("9"), punct('='), punct('>')]),
        (1, 9, 4)
    );
}

#[test]
fn a_template_with_nothing_to_rewrite_comes_out_as_it_went_in() {
    let body = vec![ident("a"), punct(','), lit("\"text\""), brace(vec![ident("b")])];
    let out = expand_body(&body, 2, 1, 5);

    assert_eq!(out.len(), 4);
    assert_eq!(idents(&out), ["a", "b"]);
    assert_eq!(literals(&out), ["\"text\""]);
    assert!(matches!(&out[3], Token::Group(Delimiter::Brace, inner) if inner.len() == 1));
}
