//! Repeating a template once per number in a range.
//!
//! The input is `start ..= end => { template }` (or `start .. end`, or a bare count, which counts
//! up from one), as a list of tokens. The template is emitted once per number in the range, with
//! its placeholders rewritten in each copy:
//!
//! - `$` is the current number, `$+` and `$-` the numbers after and before it (the latter no lower
//!   than zero), `$^` the range's start and `^$` its end, each written as a `usize` literal;
//! - an identifier followed by `$` gains the current number as a suffix (`T$` becomes `T1`, `T2`,
//!   ...), or the number after it, before it or the start with `$+`, `$-` or `$^`, and keeps an
//!   identifier that follows the `$` after the number (`With$Arg` becomes `With1Arg`);
//! - a parenthesized group whose last token is `+` repeats what it holds once per number up to the
//!   current one, with the `,` or `;` before the `+` between the copies; a `+`, `-` or `^` after
//!   the group repeats it once more, once less, or as often as the end is away from the current
//!   number.
//!
//! A range that does not read falls back to the numbers one to twelve.
use vstd::prelude::*;

use crate::decimal::{decimal_chars, decimal_text};
use crate::protocol::address::{all_digits, chars_of, digits_number, lemma_digits_number_grows};
use crate::text::{push_char, push_text};

verus! {

/// How a group of tokens is delimited.
#[derive(Clone, Copy, Debug, PartialEq, Eq, Structural)]
pub enum Delimiter {
    /// `( ... )`
    Parenthesis,
    /// `{ ... }`
    Brace,
    /// `[ ... ]`
    Bracket,
    /// A group with no delimiter of its own.
    Invisible,
}

/// One token of a template: an identifier, a punctuation character (and whether it is joined to
/// the one after it), a literal as it is written, or a delimited group of tokens.
#[derive(Debug)]
pub enum Token {
    /// An identifier, by its name.
    Ident(String),
    /// A punctuation character, and whether the next one is joined to it.
    Punct(char, bool),
    /// A literal, as it is written.
    Literal(String),
    /// A group, by its delimiter and what it holds.
    Group(Delimiter, Vec<Token>),
}

/// What a token is, with its text as characters.
pub enum TokenView {
    /// An identifier.
    Ident(Seq<char>),
    /// A punctuation character and its spacing.
    Punct(char, bool),
    /// A literal's text.
    Literal(Seq<char>),
    /// A group.
    Group(Delimiter, Seq<TokenView>),
}

impl Token {
    /// What this token is.
    pub open spec fn tree(self) -> TokenView
        decreases self,
    {
        match self {
            Token::Ident(name) => TokenView::Ident(name@),
            Token::Punct(c, joint) => TokenView::Punct(c, joint),
            Token::Literal(text) => TokenView::Literal(text@),
            Token::Group(delimiter, inner) => {
                proof {
                    broadcast use vstd::std_specs::vec::axiom_vec_decreases_to_view;
                }
                TokenView::Group(delimiter, trees(inner@))
            },
        }
    }
}

/// What the tokens `tokens` are.
pub open spec fn trees(tokens: Seq<Token>) -> Seq<TokenView>
    decreases tokens,
{
    if tokens.len() == 0 {
        Seq::empty()
    } else {
        seq![tokens[0].tree()] + trees(tokens.drop_first())
    }
}

impl View for Token {
    type V = TokenView;

    open spec fn view(&self) -> TokenView {
        self.tree()
    }
}

/// `trees` keeps the length and maps each token to what it is.
pub proof fn lemma_trees(tokens: Seq<Token>)
    ensures
        trees(tokens).len() == tokens.len(),
        forall|i: int| 0 <= i < tokens.len() ==> #[trigger] trees(tokens)[i] == tokens[i].tree(),
    decreases tokens.len(),
{
    if tokens.len() > 0 {
        lemma_trees(tokens.drop_first());
        assert forall|i: int| 0 <= i < tokens.len() implies #[trigger] trees(tokens)[i]
            == tokens[i].tree() by {
            if i > 0 {
                assert(tokens.drop_first()[i - 1] == tokens[i]);
            }
        }
    }
}

/// `trees` of two lists put together is the two `trees` put together.
pub proof fn lemma_trees_add(a: Seq<Token>, b: Seq<Token>)
    ensures
        trees(a + b) == trees(a) + trees(b),
{
    lemma_trees(a);
    lemma_trees(b);
    lemma_trees(a + b);
    assert(trees(a + b) =~= trees(a) + trees(b));
}

/// How many tokens `tree` is made of, counting each group and everything in it.
pub open spec fn tree_size(tree: TokenView) -> nat
    decreases tree,
{
    match tree {
        TokenView::Group(_, inner) => 1 + trees_size(inner),
        _ => 1,
    }
}

/// How many tokens `list` is made of, counting each group and everything in it.
pub open spec fn trees_size(list: Seq<TokenView>) -> nat
    decreases list,
{
    if list.len() == 0 {
        0
    } else {
        tree_size(list[0]) + trees_size(list.drop_first())
    }
}

/// How deep the groups in `tree` are nested.
pub open spec fn tree_depth(tree: TokenView) -> nat
    decreases tree,
{
    match tree {
        TokenView::Group(_, inner) => 1 + trees_depth(inner),
        _ => 0,
    }
}

/// How deep the groups in `list` are nested.
pub open spec fn trees_depth(list: Seq<TokenView>) -> nat
    decreases list,
{
    if list.len() == 0 {
        0
    } else {
        let first = tree_depth(list[0]);
        let rest = trees_depth(list.drop_first());
        if first >= rest {
            first
        } else {
            rest
        }
    }
}

/// Sizes add up over lists put together, and depths take the larger of the two.
pub proof fn lemma_trees_add_size(a: Seq<TokenView>, b: Seq<TokenView>)
    ensures
        trees_size(a + b) == trees_size(a) + trees_size(b),
        trees_depth(a + b) == (if trees_depth(a) >= trees_depth(b) {
            trees_depth(a)
        } else {
            trees_depth(b)
        }),
    decreases a.len(),
{
    if a.len() > 0 {
        lemma_trees_add_size(a.drop_first(), b);
        assert((a + b).drop_first() =~= a.drop_first() + b);
        assert((a + b)[0] == a[0]);
    } else {
        assert(a + b =~= b);
    }
}

/// A part of a list is no larger and no deeper than the list, and one of its tokens is no larger
/// and no deeper than it either.
pub proof fn lemma_trees_part(list: Seq<TokenView>, from: int, to: int)
    requires
        0 <= from <= to <= list.len(),
    ensures
        trees_size(list.subrange(from, to)) <= trees_size(list),
        trees_depth(list.subrange(from, to)) <= trees_depth(list),
        from < to ==> tree_size(list[from]) <= trees_size(list) && tree_depth(list[from])
            <= trees_depth(list),
{
    let head = list.subrange(0, from);
    let mid = list.subrange(from, to);
    let tail = list.subrange(to, list.len() as int);
    assert(list =~= head + (mid + tail));
    lemma_trees_add_size(mid, tail);
    lemma_trees_add_size(head, mid + tail);
    if from < to {
        assert(mid[0] == list[from]);
    }
}

/// `trees` of a list with one more token is `trees` of the list with what that token is.
pub proof fn lemma_trees_push(tokens: Seq<Token>, token: Token)
    ensures
        trees(tokens.push(token)) == trees(tokens).push(token.tree()),
{
    lemma_trees(tokens);
    lemma_trees(tokens.push(token));
    assert(trees(tokens.push(token)) =~= trees(tokens).push(token.tree()));
}

/// What a punctuation token is.
pub proof fn lemma_punct_tree(c: char, joint: bool)
    ensures
        Token::Punct(c, joint).tree() == TokenView::Punct(c, joint),
{
}

/// `trees` of a list with the separator `c` after it.
pub proof fn lemma_separated(tokens: Seq<Token>, c: char, sep: Option<char>)
    requires
        sep == Some(c),
    ensures
        trees(tokens.push(Token::Punct(c, false))) == trees(tokens) + separator(sep),
{
    lemma_punct_tree(c, false);
    lemma_trees_push(tokens, Token::Punct(c, false));
    assert(trees(tokens.push(Token::Punct(c, false))) =~= trees(tokens) + separator(sep));
}

/// What stands between two copies of a repeated group: the separator `sep`, where there is one.
pub open spec fn separator(sep: Option<char>) -> Seq<TokenView> {
    match sep {
        Some(c) => seq![TokenView::Punct(c, false)],
        None => Seq::empty(),
    }
}

/// Whether `tree` is the punctuation character `c`.
pub open spec fn is_punct(tree: TokenView, c: char) -> bool {
    match tree {
        TokenView::Punct(p, _) => p == c,
        _ => false,
    }
}

/// The characters `usize`, the suffix a number is written with.
pub open spec fn usize_suffix() -> Seq<char> {
    seq!['u', 's', 'i', 'z', 'e']
}

/// The number `n` written as a `usize` literal: its digits and the suffix.
pub open spec fn usize_literal(n: nat) -> TokenView {
    TokenView::Literal(decimal_chars(n) + usize_suffix())
}

/// The identifier `name` with the number `n` after it.
pub open spec fn numbered(name: Seq<char>, n: nat) -> TokenView {
    TokenView::Ident(name + decimal_chars(n))
}

/// One less than `n`, and no less than zero.
pub open spec fn less_one(n: nat) -> nat {
    if n == 0 {
        0
    } else {
        (n - 1) as nat
    }
}

/// How far `current` is short of `max`, and no less than zero.
pub open spec fn short_of(max: nat, current: nat) -> nat {
    if max >= current {
        (max - current) as nat
    } else {
        0
    }
}

/// The token that stands for the placeholder at `i` of `tokens`, or for the token there where it
/// is none, and how many tokens it takes up; for any token but a group.
pub open spec fn rewritten(tokens: Seq<TokenView>, i: int, current: nat, min: nat, max: nat) -> (
    TokenView,
    int,
) {
    let n = tokens.len();
    let t = tokens[i];
    if is_punct(t, '^') && i + 1 < n && is_punct(tokens[i + 1], '$') {
        (usize_literal(max), 2)
    } else {
        match t {
            TokenView::Ident(name) => if i + 1 < n && is_punct(tokens[i + 1], '$') {
                if i + 2 < n && is_punct(tokens[i + 2], '+') {
                    (numbered(name, current + 1), 3)
                } else if i + 2 < n && is_punct(tokens[i + 2], '-') {
                    (numbered(name, less_one(current)), 3)
                } else if i + 2 < n && is_punct(tokens[i + 2], '^') {
                    (numbered(name, min), 3)
                } else if i + 2 < n && tokens[i + 2] is Ident {
                    (TokenView::Ident(name + decimal_chars(current) + tokens[i + 2]->Ident_0), 3)
                } else {
                    (numbered(name, current), 2)
                }
            } else {
                (t, 1)
            },
            TokenView::Punct(c, _) => if c == '$' {
                if i + 1 < n && is_punct(tokens[i + 1], '^') {
                    (usize_literal(min), 2)
                } else if i + 1 < n && is_punct(tokens[i + 1], '+') {
                    (usize_literal(current + 1), 2)
                } else if i + 1 < n && is_punct(tokens[i + 1], '-') {
                    (usize_literal(less_one(current)), 2)
                } else {
                    (usize_literal(current), 1)
                }
            } else {
                (t, 1)
            },
            _ => (t, 1),
        }
    }
}

/// The separator a repeated group's content `stream` is written with (the `,` or `;` before its
/// closing `+`, if there is one) and what it repeats.
pub open spec fn repeated_content(stream: Seq<TokenView>) -> (Seq<TokenView>, Option<char>) {
    if stream.len() >= 2 {
        if is_punct(stream[stream.len() - 2], ',') {
            (stream.take(stream.len() - 2), Some(','))
        } else if is_punct(stream[stream.len() - 2], ';') {
            (stream.take(stream.len() - 2), Some(';'))
        } else {
            (stream.take(stream.len() - 1), None)
        }
    } else {
        (Seq::empty(), None)
    }
}

/// How many times the group at `i` of `tokens` repeats, and how many tokens it takes up: a `+`,
/// `-` or `^` after it makes it once more than `current`, once less, or `max` less `current`.
pub open spec fn repeat_count(tokens: Seq<TokenView>, i: int, current: nat, max: nat) -> (nat, int) {
    if i + 1 < tokens.len() && is_punct(tokens[i + 1], '+') {
        (current + 1, 2)
    } else if i + 1 < tokens.len() && is_punct(tokens[i + 1], '-') {
        (less_one(current), 2)
    } else if i + 1 < tokens.len() && is_punct(tokens[i + 1], '^') {
        (short_of(max, current), 2)
    } else {
        (current, 1)
    }
}

/// Whether `tree` is a parenthesized group whose last token is `+`: a group that repeats.
pub open spec fn is_repetition(tree: TokenView) -> bool {
    match tree {
        TokenView::Group(Delimiter::Parenthesis, stream) => stream.len() > 0 && is_punct(
            stream.last(),
            '+',
        ),
        _ => false,
    }
}

/// What the group at `i` of `tokens` repeats into, and how many tokens it takes up, where it is
/// a group that repeats.
pub open spec fn repetition(tokens: Seq<TokenView>, i: int, current: nat, max: nat) -> Option<
    (Seq<TokenView>, int),
> {
    if 0 <= i < tokens.len() && is_repetition(tokens[i]) {
        let (inner, sep) = repeated_content(tokens[i]->Group_1);
        let (count, consumed) = repeat_count(tokens, i, current, max);
        Some((repeated(inner, sep, count, count), consumed))
    } else {
        None
    }
}

/// The first `n` copies of `inner`, the `k`th written for the number `k` of a range from one to
/// `total`, with `sep` between them where there is one.
pub open spec fn repeated(inner: Seq<TokenView>, sep: Option<char>, n: nat, total: nat) -> Seq<
    TokenView,
>
    decreases trees_size(inner), 3nat, n,
{
    if n == 0 {
        Seq::empty()
    } else {
        let between = if n > 1 {
            separator(sep)
        } else {
            Seq::empty()
        };
        repeated(inner, sep, (n - 1) as nat, total) + between + expansion_from(
            inner,
            0,
            n,
            1,
            total,
        )
    }
}

/// `tokens` from `i` on, with every placeholder rewritten for the number `current` of the range
/// from `min` to `max`, every group that repeats repeated, and every other group rewritten within.
pub open spec fn expansion_from(tokens: Seq<TokenView>, i: int, current: nat, min: nat, max: nat) -> Seq<
    TokenView,
>
    decreases trees_size(tokens), 2nat, tokens.len() - i,
{
    if i < 0 || i >= tokens.len() {
        Seq::empty()
    } else {
        if is_repetition(tokens[i]) {
            let stream = tokens[i]->Group_1;
            let (inner, sep) = repeated_content(stream);
            let (count, consumed) = repeat_count(tokens, i, current, max);
            proof {
                lemma_trees_part(tokens, i, i + 1);
                lemma_trees_part(stream, 0, inner.len() as int);
            }
            repeated(inner, sep, count, count) + expansion_from(tokens, i + consumed, current, min, max)
        } else {
            match tokens[i] {
                TokenView::Group(delimiter, inner) => {
                    proof {
                        lemma_trees_part(tokens, i, i + 1);
                    }
                    seq![TokenView::Group(delimiter, expansion_from(inner, 0, current, min, max))]
                        + expansion_from(tokens, i + 1, current, min, max)
                },
                _ => {
                    let (token, consumed) = rewritten(tokens, i, current, min, max);
                    seq![token] + expansion_from(tokens, i + consumed, current, min, max)
                },
            }
        }
    }
}

/// `tokens` with every placeholder rewritten for the number `current` of the range from `min`
/// to `max`.
pub open spec fn expansion(tokens: Seq<TokenView>, current: nat, min: nat, max: nat) -> Seq<TokenView> {
    expansion_from(tokens, 0, current, min, max)
}

/// A copy of `token`.
pub fn copy_token(token: &Token) -> (copy: Token)
    ensures
        copy@ == token@,
    decreases tree_size(token@), 0nat,
{
    match token {
        Token::Ident(name) => Token::Ident(name.clone()),
        Token::Punct(c, joint) => Token::Punct(*c, *joint),
        Token::Literal(text) => Token::Literal(text.clone()),
        Token::Group(delimiter, inner) => {
            proof {
                lemma_trees(inner@);
            }
            let copy = copy_range(inner, 0, inner.len());
            assert(trees(inner@).subrange(0, inner@.len() as int) =~= trees(inner@));
            Token::Group(*delimiter, copy)
        },
    }
}

/// A copy of the tokens of `tokens` from `from` up to `to`.
pub fn copy_range(tokens: &Vec<Token>, from: usize, to: usize) -> (copy: Vec<Token>)
    requires
        from <= to <= tokens.len(),
    ensures
        trees(copy@) == trees(tokens@).subrange(from as int, to as int),
    decreases trees_size(trees(tokens@)), 1nat,
{
    proof {
        lemma_trees(tokens@);
    }
    let mut copy: Vec<Token> = Vec::new();
    let mut i: usize = from;
    while i < to
        invariant
            from <= i <= to <= tokens.len(),
            trees(tokens@).len() == tokens@.len(),
            forall|k: int| 0 <= k < tokens@.len() ==> #[trigger] trees(tokens@)[k] == tokens@[k].tree(),
            trees(copy@) == trees(tokens@).subrange(from as int, i as int),
        decreases to - i,
    {
        proof {
            lemma_trees_part(trees(tokens@), i as int, i + 1);
        }
        let token = copy_token(&tokens[i]);
        proof {
            lemma_trees_push(copy@, token);
        }
        copy.push(token);
        i = i + 1;
        assert(trees(copy@) =~= trees(tokens@).subrange(from as int, i as int));
    }
    copy
}

/// Whether `token` is the punctuation character `c`.
pub fn punct_is(token: &Token, c: char) -> (is: bool)
    ensures
        is == is_punct(token@, c),
{
    match token {
        Token::Punct(p, _) => *p == c,
        _ => false,
    }
}

/// The number `n` written as a `usize` literal.
pub fn usize_literal_token(n: usize) -> (literal: Token)
    ensures
        literal@ == usize_literal(n as nat),
{
    let mut text = decimal_text(n as u64);
    push_text(&mut text, "usize");
    proof {
        reveal_strlit("usize");
        assert("usize"@ =~= usize_suffix());
    }
    Token::Literal(text)
}

/// The identifier `name` with the number `n` after it, and then `suffix`.
pub fn numbered_token(name: &str, n: usize, suffix: &str) -> (ident: Token)
    ensures
        ident@ == TokenView::Ident(name@ + decimal_chars(n as nat) + suffix@),
{
    let mut text = String::new();
    push_text(&mut text, name);
    push_text(&mut text, decimal_text(n as u64).as_str());
    push_text(&mut text, suffix);
    Token::Ident(text)
}

/// The token that stands for the placeholder at `i` of `tokens` (or for the token there, where
/// it is none) and how many tokens it takes up, for any token but a group.
pub fn rewrite(tokens: &Vec<Token>, i: usize, current: usize, min: usize, max: usize) -> (rewritten_token: (
    Token,
    usize,
))
    requires
        i < tokens.len(),
        !(tokens@[i as int] is Group),
        current < usize::MAX,
    ensures
        (rewritten_token.0@, rewritten_token.1 as int) == rewritten(
            trees(tokens@),
            i as int,
            current as nat,
            min as nat,
            max as nat,
        ),
{
    proof {
        lemma_trees(tokens@);
        reveal_strlit("");
        assert(""@ =~= Seq::<char>::empty());
    }
    let ghost all = trees(tokens@);
    let n = tokens.len();
    assert(all[i as int] == tokens@[i as int].tree());
    assert(i + 1 < n ==> all[i + 1] == tokens@[i + 1].tree());
    assert(i + 2 < n ==> all[i + 2] == tokens@[i + 2].tree());
    if punct_is(&tokens[i], '^') && i + 1 < n && punct_is(&tokens[i + 1], '$') {
        return (usize_literal_token(max), 2);
    }
    match &tokens[i] {
        Token::Ident(name) => {
            if i + 1 < n && punct_is(&tokens[i + 1], '$') {
                if i + 2 < n && punct_is(&tokens[i + 2], '+') {
                    let ident = numbered_token(name.as_str(), current + 1, "");
                    assert(name@ + decimal_chars((current + 1) as nat) + ""@ =~= name@ + decimal_chars(
                        (current + 1) as nat,
                    ));
                    return (ident, 3);
                }
                if i + 2 < n && punct_is(&tokens[i + 2], '-') {
                    let less = if current == 0 {
                        0
                    } else {
                        current - 1
                    };
                    let ident = numbered_token(name.as_str(), less, "");
                    assert(name@ + decimal_chars(less as nat) + ""@ =~= name@ + decimal_chars(
                        less as nat,
                    ));
                    return (ident, 3);
                }
                if i + 2 < n && punct_is(&tokens[i + 2], '^') {
                    let ident = numbered_token(name.as_str(), min, "");
                    assert(name@ + decimal_chars(min as nat) + ""@ =~= name@ + decimal_chars(
                        min as nat,
                    ));
                    return (ident, 3);
                }
                if i + 2 < n {
                    match &tokens[i + 2] {
                        Token::Ident(suffix) => {
                            return (numbered_token(name.as_str(), current, suffix.as_str()), 3);
                        },
                        _ => {},
                    }
                }
                let ident = numbered_token(name.as_str(), current, "");
                assert(name@ + decimal_chars(current as nat) + ""@ =~= name@ + decimal_chars(
                    current as nat,
                ));
                return (ident, 2);
            }
            (copy_token(&tokens[i]), 1)
        },
        Token::Punct(c, _) => {
            if *c == '$' {
                if i + 1 < n && punct_is(&tokens[i + 1], '^') {
                    return (usize_literal_token(min), 2);
                }
                if i + 1 < n && punct_is(&tokens[i + 1], '+') {
                    return (usize_literal_token(current + 1), 2);
                }
                if i + 1 < n && punct_is(&tokens[i + 1], '-') {
                    let less = if current == 0 {
                        0
                    } else {
                        current - 1
                    };
                    return (usize_literal_token(less), 2);
                }
                return (usize_literal_token(current), 1);
            }
            (copy_token(&tokens[i]), 1)
        },
        _ => (copy_token(&tokens[i]), 1),
    }
}

/// What the group at `i` of `tokens` repeats into, and how many tokens it takes up, where it is
/// a parenthesized group whose last token is `+`; `None` where it is not.
///
/// What the group holds, less the `+` and the `,` or `;` before it, is written once for each
/// number from one to the count, for that number of a range from one to the count, with that
/// `,` or `;` between the copies. The count is `current`, or with a `+`, `-` or `^` after the
/// group once more, once less (no less than zero), or `max` less `current`.
pub fn try_expand_paren_group(tokens: &Vec<Token>, i: usize, current: usize, min: usize, max: usize) -> (expanded:
    Option<(Vec<Token>, usize)>)
    requires
        current <= max,
        max + trees_depth(trees(tokens@)) < usize::MAX,
    ensures
        match expanded {
            Some((items, consumed)) => repetition(trees(tokens@), i as int, current as nat, max as nat)
                == Some((trees(items@), consumed as int)),
            None => repetition(trees(tokens@), i as int, current as nat, max as nat) is None,
        },
    decreases trees_size(trees(tokens@)), 0nat,
{
    proof {
        lemma_trees(tokens@);
    }
    let ghost all = trees(tokens@);
    if i >= tokens.len() {
        return None;
    }
    assert(all[i as int] == tokens@[i as int].tree());
    let stream = match &tokens[i] {
        Token::Group(Delimiter::Parenthesis, stream) => stream,
        _ => {
            return None;
        },
    };
    let ghost stream_trees = trees(stream@);
    proof {
        lemma_trees(stream@);
    }
    let len = stream.len();
    if len == 0 || !punct_is(&stream[len - 1], '+') {
        assert(len > 0 ==> stream_trees.last() == stream@[len - 1].tree());
        return None;
    }
    assert(stream_trees.last() == stream@[len - 1].tree());
    let (inner, sep): (Vec<Token>, Option<char>) = if len >= 2 {
        assert(stream_trees[len - 2] == stream@[len - 2].tree());
        if punct_is(&stream[len - 2], ',') {
            (copy_range(stream, 0, len - 2), Some(','))
        } else if punct_is(&stream[len - 2], ';') {
            (copy_range(stream, 0, len - 2), Some(';'))
        } else {
            (copy_range(stream, 0, len - 1), None)
        }
    } else {
        assert(trees(Seq::<Token>::empty()) =~= Seq::<TokenView>::empty());
        (Vec::new(), None)
    };
    assert((trees(inner@), sep) == repeated_content(stream_trees));
    proof {
        lemma_trees_part(all, i as int, i + 1);
        lemma_trees_part(stream_trees, 0, trees(inner@).len() as int);
    }
    assert(i + 1 < tokens.len() ==> all[i + 1] == tokens@[i + 1].tree());
    let (count, consumed): (usize, usize) = if i + 1 < tokens.len() && punct_is(&tokens[i + 1], '+') {
        (current + 1, 2)
    } else if i + 1 < tokens.len() && punct_is(&tokens[i + 1], '-') {
        (
            if current == 0 {
                0
            } else {
                current - 1
            },
            2,
        )
    } else if i + 1 < tokens.len() && punct_is(&tokens[i + 1], '^') {
        (max - current, 2)
    } else {
        (current, 1)
    };
    assert((count as nat, consumed as int) == repeat_count(all, i as int, current as nat, max as nat));
    let ghost inner_trees = trees(inner@);
    let mut out: Vec<Token> = Vec::new();
    let mut n: usize = 1;
    assert(trees(out@) =~= Seq::<TokenView>::empty());
    while n <= count
        invariant
            1 <= n <= count + 1,
            count < usize::MAX,
            count + trees_depth(inner_trees) < usize::MAX,
            inner_trees == trees(inner@),
            trees_size(inner_trees) < trees_size(trees(tokens@)),
            trees(out@) == repeated(inner_trees, sep, (n - 1) as nat, count as nat),
        decreases count + 1 - n,
    {
        let ghost prev = trees(out@);
        let ghost between = if n > 1 {
            separator(sep)
        } else {
            Seq::<TokenView>::empty()
        };
        if n > 1 {
            match sep {
                Some(c) => {
                    proof {
                        lemma_separated(out@, c, sep);
                    }
                    out.push(Token::Punct(c, false));
                },
                None => {
                    assert(trees(out@) =~= prev + between);
                },
            }
        } else {
            assert(trees(out@) =~= prev + between);
        }
        let mut items = expand_body(&inner, n, 1, count);
        proof {
            lemma_trees_add(out@, items@);
        }
        out.append(&mut items);
        assert(repeated(inner_trees, sep, n as nat, count as nat) == prev + between + expansion_from(
            inner_trees,
            0,
            n as nat,
            1,
            count as nat,
        ));
        assert(trees(out@) =~= repeated(inner_trees, sep, n as nat, count as nat));
        n = n + 1;
    }
    Some((out, consumed))
}

/// `tokens` with every placeholder rewritten for the number `current` of the range from `min` to
/// `max`, every group that repeats repeated, and every other group rewritten within.
///
/// No number it writes may pass `usize::MAX`: `max` stays under it by more than the groups in
/// `tokens` are deep, since a group that repeats once more than the current number raises the
/// range within it by one.
pub fn expand_body(tokens: &Vec<Token>, current: usize, min: usize, max: usize) -> (out: Vec<Token>)
    requires
        current <= max,
        max + trees_depth(trees(tokens@)) < usize::MAX,
    ensures
        trees(out@) == expansion(trees(tokens@), current as nat, min as nat, max as nat),
    decreases trees_size(trees(tokens@)), 1nat,
{
    proof {
        lemma_trees(tokens@);
    }
    let ghost all = trees(tokens@);
    let mut out: Vec<Token> = Vec::new();
    let mut i: usize = 0;
    assert(trees(out@) =~= Seq::<TokenView>::empty());
    assert(Seq::<TokenView>::empty() + expansion_from(all, 0, current as nat, min as nat, max as nat)
        =~= expansion_from(all, 0, current as nat, min as nat, max as nat));
    while i < tokens.len()
        invariant
            i <= tokens.len(),
            all == trees(tokens@),
            all.len() == tokens@.len(),
            forall|k: int| 0 <= k < tokens@.len() ==> #[trigger] all[k] == tokens@[k].tree(),
            current <= max,
            max + trees_depth(all) < usize::MAX,
            trees(out@) + expansion_from(all, i as int, current as nat, min as nat, max as nat)
                == expansion_from(all, 0, current as nat, min as nat, max as nat),
        decreases tokens.len() - i,
    {
        let ghost rest = expansion_from(all, i as int, current as nat, min as nat, max as nat);
        match try_expand_paren_group(tokens, i, current, min, max) {
            Some((mut items, consumed)) => {
                let ghost after = expansion_from(
                    all,
                    i + consumed,
                    current as nat,
                    min as nat,
                    max as nat,
                );
                assert(rest == trees(items@) + after);
                proof {
                    lemma_trees_add(out@, items@);
                }
                let ghost done = trees(out@);
                out.append(&mut items);
                assert(done + rest =~= trees(out@) + after);
                i = i + consumed;
            },
            None => {
                assert(!is_repetition(all[i as int]));
                match &tokens[i] {
                    Token::Group(delimiter, inner) => {
                        proof {
                            lemma_trees(inner@);
                            lemma_trees_part(all, i as int, i + 1);
                        }
                        let expanded = expand_body(inner, current, min, max);
                        let group = Token::Group(*delimiter, expanded);
                        proof {
                            lemma_trees_push(out@, group);
                        }
                        let ghost done = trees(out@);
                        out.push(group);
                        assert(done + rest =~= trees(out@) + expansion_from(
                            all,
                            i + 1,
                            current as nat,
                            min as nat,
                            max as nat,
                        ));
                        i = i + 1;
                    },
                    _ => {
                        let (token, consumed) = rewrite(tokens, i, current, min, max);
                        proof {
                            lemma_trees_push(out@, token);
                        }
                        let ghost done = trees(out@);
                        out.push(token);
                        assert(done + rest =~= trees(out@) + expansion_from(
                            all,
                            i + consumed,
                            current as nat,
                            min as nat,
                            max as nat,
                        ));
                        i = i + consumed;
                    },
                }
            },
        }
    }
    assert(trees(out@) + Seq::<TokenView>::empty() =~= trees(out@));
    out
}

/// Where the first `a` followed by `b` stands in `tokens`, at or after `from`.
pub open spec fn pair_at(tokens: Seq<TokenView>, a: char, b: char, from: int) -> Option<int>
    decreases tokens.len() - from,
{
    if from < 0 || from + 1 >= tokens.len() {
        None
    } else if is_punct(tokens[from], a) && is_punct(tokens[from + 1], b) {
        Some(from)
    } else {
        pair_at(tokens, a, b, from + 1)
    }
}

/// The text of a literal or an identifier; nothing for any other token.
pub open spec fn token_text(tree: TokenView) -> Seq<char> {
    match tree {
        TokenView::Literal(text) => text,
        TokenView::Ident(name) => name,
        _ => Seq::empty(),
    }
}

/// The texts of the literals and identifiers of `tokens`, one after the other.
pub open spec fn tokens_text(tokens: Seq<TokenView>) -> Seq<char>
    decreases tokens.len(),
{
    if tokens.len() == 0 {
        Seq::empty()
    } else {
        tokens_text(tokens.drop_last()) + token_text(tokens.last())
    }
}

/// `text` without its spaces.
pub open spec fn without_spaces(text: Seq<char>) -> Seq<char>
    decreases text.len(),
{
    if text.len() == 0 {
        Seq::empty()
    } else {
        without_spaces(text.drop_last()) + (if text.last() == ' ' {
            Seq::empty()
        } else {
            seq![text.last()]
        })
    }
}

/// The number `text` reads as, the way a `usize` is read from text: an optional `+`, then at
/// least one digit, coming to no more than a `usize` holds.
pub open spec fn usize_of_text(text: Seq<char>) -> Option<nat> {
    let digits = if text.len() > 0 && text[0] == '+' {
        text.subrange(1, text.len() as int)
    } else {
        text
    };
    usize_of_digits(digits)
}

/// The number the decimal digits `digits` come to, where there is at least one and they come to
/// no more than a `usize` holds.
pub open spec fn usize_of_digits(digits: Seq<char>) -> Option<nat> {
    if digits.len() > 0 && all_digits(digits) && digits_number(digits) <= usize::MAX {
        Some(digits_number(digits))
    } else {
        None
    }
}

/// The number `tokens` are written as: the texts of their literals and identifiers put together
/// without spaces and read as a `usize`, or twelve where that does not read.
pub open spec fn count_of(tokens: Seq<TokenView>) -> nat {
    match usize_of_text(without_spaces(tokens_text(tokens))) {
        Some(n) => n,
        None => 12,
    }
}

/// The range a repetition's input names, and where its template starts: `start ..= end =>`,
/// `start .. end =>` (up to but not including `end`), or `count =>` (from one to `count`).
///
/// Without `=>`, the range is one to twelve and the template is the whole input; an exclusive
/// range that is empty is one to twelve as well.
pub open spec fn range_of(tokens: Seq<TokenView>) -> (nat, nat, nat) {
    match pair_at(tokens, '=', '>', 0) {
        None => (1, 12, 0),
        Some(arrow) => {
            let before = tokens.take(arrow);
            let body_start = (arrow + 2) as nat;
            match pair_at(before, '.', '.', 0) {
                Some(dots) => {
                    let start = count_of(before.take(dots));
                    let after = before.skip(dots + 2);
                    if after.len() > 0 && is_punct(after[0], '=') {
                        (start, count_of(after.skip(1)), body_start)
                    } else {
                        let end = count_of(after);
                        if end > start {
                            (start, (end - 1) as nat, body_start)
                        } else {
                            (1, 12, body_start)
                        }
                    }
                },
                None => (1, count_of(before), body_start),
            }
        },
    }
}

/// `without_spaces` of two texts put together is the two put together.
pub proof fn lemma_without_spaces_add(a: Seq<char>, b: Seq<char>)
    ensures
        without_spaces(a + b) == without_spaces(a) + without_spaces(b),
    decreases b.len(),
{
    if b.len() == 0 {
        assert(a + b =~= a);
        assert(without_spaces(a) + without_spaces(b) =~= without_spaces(a));
    } else {
        lemma_without_spaces_add(a, b.drop_last());
        assert((a + b).drop_last() =~= a + b.drop_last());
        assert((a + b).last() == b.last());
        let tail = if b.last() == ' ' {
            Seq::<char>::empty()
        } else {
            seq![b.last()]
        };
        assert(without_spaces(a) + without_spaces(b.drop_last()) + tail =~= without_spaces(a) + (
        without_spaces(b.drop_last()) + tail));
    }
}

/// Where the first `a` followed by `b` stands in `tokens`, at or after `from`.
fn find_pair(tokens: &Vec<Token>, to: usize, a: char, b: char, from: usize) -> (at: Option<usize>)
    requires
        from <= to <= tokens.len(),
    ensures
        match at {
            Some(p) => pair_at(trees(tokens@).take(to as int), a, b, from as int) == Some(p as int)
                && p + 1 < to,
            None => pair_at(trees(tokens@).take(to as int), a, b, from as int) is None,
        },
    decreases to - from,
{
    proof {
        lemma_trees(tokens@);
    }
    let ghost part = trees(tokens@).take(to as int);
    if from >= to || to - from < 2 {
        return None;
    }
    assert(part[from as int] == tokens@[from as int].tree());
    assert(part[from + 1] == tokens@[from + 1].tree());
    if punct_is(&tokens[from], a) && punct_is(&tokens[from + 1], b) {
        Some(from)
    } else {
        find_pair(tokens, to, a, b, from + 1)
    }
}

/// The number `text` reads as, the way a `usize` is read from text.
pub fn read_usize(text: &[char]) -> (number: Option<usize>)
    ensures
        match number {
            Some(n) => usize_of_text(text@) == Some(n as nat),
            None => usize_of_text(text@) is None,
        },
{
    let start: usize = if text.len() > 0 && text[0] == '+' {
        1
    } else {
        0
    };
    let ghost digits = text@.subrange(start as int, text@.len() as int);
    assert(start == 0 ==> digits =~= text@);
    assert(usize_of_text(text@) == usize_of_digits(digits));
    if text.len() <= start {
        return None;
    }
    let mut value: usize = 0;
    let mut i: usize = start;
    assert(text@.subrange(start as int, start as int) =~= Seq::<char>::empty());
    while i < text.len()
        invariant
            start <= i <= text@.len(),
            digits == text@.subrange(start as int, text@.len() as int),
            usize_of_text(text@) == usize_of_digits(digits),
            forall|k: int| start <= k < i ==> '0' <= #[trigger] text@[k] <= '9',
            value == digits_number(text@.subrange(start as int, i as int)),
        decreases text.len() - i,
    {
        let c = text[i];
        if !('0' <= c && c <= '9') {
            assert(!all_digits(digits)) by {
                assert(digits[i - start] == text@[i as int]);
            }
            return None;
        }
        assert(text@.subrange(start as int, i + 1).drop_last() =~= text@.subrange(
            start as int,
            i as int,
        ));
        let digit = ((c as u32) - 48) as usize;
        let next = match value.checked_mul(10) {
            Some(tens) => tens.checked_add(digit),
            None => None,
        };
        match next {
            Some(next) => {
                value = next;
            },
            None => {
                proof {
                    if all_digits(digits) {
                        lemma_digits_number_grows(digits, i + 1 - start);
                        assert(digits.take(i + 1 - start) =~= text@.subrange(start as int, i + 1));
                    }
                }
                return None;
            },
        }
        i = i + 1;
    }
    assert(text@.subrange(start as int, i as int) =~= digits);
    Some(value)
}

/// The number the tokens of `tokens` from `from` up to `to` are written as: their literals'
/// and identifiers' texts put together without spaces and read as a `usize`, or twelve where
/// that does not read.
pub fn parse_usize_tokens(tokens: &Vec<Token>, from: usize, to: usize) -> (count: usize)
    requires
        from <= to <= tokens.len(),
    ensures
        count as nat == count_of(trees(tokens@).subrange(from as int, to as int)),
{
    proof {
        lemma_trees(tokens@);
    }
    let ghost part = trees(tokens@).subrange(from as int, to as int);
    let mut chars: Vec<char> = Vec::new();
    let mut k: usize = from;
    assert(part.take(0) =~= Seq::<TokenView>::empty());
    while k < to
        invariant
            from <= k <= to <= tokens.len(),
            part == trees(tokens@).subrange(from as int, to as int),
            forall|i: int| 0 <= i < tokens@.len() ==> #[trigger] trees(tokens@)[i] == tokens@[i].tree(),
            trees(tokens@).len() == tokens@.len(),
            chars@ == without_spaces(tokens_text(part.take(k - from))),
        decreases to - k,
    {
        assert(part.take(k + 1 - from).drop_last() =~= part.take(k - from));
        assert(part.take(k + 1 - from).last() == tokens@[k as int].tree());
        let text: Vec<char> = match &tokens[k] {
            Token::Literal(text) => chars_of(text.as_str()),
            Token::Ident(name) => chars_of(name.as_str()),
            _ => Vec::new(),
        };
        assert(text@ == token_text(tokens@[k as int].tree()));
        let ghost base = chars@;
        let mut j: usize = 0;
        assert(text@.take(0) =~= Seq::<char>::empty());
        assert(base + without_spaces(Seq::<char>::empty()) =~= base);
        while j < text.len()
            invariant
                j <= text@.len(),
                chars@ == base + without_spaces(text@.take(j as int)),
            decreases text.len() - j,
        {
            assert(text@.take(j + 1).drop_last() =~= text@.take(j as int));
            if text[j] != ' ' {
                chars.push(text[j]);
            }
            j = j + 1;
            assert(chars@ =~= base + without_spaces(text@.take(j as int)));
        }
        assert(text@.take(j as int) =~= text@);
        proof {
            lemma_without_spaces_add(tokens_text(part.take(k - from)), token_text(tokens@[k as int].tree()));
        }
        k = k + 1;
    }
    assert(part.take(to - from) =~= part);
    match read_usize(chars.as_slice()) {
        Some(n) => n,
        None => 12,
    }
}

/// The range `tokens` names and where its template starts: the first of the three is the
/// range's start, the second its end, counted in, the third where the template starts.
pub fn parse_range(tokens: &Vec<Token>) -> (range: (usize, usize, usize))
    ensures
        (range.0 as nat, range.1 as nat, range.2 as nat) == range_of(trees(tokens@)),
        range.2 <= tokens.len(),
{
    proof {
        lemma_trees(tokens@);
    }
    let ghost all = trees(tokens@);
    assert(all.take(tokens.len() as int) =~= all);
    let arrow = match find_pair(tokens, tokens.len(), '=', '>', 0) {
        Some(arrow) => arrow,
        None => {
            return (1, 12, 0);
        },
    };
    let body_start = arrow + 2;
    let ghost before = all.take(arrow as int);
    assert(trees(tokens@).take(arrow as int) == before);
    match find_pair(tokens, arrow, '.', '.', 0) {
        Some(dots) => {
            assert(before.take(dots as int) =~= all.subrange(0, dots as int));
            let start = parse_usize_tokens(tokens, 0, dots);
            let ghost after = before.skip(dots + 2);
            assert(after =~= all.subrange(dots + 2, arrow as int));
            let inclusive = dots + 2 < arrow && punct_is(&tokens[dots + 2], '=');
            assert(dots + 2 < arrow ==> after[0] == tokens@[dots + 2].tree());
            if inclusive {
                assert(after.skip(1) =~= all.subrange(dots + 3, arrow as int));
                let end = parse_usize_tokens(tokens, dots + 3, arrow);
                (start, end, body_start)
            } else {
                let end = parse_usize_tokens(tokens, dots + 2, arrow);
                if end > start {
                    (start, end - 1, body_start)
                } else {
                    (1, 12, body_start)
                }
            }
        },
        None => {
            assert(before =~= all.subrange(0, arrow as int));
            (1, parse_usize_tokens(tokens, 0, arrow), body_start)
        },
    }
}

/// The template of a repetition's input: what follows the range, or what the braces around it
/// hold where it is one braced group.
pub open spec fn template(tokens: Seq<TokenView>) -> Seq<TokenView> {
    let body = tokens.skip(range_of(tokens).2 as int);
    if body.len() == 1 && body[0] is Group && body[0]->Group_0 == Delimiter::Brace {
        body[0]->Group_1
    } else {
        body
    }
}

/// The first `k` copies of `body`, the `n`th written for the number `start + n - 1` of the range
/// from `start` to `end`.
pub open spec fn copies(body: Seq<TokenView>, start: nat, end: nat, k: nat) -> Seq<TokenView>
    decreases k,
{
    if k == 0 {
        Seq::empty()
    } else {
        copies(body, start, end, (k - 1) as nat) + expansion(body, (start + k - 1) as nat, start, end)
    }
}

/// What a repetition's input expands to: its template once per number of its range, in order.
pub open spec fn repeated_template(tokens: Seq<TokenView>) -> Seq<TokenView> {
    let (start, end, _) = range_of(tokens);
    if end >= start {
        copies(template(tokens), start, end, (end + 1 - start) as nat)
    } else {
        Seq::empty()
    }
}

/// Writes the template of `input` once per number of its range, with its placeholders rewritten
/// for that number.
///
/// No number it writes may pass `usize::MAX`: the range's end stays under it by more than the
/// groups in the template are deep.
pub fn internal_repeat(input: Vec<Token>) -> (output: Vec<Token>)
    requires
        range_of(trees(input@)).1 + trees_depth(template(trees(input@))) < usize::MAX,
    ensures
        trees(output@) == repeated_template(trees(input@)),
{
    proof {
        lemma_trees(input@);
    }
    let ghost all = trees(input@);
    let (start, end, body_start) = parse_range(&input);
    let mut body = copy_range(&input, body_start, input.len());
    assert(all.subrange(body_start as int, input@.len() as int) =~= all.skip(body_start as int));
    let ghost raw = trees(body@);
    proof {
        lemma_trees(body@);
    }
    if body.len() == 1 {
        assert(raw[0] == body@[0].tree());
        let inner = match &body[0] {
            Token::Group(Delimiter::Brace, inner) => {
                proof {
                    lemma_trees(inner@);
                }
                let copy = copy_range(inner, 0, inner.len());
                assert(trees(inner@).subrange(0, inner@.len() as int) =~= trees(inner@));
                assert(trees(copy@) == template(all));
                Some(copy)
            },
            _ => {
                assert(!(raw[0] is Group && raw[0]->Group_0 == Delimiter::Brace));
                None
            },
        };
        match inner {
            Some(inner) => {
                body = inner;
            },
            None => {},
        }
    }
    let ghost body_trees = trees(body@);
    assert(body_trees == template(all));
    let mut output: Vec<Token> = Vec::new();
    if end < start {
        assert(trees(output@) =~= Seq::<TokenView>::empty());
        return output;
    }
    let mut i: usize = start;
    assert(trees(output@) =~= Seq::<TokenView>::empty());
    while i <= end
        invariant
            start <= i <= end + 1,
            end + trees_depth(body_trees) < usize::MAX,
            body_trees == trees(body@),
            trees(output@) == copies(body_trees, start as nat, end as nat, (i - start) as nat),
        decreases end + 1 - i,
    {
        let mut copy = expand_body(&body, i, start, end);
        proof {
            lemma_trees_add(output@, copy@);
        }
        output.append(&mut copy);
        assert(trees(output@) =~= copies(
            body_trees,
            start as nat,
            end as nat,
            (i + 1 - start) as nat,
        ));
        i = i + 1;
    }
    output
}

/// Whether `tree` holds nothing to rewrite: no `$`, and no group that repeats, at any depth.
pub open spec fn plain_tree(tree: TokenView) -> bool
    decreases tree,
{
    match tree {
        TokenView::Punct(c, _) => c != '$',
        TokenView::Group(_, inner) => !is_repetition(tree) && plain_trees(inner),
        _ => true,
    }
}

/// Whether `list` holds nothing to rewrite.
pub open spec fn plain_trees(list: Seq<TokenView>) -> bool
    decreases list,
{
    if list.len() == 0 {
        true
    } else {
        plain_tree(list[0]) && plain_trees(list.drop_first())
    }
}

/// A list with nothing to rewrite has nothing to rewrite in any of its tokens.
proof fn lemma_plain_each(list: Seq<TokenView>)
    requires
        plain_trees(list),
    ensures
        forall|i: int| 0 <= i < list.len() ==> #[trigger] plain_tree(list[i]),
    decreases list.len(),
{
    if list.len() > 0 {
        lemma_plain_each(list.drop_first());
        assert forall|i: int| 0 <= i < list.len() implies #[trigger] plain_tree(list[i]) by {
            if i > 0 {
                assert(list.drop_first()[i - 1] == list[i]);
            }
        }
    }
}

/// `tokens` from `i` on, where they hold nothing to rewrite, come out as they went in.
proof fn lemma_plain_from(tokens: Seq<TokenView>, i: int, current: nat, min: nat, max: nat)
    requires
        plain_trees(tokens),
        0 <= i <= tokens.len(),
    ensures
        expansion_from(tokens, i, current, min, max) == tokens.skip(i),
    decreases trees_size(tokens), tokens.len() - i,
{
    if i == tokens.len() {
        assert(tokens.skip(i) =~= Seq::<TokenView>::empty());
    } else {
        lemma_plain_each(tokens);
        let t = tokens[i];
        assert(plain_tree(t));
        assert(!is_repetition(t));
        lemma_plain_from(tokens, i + 1, current, min, max);
        match t {
            TokenView::Group(delimiter, inner) => {
                lemma_trees_part(tokens, i, i + 1);
                lemma_plain_from(inner, 0, current, min, max);
                assert(inner.skip(0) =~= inner);
            },
            _ => {
                if i + 1 < tokens.len() {
                    assert(plain_tree(tokens[i + 1]));
                }
                assert(rewritten(tokens, i, current, min, max) == (t, 1int));
            },
        }
        assert(tokens.skip(i) =~= seq![t] + tokens.skip(i + 1));
    }
}

/// A template with nothing to rewrite in it, no `$` and no group that repeats, comes out as it
/// went in, whatever number it is written for.
pub proof fn lemma_plain_template_unchanged(tokens: Seq<TokenView>, current: nat, min: nat, max: nat)
    requires
        plain_trees(tokens),
    ensures
        expansion(tokens, current, min, max) == tokens,
{
    lemma_plain_from(tokens, 0, current, min, max);
    assert(tokens.skip(0) =~= tokens);
}

} // verus!
