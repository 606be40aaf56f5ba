//! Comment removal and line-by-line tokenizing of ink source text.

use vstd::prelude::*;
use crate::text::{
    lemma_trim_keeps_first, lemma_trim_start_rest_trimmed, lemma_trim_end_prefix, lemma_trim_start_suffix, lemma_trim_trimmed, trimmed, is_ws, find_char_at as find_char,
    starts_with, trim, trim_at, chars_of, string_of_range, trim_start_at,
    append_range, find, find_char_at, lemma_find_from, matches_at, find_pair_at, lemma_trim_len, trim_end, trim_end_at,
    trim_start,
};

verus! {

/// One token of ink source text. Every text in a token borrows from the text
/// that was lexed, and has no whitespace at either end. The flag beside
/// dialog and choice text is `true` when no divert follows on the same line.
#[derive(Debug, PartialEq, Eq, Clone, Copy)]
pub enum InkToken<'a> {
    Dialog((&'a str, bool)),
    KnotTitle(&'a str),
    StitchTitle(&'a str),
    Choice((&'a str, bool)),
    StickyChoice((&'a str, bool)),
    Divert(&'a str),
    VariableDeclaration(&'a str),
    Operation(&'a str),
    Tag(&'a str),
}

/// The mathematical value of an [`InkToken`]: its texts as character sequences.
pub enum Token {
    Dialog(Seq<char>, bool),
    KnotTitle(Seq<char>),
    StitchTitle(Seq<char>),
    Choice(Seq<char>, bool),
    StickyChoice(Seq<char>, bool),
    Divert(Seq<char>),
    VariableDeclaration(Seq<char>),
    Operation(Seq<char>),
    Tag(Seq<char>),
}

impl<'a> View for InkToken<'a> {
    type V = Token;

    open spec fn view(&self) -> Token {
        match *self {
            InkToken::Dialog((s, b)) => Token::Dialog(s@, b),
            InkToken::KnotTitle(s) => Token::KnotTitle(s@),
            InkToken::StitchTitle(s) => Token::StitchTitle(s@),
            InkToken::Choice((s, b)) => Token::Choice(s@, b),
            InkToken::StickyChoice((s, b)) => Token::StickyChoice(s@, b),
            InkToken::Divert(s) => Token::Divert(s@),
            InkToken::VariableDeclaration(s) => Token::VariableDeclaration(s@),
            InkToken::Operation(s) => Token::Operation(s@),
            InkToken::Tag(s) => Token::Tag(s@),
        }
    }
}

/// The values of a sequence of tokens.
pub open spec fn tokens_view<'a>(ts: Seq<InkToken<'a>>) -> Seq<Token> {
    ts.map_values(|t: InkToken<'a>| t@)
}

// ---------------------------------------------------------------------------
// Comments
// ---------------------------------------------------------------------------

/// `s` with every carriage return removed.
pub open spec fn without_cr(s: Seq<char>) -> Seq<char>
    decreases s.len(),
{
    if s.len() == 0 {
        s
    } else if s.last() == '\r' {
        without_cr(s.drop_last())
    } else {
        without_cr(s.drop_last()).push(s.last())
    }
}

/// What is left of `r` from its first line break on (nothing if it has none).
pub open spec fn from_line_end(r: Seq<char>) -> Seq<char> {
    match find(r, seq!['\n']) {
        Some(e) => if 0 <= e <= r.len() {
            r.skip(e)
        } else {
            Seq::empty()
        },
        None => Seq::empty(),
    }
}

/// `s` with every `//` comment removed: the text before a comment loses its
/// trailing whitespace, and the comment runs up to (not including) the end of
/// its line.
pub open spec fn strip_line_comments(s: Seq<char>) -> Seq<char>
    decreases s.len(),
{
    match find(s, seq!['/', '/']) {
        Some(ci) => if 0 <= ci && ci + 2 <= s.len() {
            trim_end(s.take(ci)) + strip_line_comments(from_line_end(s.skip(ci + 2)))
        } else {
            s
        },
        None => s,
    }
}

/// `s` with every `/* .. */` comment removed: the text before a comment loses
/// its trailing whitespace and the text after it its leading whitespace.
/// The closing `*/` is searched from the third character after the `/*` on,
/// and that character must be a one-byte one. `None` where the text breaks
/// these rules (an unclosed comment, or one that ends the text).
pub open spec fn strip_block_comments(s: Seq<char>) -> Option<Seq<char>>
    decreases s.len(),
{
    match find(s, seq!['/', '*']) {
        None => Some(s),
        Some(ci) => if 0 <= ci && ci + 3 <= s.len() && (s[ci + 2] as u32) < 0x80 {
            let rest = s.skip(ci + 3);
            match find(rest, seq!['*', '/']) {
                Some(e) => if 0 <= e && e + 2 <= rest.len() {
                    proof {
                        lemma_trim_len(rest.skip(e + 2));
                    }
                    match strip_block_comments(trim_start(rest.skip(e + 2))) {
                        Some(t) => Some(trim_end(s.take(ci)) + t),
                        None => None,
                    }
                } else {
                    None
                },
                None => None,
            }
        } else {
            None
        },
    }
}

/// The text that `strip_comments` gives back for `s`, if it accepts `s`.
pub open spec fn spec_strip_comments(s: Seq<char>) -> Option<Seq<char>> {
    strip_block_comments(strip_line_comments(without_cr(s)))
}

/// Removes carriage returns.
fn strip_backslash_r(v: &Vec<char>) -> (r: Vec<char>)
    ensures
        r@ == without_cr(v@),
{
    let mut r: Vec<char> = Vec::new();
    let mut i: usize = 0;
    while i < v.len()
        invariant
            0 <= i <= v.len(),
            r@ == without_cr(v@.take(i as int)),
        decreases v.len() - i,
    {
        assert(v@.take(i + 1).drop_last() == v@.take(i as int));
        if v[i] != '\r' {
            r.push(v[i]);
        }
        i = i + 1;
    }
    assert(v@.take(v.len() as int) == v@);
    r
}

/// Removes `//` comments.
fn strip_single_line_comment(v: &Vec<char>) -> (r: Vec<char>)
    ensures
        r@ == strip_line_comments(v@),
{
    let n = v.len();
    let mut r: Vec<char> = Vec::new();
    let mut pos: usize = 0;
    assert(v@.subrange(0, n as int) == v@);
    loop
        invariant
            0 <= pos <= n == v.len(),
            strip_line_comments(v@) == r@ + strip_line_comments(v@.subrange(pos as int, n as int)),
        decreases n - pos,
    {
        let ghost rem = v@.subrange(pos as int, n as int);
        match find_pair_at(v, pos, n, '/', '/') {
            Some(ci) => {
                let ghost r0 = r@;
                let te = trim_end_at(v, pos, ci);
                append_range(&mut r, v, pos, te);
                assert(rem.take(ci - pos) == v@.subrange(pos as int, ci as int));
                assert(rem.skip(ci - pos + 2) == v@.subrange(ci + 2, n as int));
                match find_char_at(v, ci + 2, n, '\n') {
                    Some(e) => {
                        assert(v@.subrange(ci + 2, n as int).skip(e - (ci + 2)) == v@.subrange(
                            e as int,
                            n as int,
                        ));
                        assert(from_line_end(rem.skip(ci - pos + 2)) == v@.subrange(e as int, n as int));
                        pos = e;
                    },
                    None => {
                        assert(v@.subrange(n as int, n as int) == Seq::<char>::empty());
                        assert(from_line_end(rem.skip(ci - pos + 2)) == v@.subrange(n as int, n as int));
                        pos = n;
                    },
                }
                assert(r0 + strip_line_comments(rem) == r@ + strip_line_comments(
                    v@.subrange(pos as int, n as int),
                ));
            },
            None => {
                append_range(&mut r, v, pos, n);
                return r;
            },
        }
    }
}

/// Removes `/* .. */` comments; `None` where `strip_block_comments` refuses
/// the text.
fn strip_multi_line_comment(v: &Vec<char>) -> (r: Option<Vec<char>>)
    ensures
        match r {
            Some(w) => strip_block_comments(v@) == Some(w@),
            None => strip_block_comments(v@) is None,
        },
{
    let n = v.len();
    let mut r: Vec<char> = Vec::new();
    let mut pos: usize = 0;
    assert(v@.subrange(0, n as int) == v@);
    loop
        invariant
            0 <= pos <= n == v.len(),
            strip_block_comments(v@) == match strip_block_comments(v@.subrange(pos as int, n as int)) {
                Some(t) => Some(r@ + t),
                None => None,
            },
        decreases n - pos,
    {
        let ghost rem = v@.subrange(pos as int, n as int);
        match find_pair_at(v, pos, n, '/', '*') {
            Some(ci) => {
                let ghost r0 = r@;
                if n - ci < 3 || (v[ci + 2] as u32) >= 0x80 {
                    return None;
                }
                let te = trim_end_at(v, pos, ci);
                append_range(&mut r, v, pos, te);
                assert(rem.take(ci - pos) == v@.subrange(pos as int, ci as int));
                assert(rem[ci - pos + 2] == v@[ci + 2]);
                let ghost rest = rem.skip(ci - pos + 3);
                assert(rest == v@.subrange(ci + 3, n as int));
                let e = match find_pair_at(v, ci + 3, n, '*', '/') {
                    Some(e) => e,
                    None => {
                        return None;
                    },
                };
                assert(rest.skip(e - (ci + 3) + 2) == v@.subrange(e + 2, n as int));
                let start = trim_start_at(v, e + 2, n);
                assert(strip_block_comments(rem) == match strip_block_comments(v@.subrange(start as int, n as int)) {
                    Some(t) => Some(r@.subrange(r0.len() as int, r@.len() as int) + t),
                    None => None,
                });
                assert forall|t: Seq<char>| r0 + (r@.subrange(r0.len() as int, r@.len() as int) + t) == r@ + t by {
                    assert(r0 + (r@.subrange(r0.len() as int, r@.len() as int) + t) =~= r@ + t);
                }
                pos = start;
            },
            None => {
                append_range(&mut r, v, pos, n);
                return Some(r);
            },
        }
    }
}

/// Removes the comments of ink source text: carriage returns go first, then
/// `//` comments up to the end of their line, then `/* .. */` comments.
/// Whitespace before a comment, and after a block comment, goes with it.
pub fn strip_comments(text: &str) -> (r: String)
    requires
        spec_strip_comments(text@) is Some,
    ensures
        r@ == spec_strip_comments(text@).unwrap(),
{
    try_strip_comments(text).unwrap()
}

/// Removes the comments of ink source text, as `strip_comments` does; `None`
/// for a text whose block comments break the rules of `strip_block_comments`.
pub fn try_strip_comments(text: &str) -> (r: Option<String>)
    ensures
        match r {
            Some(t) => spec_strip_comments(text@) == Some(t@),
            None => spec_strip_comments(text@) is None,
        },
{
    let v = chars_of(text);
    let a = strip_backslash_r(&v);
    let b = strip_single_line_comment(&a);
    match strip_multi_line_comment(&b) {
        Some(c) => Some(string_of_range(&c, 0, c.len())),
        None => None,
    }
}


// ---------------------------------------------------------------------------
// Tokens
// ---------------------------------------------------------------------------

/// `s` cut at the first occurrence of `p`: what comes before it and what
/// comes after it.
pub open spec fn cut_at(s: Seq<char>, p: Seq<char>) -> Option<(Seq<char>, Seq<char>)> {
    match find(s, p) {
        Some(i) => if 0 <= i && i + p.len() <= s.len() {
            Some((s.take(i), s.skip(i + p.len())))
        } else {
            None
        },
        None => None,
    }
}

/// A tag token for one piece of a `#`-separated list; with `skip_empty`,
/// a piece with no characters at all gives no token.
pub open spec fn tag_piece(seg: Seq<char>, skip_empty: bool) -> Seq<Token> {
    if skip_empty && seg.len() == 0 {
        Seq::empty()
    } else {
        seq![Token::Tag(trim(seg))]
    }
}

/// The tags of `s` split at every `#`.
pub open spec fn hash_tags(s: Seq<char>, skip_empty: bool) -> Seq<Token>
    decreases s.len(),
{
    match cut_at(s, seq!['#']) {
        Some((a, b)) => tag_piece(a, skip_empty) + hash_tags(b, skip_empty),
        None => tag_piece(s, skip_empty),
    }
}

/// The tags at the end of a line (after its first `#`) and the trimmed rest.
pub open spec fn line_tags(line: Seq<char>) -> (Seq<Token>, Seq<char>) {
    match cut_at(line, seq!['#']) {
        Some((a, b)) => (hash_tags(b, false), trim(a)),
        None => (Seq::empty(), line),
    }
}

/// The divert at the end of a line (after its first `->`) and the trimmed rest.
pub open spec fn line_divert(line: Seq<char>) -> (Option<Seq<char>>, Seq<char>) {
    match cut_at(line, seq!['-', '>']) {
        Some((a, b)) => (Some(trim(b)), trim(a)),
        None => (None, line),
    }
}

/// The tokens of a dialog line: its tags, its text, then its divert.
pub open spec fn dialog_tokens(line: Seq<char>) -> Seq<Token> {
    let (tags, l1) = line_tags(line);
    let (divert, l2) = line_divert(l1);
    tags + seq![Token::Dialog(trim(l2), divert is None)] + match divert {
        Some(d) => seq![Token::Divert(d)],
        None => Seq::empty(),
    }
}

/// The tokens of a choice line (which starts with `*` or `+`): the choice,
/// its tags, then its divert when that is not empty. A choice without text
/// (a fallback) is always sticky.
pub open spec fn choice_tokens(line: Seq<char>, sticky: bool) -> Seq<Token> {
    let (tags, l1) = line_tags(line);
    let (divert, l2) = line_divert(l1);
    let text = trim(l2.skip(1));
    let newline = divert is None;
    let choice = if sticky || text.len() == 0 {
        Token::StickyChoice(text, newline)
    } else {
        Token::Choice(text, newline)
    };
    seq![choice] + tags + match divert {
        Some(d) => if d.len() > 0 {
            seq![Token::Divert(d)]
        } else {
            Seq::empty()
        },
        None => Seq::empty(),
    }
}

/// The number of `=` at the start of `s`.
pub open spec fn leading_equals(s: Seq<char>) -> nat
    decreases s.len(),
{
    if s.len() > 0 && s[0] == '=' {
        1 + leading_equals(s.drop_first())
    } else {
        0
    }
}

/// The number of `=` at the end of `s`.
pub open spec fn trailing_equals(s: Seq<char>) -> nat
    decreases s.len(),
{
    if s.len() > 0 && s.last() == '=' {
        1 + trailing_equals(s.drop_last())
    } else {
        0
    }
}

/// The title of a `=` line: what is between its leading and trailing `=`s.
pub open spec fn title_of(line: Seq<char>) -> Seq<char> {
    trim(line.subrange(leading_equals(line) as int, line.len() - trailing_equals(line)))
}

/// A line that `lex` accepts: one that starts with `=` must hold another
/// character, and the last such character must take one byte.
pub open spec fn line_lexable(raw: Seq<char>) -> bool {
    let line = trim(raw);
    line.len() > 0 && line[0] == '=' ==> {
        &&& leading_equals(line) < line.len()
        &&& (line[line.len() - trailing_equals(line) - 1] as u32) < 0x80
    }
}

/// The tokens of one line.
pub open spec fn lex_line(raw: Seq<char>) -> Seq<Token> {
    let line = trim(raw);
    if line.len() == 0 {
        Seq::empty()
    } else if line[0] == '=' {
        if leading_equals(line) == 1 {
            seq![Token::StitchTitle(title_of(line))]
        } else {
            seq![Token::KnotTitle(title_of(line))]
        }
    } else if starts_with(line, seq!['-', '>']) {
        seq![Token::Divert(trim_start(line.skip(2)))]
    } else if line[0] == '*' {
        choice_tokens(line, false)
    } else if line[0] == '+' {
        choice_tokens(line, true)
    } else if line[0] == '#' {
        hash_tags(line, true)
    } else if starts_with(line, seq!['V', 'A', 'R', ' ']) {
        seq![Token::VariableDeclaration(trim_start(line.skip(4)))]
    } else if line[0] == '~' {
        seq![Token::Operation(trim_start(line.skip(1)))]
    } else {
        dialog_tokens(line)
    }
}

/// Every line of `s` is one that `lex` accepts.
pub open spec fn lexable(s: Seq<char>) -> bool
    decreases s.len(),
{
    match cut_at(s, seq!['\n']) {
        Some((a, b)) => line_lexable(a) && lexable(b),
        None => line_lexable(s),
    }
}

/// The tokens of `s`, line by line.
pub open spec fn spec_lex(s: Seq<char>) -> Seq<Token>
    decreases s.len(),
{
    match cut_at(s, seq!['\n']) {
        Some((a, b)) => lex_line(a) + spec_lex(b),
        None => lex_line(s),
    }
}


/// A choice that is not sticky and has no text.
pub open spec fn is_plain_fallback(t: Token) -> bool {
    match t {
        Token::Choice(s, _) => s.len() == 0,
        _ => false,
    }
}

/// No token is a plain (not sticky) choice without text.
pub open spec fn fallbacks_sticky(ts: Seq<Token>) -> bool {
    forall|k: int| 0 <= k < ts.len() ==> !is_plain_fallback(#[trigger] ts[k])
}

proof fn lemma_fallbacks_sticky_concat(a: Seq<Token>, b: Seq<Token>)
    requires
        fallbacks_sticky(a),
        fallbacks_sticky(b),
    ensures
        fallbacks_sticky(a + b),
{
    assert forall|k: int| 0 <= k < (a + b).len() implies !is_plain_fallback(#[trigger] (a + b)[k]) by {
        if k < a.len() {
            assert((a + b)[k] == a[k]);
        } else {
            assert((a + b)[k] == b[k - a.len()]);
        }
    }
}

proof fn lemma_hash_tags_fallbacks(s: Seq<char>, skip_empty: bool)
    ensures
        fallbacks_sticky(hash_tags(s, skip_empty)),
    decreases s.len(),
{
    match cut_at(s, seq!['#']) {
        Some((a, b)) => {
            lemma_hash_tags_fallbacks(b, skip_empty);
            lemma_fallbacks_sticky_concat(tag_piece(a, skip_empty), hash_tags(b, skip_empty));
        },
        None => {},
    }
}

proof fn lemma_lex_line_fallbacks(raw: Seq<char>)
    ensures
        fallbacks_sticky(lex_line(raw)),
{
    let line = trim(raw);
    if line.len() > 0 && line[0] != '=' && !starts_with(line, seq!['-', '>']) {
        if line[0] == '*' || line[0] == '+' {
            let (tags, l1) = line_tags(line);
            lemma_hash_tags_fallbacks(tags_source(line), false);
            let sticky = line[0] == '+';
            let (divert, l2) = line_divert(l1);
            let tail: Seq<Token> = match divert {
                Some(d) => if d.len() > 0 {
                    seq![Token::Divert(d)]
                } else {
                    Seq::empty()
                },
                None => Seq::empty(),
            };
            let rest = tags + tail;
            lemma_fallbacks_sticky_concat(tags, tail);
            let text = trim(l2.skip(1));
            let choice = if sticky || text.len() == 0 {
                Token::StickyChoice(text, divert is None)
            } else {
                Token::Choice(text, divert is None)
            };
            lemma_fallbacks_sticky_concat(seq![choice], rest);
            assert(choice_tokens(line, sticky) == seq![choice] + rest);
        } else if line[0] == '#' {
            lemma_hash_tags_fallbacks(line, true);
        } else if !starts_with(line, seq!['V', 'A', 'R', ' ']) && line[0] != '~' {
            let (tags, l1) = line_tags(line);
            lemma_hash_tags_fallbacks(tags_source(line), false);
            let (divert, l2) = line_divert(l1);
            let mid = seq![Token::Dialog(trim(l2), divert is None)] + match divert {
                Some(d) => seq![Token::Divert(d)],
                None => Seq::empty(),
            };
            lemma_fallbacks_sticky_concat(tags, mid);
        }
    }
}

/// What follows the first `#` of a line, where it has one.
spec fn tags_source(line: Seq<char>) -> Seq<char> {
    match cut_at(line, seq!['#']) {
        Some((_, b)) => b,
        None => Seq::empty(),
    }
}

/// Fallbacks are always sticky: no token that `lex` gives is a plain choice
/// without text.
pub proof fn law_fallbacks_sticky(s: Seq<char>)
    ensures
        fallbacks_sticky(spec_lex(s)),
    decreases s.len(),
{
    match cut_at(s, seq!['\n']) {
        Some((a, b)) => {
            lemma_lex_line_fallbacks(a);
            law_fallbacks_sticky(b);
            lemma_fallbacks_sticky_concat(lex_line(a), spec_lex(b));
        },
        None => {
            lemma_lex_line_fallbacks(s);
        },
    }
}

/// The text that a token holds.
pub open spec fn token_text(t: Token) -> Seq<char> {
    match t {
        Token::Dialog(s, _) => s,
        Token::KnotTitle(s) => s,
        Token::StitchTitle(s) => s,
        Token::Choice(s, _) => s,
        Token::StickyChoice(s, _) => s,
        Token::Divert(s) => s,
        Token::VariableDeclaration(s) => s,
        Token::Operation(s) => s,
        Token::Tag(s) => s,
    }
}

/// The text of every token has no whitespace at either end.
pub open spec fn texts_trimmed(ts: Seq<Token>) -> bool {
    forall|k: int| 0 <= k < ts.len() ==> trimmed(token_text(#[trigger] ts[k]))
}

proof fn lemma_texts_trimmed_concat(a: Seq<Token>, b: Seq<Token>)
    requires
        texts_trimmed(a),
        texts_trimmed(b),
    ensures
        texts_trimmed(a + b),
{
    assert forall|k: int| 0 <= k < (a + b).len() implies trimmed(token_text(#[trigger] (a + b)[k])) by {
        if k < a.len() {
            assert((a + b)[k] == a[k]);
        } else {
            assert((a + b)[k] == b[k - a.len()]);
        }
    }
}

proof fn lemma_hash_tags_trimmed(s: Seq<char>, skip_empty: bool)
    ensures
        texts_trimmed(hash_tags(s, skip_empty)),
    decreases s.len(),
{
    match cut_at(s, seq!['#']) {
        Some((a, b)) => {
            lemma_trim_trimmed(a);
            lemma_hash_tags_trimmed(b, skip_empty);
            lemma_texts_trimmed_concat(tag_piece(a, skip_empty), hash_tags(b, skip_empty));
        },
        None => {
            lemma_trim_trimmed(s);
        },
    }
}

/// The tags of a line and its divert have trimmed texts.
proof fn lemma_line_parts_trimmed(line: Seq<char>)
    ensures
        texts_trimmed(line_tags(line).0),
        line_divert(line_tags(line).1).0 matches Some(d) ==> trimmed(d),
{
    match cut_at(line, seq!['#']) {
        Some((_, b)) => lemma_hash_tags_trimmed(b, false),
        None => {},
    }
    match cut_at(line_tags(line).1, seq!['-', '>']) {
        Some((_, b)) => lemma_trim_trimmed(b),
        None => {},
    }
}

proof fn lemma_lex_line_trimmed(raw: Seq<char>)
    ensures
        texts_trimmed(lex_line(raw)),
{
    let line = trim(raw);
    lemma_trim_trimmed(raw);
    if line.len() > 0 {
        if line[0] == '=' {
            lemma_trim_trimmed(line.subrange(leading_equals(line) as int, line.len() - trailing_equals(line)));
        } else if starts_with(line, seq!['-', '>']) {
            lemma_trim_start_rest_trimmed(line, 2);
        } else if line[0] == '*' || line[0] == '+' {
            let sticky = line[0] == '+';
            let (tags, l1) = line_tags(line);
            let (divert, l2) = line_divert(l1);
            lemma_line_parts_trimmed(line);
            lemma_trim_trimmed(l2.skip(1));
            let tail: Seq<Token> = match divert {
                Some(d) => if d.len() > 0 {
                    seq![Token::Divert(d)]
                } else {
                    Seq::empty()
                },
                None => Seq::empty(),
            };
            lemma_texts_trimmed_concat(tags, tail);
            let text = trim(l2.skip(1));
            let choice = if sticky || text.len() == 0 {
                Token::StickyChoice(text, divert is None)
            } else {
                Token::Choice(text, divert is None)
            };
            assert(texts_trimmed(seq![choice]));
            lemma_texts_trimmed_concat(seq![choice], tags + tail);
            assert(choice_tokens(line, sticky) == seq![choice] + (tags + tail));
        } else if line[0] == '#' {
            lemma_hash_tags_trimmed(line, true);
        } else if starts_with(line, seq!['V', 'A', 'R', ' ']) {
            lemma_trim_start_rest_trimmed(line, 4);
        } else if line[0] == '~' {
            lemma_trim_start_rest_trimmed(line, 1);
        } else {
            let (tags, l1) = line_tags(line);
            let (divert, l2) = line_divert(l1);
            lemma_line_parts_trimmed(line);
            lemma_trim_trimmed(l2);
            let mid: Seq<Token> = seq![Token::Dialog(trim(l2), divert is None)] + match divert {
                Some(d) => seq![Token::Divert(d)],
                None => Seq::empty(),
            };
            assert(texts_trimmed(mid));
            lemma_texts_trimmed_concat(tags, mid);
        }
    }
}

/// Every text that `lex` puts in a token has no whitespace at either end.
pub proof fn law_token_texts_trimmed(s: Seq<char>)
    ensures
        texts_trimmed(spec_lex(s)),
    decreases s.len(),
{
    match cut_at(s, seq!['\n']) {
        Some((a, b)) => {
            lemma_lex_line_trimmed(a);
            law_token_texts_trimmed(b);
            lemma_texts_trimmed_concat(lex_line(a), spec_lex(b));
        },
        None => {
            lemma_lex_line_trimmed(s);
        },
    }
}

/// The first line break of a text is where `find` puts it.
proof fn lemma_find_newline(s: Seq<char>, k: int)
    requires
        0 <= k < s.len(),
        s[k] == '\n',
        forall|j: int| 0 <= j < k ==> s[j] != '\n',
    ensures
        find(s, seq!['\n']) == Some(k),
{
    let p = seq!['\n'];
    assert(s.subrange(k, k + 1) =~= p);
    lemma_find_from(s, p, 0);
    match find(s, p) {
        Some(m) => {
            if m < k {
                assert(s.subrange(m, m + 1)[0] == s[m]);
            } else if m > k {
                assert(matches_at(s, p, k));
            }
        },
        None => {
            assert(matches_at(s, p, k));
        },
    }
}

/// Where `find` puts the first line break of a text.
proof fn lemma_newline_found(s: Seq<char>)
    ensures
        find(s, seq!['\n']) matches Some(k) ==> 0 <= k < s.len() && s[k] == '\n' && forall|j: int| 0 <= j < k ==> s[j] != '\n',
        find(s, seq!['\n']) is None ==> forall|j: int| 0 <= j < s.len() ==> s[j] != '\n',
{
    let p = seq!['\n'];
    lemma_find_from(s, p, 0);
    match find(s, p) {
        Some(k) => {
            assert(s.subrange(k, k + 1)[0] == s[k]);
            assert forall|j: int| 0 <= j < k implies s[j] != '\n' by {
                if s[j] == '\n' {
                    assert(s.subrange(j, j + 1) =~= p);
                    assert(matches_at(s, p, j));
                }
            }
        },
        None => {
            assert forall|j: int| 0 <= j < s.len() implies s[j] != '\n' by {
                if s[j] == '\n' {
                    assert(s.subrange(j, j + 1) =~= p);
                    assert(matches_at(s, p, j));
                }
            }
        },
    }
}

/// Each line is lexed on its own: the tokens of two texts joined by a line
/// break are the tokens of the first followed by those of the second, and
/// the joined text is accepted exactly when both are.
pub proof fn law_lex_lines_apart(a: Seq<char>, b: Seq<char>)
    ensures
        spec_lex(a + seq!['\n'] + b) == spec_lex(a) + spec_lex(b),
        lexable(a + seq!['\n'] + b) == (lexable(a) && lexable(b)),
    decreases a.len(),
{
    let t = a + seq!['\n'] + b;
    lemma_newline_found(a);
    match find(a, seq!['\n']) {
        Some(k) => {
            assert forall|j: int| 0 <= j < k implies t[j] != '\n' by {
                assert(t[j] == a[j]);
            }
            assert(t[k] == a[k]);
            lemma_find_newline(t, k);
            let a2 = a.skip(k + 1);
            assert(t.take(k) =~= a.take(k));
            assert(t.skip(k + 1) =~= a2 + seq!['\n'] + b);
            law_lex_lines_apart(a2, b);
            assert(spec_lex(t) == lex_line(a.take(k)) + spec_lex(a2 + seq!['\n'] + b));
            assert(spec_lex(a) == lex_line(a.take(k)) + spec_lex(a2));
            assert(lex_line(a.take(k)) + (spec_lex(a2) + spec_lex(b)) =~= (lex_line(a.take(k)) + spec_lex(a2)) + spec_lex(b));
        },
        None => {
            assert forall|j: int| 0 <= j < a.len() implies t[j] != '\n' by {
                assert(t[j] == a[j]);
            }
            assert(t[a.len() as int] == '\n');
            lemma_find_newline(t, a.len() as int);
            assert(t.take(a.len() as int) =~= a);
            assert(t.skip(a.len() + 1int) =~= b);
        },
    }
}

/// A text that is all whitespace trims to nothing.
proof fn lemma_blank_trims_empty(s: Seq<char>)
    requires
        forall|j: int| 0 <= j < s.len() ==> is_ws(#[trigger] s[j]),
    ensures
        trim(s).len() == 0,
    decreases s.len(),
{
    if s.len() > 0 {
        assert forall|j: int| 0 <= j < s.drop_first().len() implies is_ws(#[trigger] s.drop_first()[j]) by {
            assert(s.drop_first()[j] == s[j + 1]);
        }
        lemma_blank_trims_empty(s.drop_first());
        assert(trim_start(s) == trim_start(s.drop_first()));
    }
}

/// Blank text (whitespace and line breaks only) gives no tokens, and is
/// accepted.
pub proof fn law_blank_text_no_tokens(s: Seq<char>)
    requires
        forall|j: int| 0 <= j < s.len() ==> is_ws(#[trigger] s[j]),
    ensures
        spec_lex(s) == Seq::<Token>::empty(),
        lexable(s),
    decreases s.len(),
{
    lemma_newline_found(s);
    match find(s, seq!['\n']) {
        Some(k) => {
            let x = s.take(k);
            let y = s.skip(k + 1);
            assert forall|j: int| 0 <= j < x.len() implies is_ws(#[trigger] x[j]) by {
                assert(x[j] == s[j]);
            }
            assert forall|j: int| 0 <= j < y.len() implies is_ws(#[trigger] y[j]) by {
                assert(y[j] == s[j + k + 1]);
            }
            lemma_blank_trims_empty(x);
            law_blank_text_no_tokens(y);
            assert(lex_line(x) + spec_lex(y) =~= Seq::<Token>::empty());
        },
        None => {
            lemma_blank_trims_empty(s);
        },
    }
}

/// `s` holds no character `c`.
pub open spec fn lacks(s: Seq<char>, c: char) -> bool {
    forall|j: int| 0 <= j < s.len() ==> #[trigger] s[j] != c
}

/// Where `find` puts the first `c` of a text.
proof fn lemma_char_found(s: Seq<char>, c: char)
    ensures
        find(s, seq![c]) matches Some(k) ==> 0 <= k < s.len() && s[k] == c && lacks(s.take(k), c),
        find(s, seq![c]) is None ==> lacks(s, c),
{
    let p = seq![c];
    lemma_find_from(s, p, 0);
    match find(s, p) {
        Some(k) => {
            assert(s.subrange(k, k + 1)[0] == s[k]);
            assert forall|j: int| 0 <= j < s.take(k).len() implies #[trigger] s.take(k)[j] != c by {
                if s[j] == c {
                    assert(s.subrange(j, j + 1) =~= p);
                    assert(matches_at(s, p, j));
                }
            }
        },
        None => {
            assert forall|j: int| 0 <= j < s.len() implies #[trigger] s[j] != c by {
                if s[j] == c {
                    assert(s.subrange(j, j + 1) =~= p);
                    assert(matches_at(s, p, j));
                }
            }
        },
    }
}

proof fn lemma_lacks_subrange(s: Seq<char>, c: char, lo: int, hi: int)
    requires
        lacks(s, c),
        0 <= lo <= hi <= s.len(),
    ensures
        lacks(s.subrange(lo, hi), c),
{
    assert forall|j: int| 0 <= j < s.subrange(lo, hi).len() implies #[trigger] s.subrange(lo, hi)[j] != c by {
        assert(s.subrange(lo, hi)[j] == s[lo + j]);
    }
}

proof fn lemma_lacks_concat(a: Seq<char>, b: Seq<char>, c: char)
    requires
        lacks(a, c),
        lacks(b, c),
    ensures
        lacks(a + b, c),
{
    assert forall|j: int| 0 <= j < (a + b).len() implies #[trigger] (a + b)[j] != c by {
        if j < a.len() {
            assert((a + b)[j] == a[j]);
        } else {
            assert((a + b)[j] == b[j - a.len()]);
        }
    }
}

/// Trimming, and taking what follows some position, keep a missing character missing.
proof fn lemma_lacks_trims(s: Seq<char>, c: char)
    requires
        lacks(s, c),
    ensures
        lacks(trim_start(s), c),
        lacks(trim_end(s), c),
        lacks(trim(s), c),
{
    lemma_trim_start_suffix(s);
    lemma_lacks_subrange(s, c, s.len() - trim_start(s).len(), s.len() as int);
    lemma_trim_end_prefix(s);
    lemma_lacks_subrange(s, c, 0, trim_end(s).len() as int);
    lemma_trim_end_prefix(trim_start(s));
    lemma_lacks_subrange(trim_start(s), c, 0, trim(s).len() as int);
}

proof fn lemma_without_cr_lacks(s: Seq<char>)
    ensures
        lacks(without_cr(s), '\r'),
    decreases s.len(),
{
    if s.len() > 0 {
        lemma_without_cr_lacks(s.drop_last());
        if s.last() != '\r' {
            let w = without_cr(s.drop_last());
            assert forall|j: int| 0 <= j < w.push(s.last()).len() implies #[trigger] w.push(s.last())[j] != '\r' by {
                if j < w.len() {
                    assert(w.push(s.last())[j] == w[j]);
                }
            }
        }
    }
}

proof fn lemma_line_comments_lack(s: Seq<char>, c: char)
    requires
        lacks(s, c),
    ensures
        lacks(strip_line_comments(s), c),
    decreases s.len(),
{
    match find(s, seq!['/', '/']) {
        Some(ci) => if 0 <= ci && ci + 2 <= s.len() {
            lemma_lacks_subrange(s, c, 0, ci);
            assert(s.take(ci) == s.subrange(0, ci));
            lemma_lacks_trims(s.take(ci), c);
            let r = s.skip(ci + 2);
            lemma_lacks_subrange(s, c, ci + 2, s.len() as int);
            assert(r == s.subrange(ci + 2, s.len() as int));
            let f = from_line_end(r);
            match find(r, seq!['\n']) {
                Some(e) => if 0 <= e <= r.len() {
                    lemma_lacks_subrange(r, c, e, r.len() as int);
                    assert(f == r.subrange(e, r.len() as int));
                },
                None => {},
            }
            lemma_line_comments_lack(f, c);
            lemma_lacks_concat(trim_end(s.take(ci)), strip_line_comments(f), c);
        },
        None => {},
    }
}

proof fn lemma_block_comments_lack(s: Seq<char>, c: char)
    requires
        lacks(s, c),
    ensures
        strip_block_comments(s) matches Some(t) ==> lacks(t, c),
    decreases s.len(),
{
    match find(s, seq!['/', '*']) {
        None => {},
        Some(ci) => if 0 <= ci && ci + 3 <= s.len() && (s[ci + 2] as u32) < 0x80 {
            let rest = s.skip(ci + 3);
            lemma_lacks_subrange(s, c, ci + 3, s.len() as int);
            assert(rest == s.subrange(ci + 3, s.len() as int));
            match find(rest, seq!['*', '/']) {
                Some(e) => if 0 <= e && e + 2 <= rest.len() {
                    lemma_trim_len(rest.skip(e + 2));
                    lemma_lacks_subrange(rest, c, e + 2, rest.len() as int);
                    assert(rest.skip(e + 2) == rest.subrange(e + 2, rest.len() as int));
                    lemma_lacks_trims(rest.skip(e + 2), c);
                    lemma_block_comments_lack(trim_start(rest.skip(e + 2)), c);
                    lemma_lacks_subrange(s, c, 0, ci);
                    assert(s.take(ci) == s.subrange(0, ci));
                    lemma_lacks_trims(s.take(ci), c);
                    if let Some(t) = strip_block_comments(trim_start(rest.skip(e + 2))) {
                        lemma_lacks_concat(trim_end(s.take(ci)), t, c);
                    }
                },
                None => {},
            }
        },
    }
}

/// Carriage returns are removed: the text that `strip_comments` gives holds
/// none.
pub proof fn law_stripped_text_has_no_carriage_return(s: Seq<char>)
    ensures
        spec_strip_comments(s) matches Some(t) ==> !t.contains('\r'),
{
    lemma_without_cr_lacks(s);
    lemma_line_comments_lack(without_cr(s), '\r');
    lemma_block_comments_lack(strip_line_comments(without_cr(s)), '\r');
    if let Some(t) = spec_strip_comments(s) {
        if t.contains('\r') {
            let j = choose|j: int| 0 <= j < t.len() && t[j] == '\r';
            assert(t[j] != '\r');
        }
    }
}

proof fn lemma_without_cr_keeps(s: Seq<char>)
    requires
        lacks(s, '\r'),
    ensures
        without_cr(s) == s,
    decreases s.len(),
{
    if s.len() > 0 {
        lemma_lacks_subrange(s, '\r', 0, s.len() - 1);
        assert(s.drop_last() == s.subrange(0, s.len() - 1));
        lemma_without_cr_keeps(s.drop_last());
        assert(s.drop_last().push(s.last()) =~= s);
    }
}

/// A text without `/` holds no two-character pattern that starts with `/`.
proof fn lemma_no_slash_pattern(s: Seq<char>, second: char)
    requires
        lacks(s, '/'),
    ensures
        find(s, seq!['/', second]) is None,
{
    let p = seq!['/', second];
    lemma_find_from(s, p, 0);
    if let Some(k) = find(s, p) {
        assert(s.subrange(k, k + 2)[0] == s[k]);
    }
}

/// A text without comments and carriage returns comes back whole from
/// `strip_comments`.
pub proof fn law_text_without_comments_kept(s: Seq<char>)
    requires
        !s.contains('/'),
        !s.contains('\r'),
    ensures
        spec_strip_comments(s) == Some(s),
{
    assert(lacks(s, '/')) by {
        assert forall|j: int| 0 <= j < s.len() implies #[trigger] s[j] != '/' by {
            if s[j] == '/' {
                assert(s.contains('/'));
            }
        }
    }
    assert(lacks(s, '\r')) by {
        assert forall|j: int| 0 <= j < s.len() implies #[trigger] s[j] != '\r' by {
            if s[j] == '\r' {
                assert(s.contains('\r'));
            }
        }
    }
    lemma_without_cr_keeps(s);
    lemma_no_slash_pattern(s, '/');
    lemma_no_slash_pattern(s, '*');
}

/// A line that `lex` reads as dialog: it is not blank and starts with none
/// of the marks of the other kinds of line.
pub open spec fn is_dialog_line(line: Seq<char>) -> bool {
    &&& line.len() > 0
    &&& line[0] != '='
    &&& !starts_with(line, seq!['-', '>'])
    &&& line[0] != '*'
    &&& line[0] != '+'
    &&& line[0] != '#'
    &&& !starts_with(line, seq!['V', 'A', 'R', ' '])
    &&& line[0] != '~'
}

/// Everything after the first `#` of a dialog line is tags: neither the
/// dialog text nor the divert read from a dialog line holds a `#`, and the
/// tokens are tags, then the dialog, then at most a divert.
pub proof fn law_dialog_divert_without_hash(raw: Seq<char>)
    requires
        is_dialog_line(trim(raw)),
    ensures
        forall|k: int| 0 <= k < lex_line(raw).len() ==> (#[trigger] lex_line(raw)[k] matches Token::Divert(d)
            ==> !d.contains('#')),
        forall|k: int| 0 <= k < lex_line(raw).len() ==> (#[trigger] lex_line(raw)[k] matches Token::Dialog(t, _)
            ==> !t.contains('#')),
        exists|n: int| 0 <= n < lex_line(raw).len() && #[trigger] lex_line(raw)[n] is Dialog
            && (forall|k: int| 0 <= k < n ==> #[trigger] lex_line(raw)[k] is Tag)
            && lex_line(raw).len() <= n + 2
            && (n + 1 < lex_line(raw).len() ==> lex_line(raw)[n + 1] is Divert),
{
    let line = trim(raw);
    let (tags, l1) = line_tags(line);
    lemma_char_found(line, '#');
    match cut_at(line, seq!['#']) {
        Some((a, b)) => {
            assert(a == line.take(find(line, seq!['#'])->0));
            lemma_lacks_trims(a, '#');
        },
        None => {},
    }
    assert(lacks(l1, '#'));
    let (divert, l2) = line_divert(l1);
    match cut_at(l1, seq!['-', '>']) {
        Some((a, b)) => {
            let i = find(l1, seq!['-', '>'])->0;
            lemma_lacks_subrange(l1, '#', i + 2, l1.len() as int);
            assert(b == l1.subrange(i + 2, l1.len() as int));
            lemma_lacks_trims(b, '#');
            lemma_lacks_subrange(l1, '#', 0, i);
            assert(a == l1.subrange(0, i));
            lemma_lacks_trims(a, '#');
        },
        None => {
            lemma_lacks_trims(l1, '#');
        },
    }
    lemma_lacks_trims(l2, '#');
    let toks = lex_line(raw);
    assert(toks == dialog_tokens(line));
    let mid = seq![Token::Dialog(trim(l2), divert is None)];
    let tail: Seq<Token> = match divert {
        Some(d) => seq![Token::Divert(d)],
        None => Seq::empty(),
    };
    assert(toks == tags + mid + tail);
    lemma_hash_tags_kinds(tags_source(line), false);
    assert forall|k: int| 0 <= k < toks.len() implies (#[trigger] toks[k] matches Token::Divert(d) ==> !d.contains('#')) by {
        if k < tags.len() {
            assert(toks[k] == tags[k]);
        } else if k == tags.len() {
            assert(toks[k] == mid[0]);
        } else {
            assert(toks[k] == tail[k - tags.len() - 1]);
            if let Token::Divert(d) = toks[k] {
                if d.contains('#') {
                    let j = choose|j: int| 0 <= j < d.len() && d[j] == '#';
                    assert(d[j] != '#');
                }
            }
        }
    }
    assert forall|k: int| 0 <= k < toks.len() implies (#[trigger] toks[k] matches Token::Dialog(t, _) ==> !t.contains('#')) by {
        if k < tags.len() {
            assert(toks[k] == tags[k]);
        } else if k == tags.len() {
            assert(toks[k] == mid[0]);
            if trim(l2).contains('#') {
                let j = choose|j: int| 0 <= j < trim(l2).len() && trim(l2)[j] == '#';
                assert(trim(l2)[j] != '#');
            }
        } else {
            assert(toks[k] == tail[k - tags.len() - 1]);
        }
    }
    let n = tags.len() as int;
    assert(toks[n] == mid[0]);
    assert forall|k: int| 0 <= k < n implies #[trigger] toks[k] is Tag by {
        assert(toks[k] == tags[k]);
    }
    if n + 1 < toks.len() {
        assert(toks[n + 1] == tail[0]);
    }
}

/// The tokens that `hash_tags` gives are tags.
proof fn lemma_hash_tags_kinds(s: Seq<char>, skip_empty: bool)
    ensures
        forall|k: int| 0 <= k < hash_tags(s, skip_empty).len() ==> #[trigger] hash_tags(s, skip_empty)[k] is Tag,
    decreases s.len(),
{
    match cut_at(s, seq!['#']) {
        Some((a, b)) => {
            lemma_hash_tags_kinds(b, skip_empty);
            let x = tag_piece(a, skip_empty);
            let y = hash_tags(b, skip_empty);
            assert forall|k: int| 0 <= k < (x + y).len() implies #[trigger] (x + y)[k] is Tag by {
                if k < x.len() {
                    assert((x + y)[k] == x[k]);
                } else {
                    assert((x + y)[k] == y[k - x.len()]);
                }
            }
        },
        None => {},
    }
}

/// `cut_at` on a range of `v`, given where `find` puts the pattern.
pub(crate) proof fn lemma_cut_range(v: Seq<char>, lo: int, hi: int, p: Seq<char>, k: int)
    requires
        0 <= lo <= k,
        k + p.len() <= hi <= v.len(),
        find(v.subrange(lo, hi), p) == Some(k - lo),
    ensures
        cut_at(v.subrange(lo, hi), p) == Some(
            (v.subrange(lo, k), v.subrange(k + p.len(), hi)),
        ),
{
    assert(v.subrange(lo, hi).take(k - lo) == v.subrange(lo, k));
    assert(v.subrange(lo, hi).skip(k - lo + p.len()) == v.subrange(k + p.len(), hi));
}

/// The piece `text[lo..hi]`, which `v` holds as characters.
fn piece<'a>(text: &'a str, v: &Vec<char>, lo: usize, hi: usize) -> (r: &'a str)
    requires
        v@ == text@,
        lo <= hi <= v.len(),
    ensures
        r@ == v@.subrange(lo as int, hi as int),
{
    text.substring_char(lo, hi)
}

/// Pushes a token and keeps the values in step.
fn push_token<'a>(out: &mut Vec<InkToken<'a>>, t: InkToken<'a>)
    ensures
        tokens_view(final(out)@) == tokens_view(old(out)@) + seq![t@],
{
    out.push(t);
    assert(tokens_view(out@) == tokens_view(old(out)@) + seq![t@]);
}

/// Appends tokens and keeps the values in step.
fn append_tokens<'a>(out: &mut Vec<InkToken<'a>>, ts: &Vec<InkToken<'a>>)
    ensures
        tokens_view(final(out)@) == tokens_view(old(out)@) + tokens_view(ts@),
{
    let mut i: usize = 0;
    while i < ts.len()
        invariant
            0 <= i <= ts.len(),
            tokens_view(out@) == tokens_view(old(out)@) + tokens_view(ts@.take(i as int)),
        decreases ts.len() - i,
    {
        push_token(out, ts[i]);
        assert(tokens_view(ts@.take(i + 1)) == tokens_view(ts@.take(i as int)) + seq![ts@[i as int]@]);
        i = i + 1;
    }
    assert(ts@.take(ts.len() as int) == ts@);
}

/// Pushes the tag tokens of `text[lo..hi]` split at every `#`.
fn push_hash_tags<'a>(
    text: &'a str,
    v: &Vec<char>,
    lo: usize,
    hi: usize,
    skip_empty: bool,
    out: &mut Vec<InkToken<'a>>,
)
    requires
        v@ == text@,
        lo <= hi <= v.len(),
    ensures
        tokens_view(final(out)@) == tokens_view(old(out)@) + hash_tags(
            v@.subrange(lo as int, hi as int),
            skip_empty,
        ),
{
    let mut pos = lo;
    loop
        invariant
            v@ == text@,
            lo <= pos <= hi <= v.len(),
            tokens_view(out@) + hash_tags(v@.subrange(pos as int, hi as int), skip_empty)
                == tokens_view(old(out)@) + hash_tags(v@.subrange(lo as int, hi as int), skip_empty),
        decreases hi - pos,
    {
        let ghost o0 = tokens_view(out@);
        match find_char(v, pos, hi, '#') {
            Some(k) => {
                proof {
                    lemma_cut_range(v@, pos as int, hi as int, seq!['#'], k as int);
                }
                if !(skip_empty && k == pos) {
                    let (a, b) = trim_at(v, pos, k);
                    push_token(out, InkToken::Tag(piece(text, v, a, b)));
                }
                assert(o0 + hash_tags(v@.subrange(pos as int, hi as int), skip_empty) == tokens_view(
                    out@,
                ) + hash_tags(v@.subrange(k + 1, hi as int), skip_empty));
                pos = k + 1;
            },
            None => {
                if !(skip_empty && hi == pos) {
                    let (a, b) = trim_at(v, pos, hi);
                    push_token(out, InkToken::Tag(piece(text, v, a, b)));
                }
                return ;
            },
        }
    }
}

/// The tags after the first `#` of `text[lo..hi]`, and the range of what is
/// before them, trimmed (all of `lo..hi` when there is no `#`).
fn split_line_tags<'a>(text: &'a str, v: &Vec<char>, lo: usize, hi: usize) -> (r: (
    Vec<InkToken<'a>>,
    usize,
    usize,
))
    requires
        v@ == text@,
        lo <= hi <= v.len(),
    ensures
        lo <= r.1 <= r.2 <= hi,
        tokens_view(r.0@) == line_tags(v@.subrange(lo as int, hi as int)).0,
        v@.subrange(r.1 as int, r.2 as int) == line_tags(v@.subrange(lo as int, hi as int)).1,
        (r.1, r.2) != (lo, hi) ==> exists|k: int| lo <= k < hi && v@[k] == '#' && v@.subrange(
            r.1 as int,
            r.2 as int,
        ) == trim(v@.subrange(lo as int, k)),
{
    let mut tags: Vec<InkToken<'a>> = Vec::new();
    match find_char(v, lo, hi, '#') {
        Some(k) => {
            proof {
                lemma_cut_range(v@, lo as int, hi as int, seq!['#'], k as int);
            }
            push_hash_tags(text, v, k + 1, hi, false, &mut tags);
            assert(tokens_view(tags@) == hash_tags(v@.subrange(k + 1, hi as int), false)) by {
                assert(tokens_view(Seq::<InkToken<'a>>::empty()) == Seq::<Token>::empty());
            }
            let (a, b) = trim_at(v, lo, k);
            (tags, a, b)
        },
        None => {
            assert(tokens_view(tags@) == Seq::<Token>::empty());
            (tags, lo, hi)
        },
    }
}

/// The range of the divert after the first `->` of `text[lo..hi]` (trimmed),
/// and the range of what is before it, trimmed (all of `lo..hi` when there is
/// no `->`).
fn split_line_divert(v: &Vec<char>, lo: usize, hi: usize) -> (r: (Option<(usize, usize)>, usize, usize))
    requires
        lo <= hi <= v.len(),
    ensures
        lo <= r.1 <= r.2 <= hi,
        v@.subrange(r.1 as int, r.2 as int) == line_divert(v@.subrange(lo as int, hi as int)).1,
        match r.0 {
            Some((a, b)) => a <= b <= v.len() && line_divert(v@.subrange(lo as int, hi as int)).0
                == Some(v@.subrange(a as int, b as int)),
            None => line_divert(v@.subrange(lo as int, hi as int)).0 is None,
        },
        r.0 is Some ==> exists|k: int| lo <= k < hi && v@[k] == '-' && v@.subrange(
            r.1 as int,
            r.2 as int,
        ) == trim(v@.subrange(lo as int, k)),
{
    match find_pair_at(v, lo, hi, '-', '>') {
        Some(k) => {
            proof {
                lemma_cut_range(v@, lo as int, hi as int, seq!['-', '>'], k as int);
            }
            let d = trim_at(v, k + 2, hi);
            let (a, b) = trim_at(v, lo, k);
            (Some(d), a, b)
        },
        None => (None, lo, hi),
    }
}


/// A range that starts with a non-whitespace character keeps it when trimmed.
proof fn lemma_head_kept(v: Seq<char>, lo: int, k: int)
    requires
        0 <= lo < k <= v.len(),
        !is_ws(v[lo]),
    ensures
        trim(v.subrange(lo, k)).len() > 0,
        trim(v.subrange(lo, k))[0] == v[lo],
{
    lemma_trim_keeps_first(v.subrange(lo, k));
}

/// Pushes the tokens of the dialog line `text[lo..hi]` (already trimmed).
fn push_dialog_tokens<'a>(text: &'a str, v: &Vec<char>, lo: usize, hi: usize, out: &mut Vec<InkToken<'a>>)
    requires
        v@ == text@,
        lo <= hi <= v.len(),
    ensures
        tokens_view(final(out)@) == tokens_view(old(out)@) + dialog_tokens(
            v@.subrange(lo as int, hi as int),
        ),
{
    let (tags, a1, b1) = split_line_tags(text, v, lo, hi);
    let (divert, a2, b2) = split_line_divert(v, a1, b1);
    let (a3, b3) = trim_at(v, a2, b2);
    append_tokens(out, &tags);
    push_token(out, InkToken::Dialog((piece(text, v, a3, b3), divert.is_none())));
    match divert {
        Some((a, b)) => {
            push_token(out, InkToken::Divert(piece(text, v, a, b)));
        },
        None => {},
    }
}

/// Pushes the tokens of the choice line `text[lo..hi]` (already trimmed; it
/// starts with `*` or `+`).
fn lex_choice<'a>(
    text: &'a str,
    v: &Vec<char>,
    lo: usize,
    hi: usize,
    sticky: bool,
    out: &mut Vec<InkToken<'a>>,
)
    requires
        v@ == text@,
        lo < hi <= v.len(),
        v@[lo as int] == '*' || v@[lo as int] == '+',
    ensures
        tokens_view(final(out)@) == tokens_view(old(out)@) + choice_tokens(
            v@.subrange(lo as int, hi as int),
            sticky,
        ),
{
    let (tags, a1, b1) = split_line_tags(text, v, lo, hi);
    if a1 != lo || b1 != hi {
        let ghost k = choose|k: int| lo <= k < hi && v@[k] == '#' && v@.subrange(a1 as int, b1 as int) == trim(v@.subrange(lo as int, k));
        proof {
            lemma_head_kept(v@, lo as int, k);
        }
    }
    assert(a1 < b1 && v@[a1 as int] == v@[lo as int]) by {
        assert(v@.subrange(a1 as int, b1 as int)[0] == v@[a1 as int]);
    }
    let (divert, a2, b2) = split_line_divert(v, a1, b1);
    if divert.is_some() {
        let ghost k = choose|k: int| a1 <= k < b1 && v@[k] == '-' && v@.subrange(a2 as int, b2 as int) == trim(v@.subrange(a1 as int, k));
        proof {
            lemma_head_kept(v@, a1 as int, k);
        }
    }
    assert(a2 < b2) by {
        assert(v@.subrange(a2 as int, b2 as int).len() > 0);
    }
    assert(v@.subrange(a2 as int, b2 as int).skip(1) == v@.subrange(a2 + 1, b2 as int));
    let (a3, b3) = trim_at(v, a2 + 1, b2);
    let newline = divert.is_none();
    let choice_text = piece(text, v, a3, b3);
    if sticky || a3 == b3 {
        push_token(out, InkToken::StickyChoice((choice_text, newline)));
    } else {
        push_token(out, InkToken::Choice((choice_text, newline)));
    }
    append_tokens(out, &tags);
    match divert {
        Some((a, b)) => {
            if a < b {
                push_token(out, InkToken::Divert(piece(text, v, a, b)));
            }
        },
        None => {},
    }
}

/// Pushes the title token of the `=` line `text[lo..hi]` (already trimmed).
fn push_title<'a>(text: &'a str, v: &Vec<char>, lo: usize, hi: usize, out: &mut Vec<InkToken<'a>>)
    requires
        v@ == text@,
        lo < hi <= v.len(),
        v@[lo as int] == '=',
        leading_equals(v@.subrange(lo as int, hi as int)) < hi - lo,
    ensures
        tokens_view(final(out)@) == tokens_view(old(out)@) + if leading_equals(
            v@.subrange(lo as int, hi as int),
        ) == 1 {
            seq![Token::StitchTitle(title_of(v@.subrange(lo as int, hi as int)))]
        } else {
            seq![Token::KnotTitle(title_of(v@.subrange(lo as int, hi as int)))]
        },
{
    let ghost line = v@.subrange(lo as int, hi as int);
    let mut i = lo;
    while i < hi && v[i] == '='
        invariant
            lo <= i <= hi <= v.len(),
            leading_equals(line) == (i - lo) + leading_equals(v@.subrange(i as int, hi as int)),
            line == v@.subrange(lo as int, hi as int),
        decreases hi - i,
    {
        assert(v@.subrange(i as int, hi as int).drop_first() == v@.subrange(i + 1, hi as int));
        i = i + 1;
    }
    assert(i < hi);
    let mut j = hi;
    while j > i + 1 && v[j - 1] == '='
        invariant
            lo <= i < j <= hi <= v.len(),
            v@[i as int] != '=',
            trailing_equals(line) == (hi - j) + trailing_equals(v@.subrange(lo as int, j as int)),
            line == v@.subrange(lo as int, hi as int),
        decreases j - i,
    {
        assert(v@.subrange(lo as int, j as int).drop_last() == v@.subrange(lo as int, j - 1));
        j = j - 1;
    }
    assert(trailing_equals(v@.subrange(lo as int, j as int)) == 0) by {
        assert(v@.subrange(lo as int, j as int).last() == v@[j - 1]);
    }
    assert(line.subrange(i - lo, line.len() - trailing_equals(line)) == v@.subrange(i as int, j as int));
    let (a, b) = trim_at(v, i, j);
    let title = piece(text, v, a, b);
    if i - lo == 1 {
        push_token(out, InkToken::StitchTitle(title));
    } else {
        push_token(out, InkToken::KnotTitle(title));
    }
}

/// Pushes the tokens of the line `text[lo..hi]`.
fn lex_line_at<'a>(text: &'a str, v: &Vec<char>, lo: usize, hi: usize, out: &mut Vec<InkToken<'a>>)
    requires
        v@ == text@,
        lo <= hi <= v.len(),
        line_lexable(v@.subrange(lo as int, hi as int)),
    ensures
        tokens_view(final(out)@) == tokens_view(old(out)@) + lex_line(
            v@.subrange(lo as int, hi as int),
        ),
{
    let (a, b) = trim_at(v, lo, hi);
    let ghost line = v@.subrange(a as int, b as int);
    if a == b {
        assert(lex_line(v@.subrange(lo as int, hi as int)) == Seq::<Token>::empty());
        assert(tokens_view(out@) == tokens_view(out@) + Seq::<Token>::empty());
        return ;
    }
    assert(line[0] == v@[a as int]);
    let c = v[a];
    if c == '=' {
        push_title(text, v, a, b, out);
    } else if b - a >= 2 && v[a + 1] == '>' && c == '-' {
        assert(line.take(2) == seq!['-', '>']);
        assert(line.skip(2) == v@.subrange(a + 2, b as int));
        let d = trim_start_at(v, a + 2, b);
        push_token(out, InkToken::Divert(piece(text, v, d, b)));
    } else if c == '*' || c == '+' {
        assert(!starts_with(line, seq!['-', '>'])) by {
            if b - a >= 2 {
                assert(line.take(2)[0] == c);
            }
        }
        lex_choice(text, v, a, b, c == '+', out);
    } else if c == '#' {
        assert(!starts_with(line, seq!['-', '>'])) by {
            if b - a >= 2 {
                assert(line.take(2)[0] == c);
            }
        }
        push_hash_tags(text, v, a, b, true, out);
    } else if b - a >= 4 && c == 'V' && v[a + 1] == 'A' && v[a + 2] == 'R' && v[a + 3] == ' ' {
        assert(!starts_with(line, seq!['-', '>'])) by {
            assert(line.take(2)[0] == c);
        }
        assert(line.take(4) == seq!['V', 'A', 'R', ' ']);
        assert(line.skip(4) == v@.subrange(a + 4, b as int));
        let d = trim_start_at(v, a + 4, b);
        push_token(out, InkToken::VariableDeclaration(piece(text, v, d, b)));
    } else if c == '~' {
        assert(!starts_with(line, seq!['-', '>'])) by {
            if b - a >= 2 {
                assert(line.take(2)[0] == c);
            }
        }
        assert(!starts_with(line, seq!['V', 'A', 'R', ' '])) by {
            if b - a >= 4 {
                assert(line.take(4)[0] == c);
            }
        }
        assert(line.skip(1) == v@.subrange(a + 1, b as int));
        let d = trim_start_at(v, a + 1, b);
        push_token(out, InkToken::Operation(piece(text, v, d, b)));
    } else {
        assert(!starts_with(line, seq!['-', '>'])) by {
            if b - a >= 2 {
                assert(line.take(2)[0] == c);
                assert(line.take(2)[1] == v@[a + 1]);
            }
        }
        assert(!starts_with(line, seq!['V', 'A', 'R', ' '])) by {
            if b - a >= 4 {
                assert(line.take(4)[0] == c);
                assert(line.take(4)[1] == v@[a + 1]);
                assert(line.take(4)[2] == v@[a + 2]);
                assert(line.take(4)[3] == v@[a + 3]);
            }
        }
        push_dialog_tokens(text, v, a, b, out);
    }
}

/// Whether the line `v[lo..hi]` is one that `lex` accepts.
fn line_lexable_at(v: &Vec<char>, lo: usize, hi: usize) -> (r: bool)
    requires
        lo <= hi <= v.len(),
    ensures
        r == line_lexable(v@.subrange(lo as int, hi as int)),
{
    let (a, b) = trim_at(v, lo, hi);
    let ghost line = v@.subrange(a as int, b as int);
    if a == b {
        return true;
    }
    assert(line[0] == v@[a as int]);
    if v[a] != '=' {
        return true;
    }
    let mut i = a;
    while i < b && v[i] == '='
        invariant
            a <= i <= b <= v.len(),
            leading_equals(line) == (i - a) + leading_equals(v@.subrange(i as int, b as int)),
            line == v@.subrange(a as int, b as int),
        decreases b - i,
    {
        assert(v@.subrange(i as int, b as int).drop_first() == v@.subrange(i + 1, b as int));
        i = i + 1;
    }
    if i == b {
        return false;
    }
    assert(v@.subrange(i as int, b as int)[0] == v@[i as int]);
    let mut j = b;
    while j > i + 1 && v[j - 1] == '='
        invariant
            a <= i < j <= b <= v.len(),
            v@[i as int] != '=',
            trailing_equals(line) == (b - j) + trailing_equals(v@.subrange(a as int, j as int)),
            line == v@.subrange(a as int, b as int),
        decreases j - i,
    {
        assert(v@.subrange(a as int, j as int).drop_last() == v@.subrange(a as int, j - 1));
        j = j - 1;
    }
    assert(trailing_equals(v@.subrange(a as int, j as int)) == 0) by {
        assert(v@.subrange(a as int, j as int).last() == v@[j - 1]);
    }
    assert(line[line.len() - trailing_equals(line) - 1] == v@[j - 1]);
    (v[j - 1] as u32) < 0x80
}

/// Splits ink source text (with its comments already removed) into tokens,
/// line by line: knot and stitch titles, diverts, choices, tags, variable
/// declarations, operations and dialog.
pub fn lex<'a>(text: &'a str) -> (r: Vec<InkToken<'a>>)
    requires
        lexable(text@),
    ensures
        tokens_view(r@) == spec_lex(text@),
{
    try_lex(text).unwrap()
}

/// Splits ink source text into tokens, as `lex` does; `None` where a line is
/// one that `lex` does not accept (see `line_lexable`).
pub fn try_lex<'a>(text: &'a str) -> (r: Option<Vec<InkToken<'a>>>)
    ensures
        match r {
            Some(ts) => lexable(text@) && tokens_view(ts@) == spec_lex(text@),
            None => !lexable(text@),
        },
{
    let v = chars_of(text);
    let n = v.len();
    let mut out: Vec<InkToken<'a>> = Vec::new();
    let mut pos: usize = 0;
    assert(v@.subrange(0, n as int) == v@);
    assert(tokens_view(out@) == Seq::<Token>::empty());
    loop
        invariant
            v@ == text@,
            0 <= pos <= n == v.len(),
            lexable(v@) == lexable(v@.subrange(pos as int, n as int)),
            tokens_view(out@) + spec_lex(v@.subrange(pos as int, n as int)) == spec_lex(v@),
        decreases n - pos,
    {
        match find_char(&v, pos, n, '\n') {
            Some(k) => {
                proof {
                    lemma_cut_range(v@, pos as int, n as int, seq!['\n'], k as int);
                }
                if !line_lexable_at(&v, pos, k) {
                    return None;
                }
                lex_line_at(text, &v, pos, k, &mut out);
                pos = k + 1;
            },
            None => {
                if !line_lexable_at(&v, pos, n) {
                    return None;
                }
                lex_line_at(text, &v, pos, n, &mut out);
                return Some(out);
            },
        }
    }
}

} // verus!
