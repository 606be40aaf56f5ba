//! Turning tokens into a story: knots, stitches, choices, diverts and tags.

use vstd::prelude::*;
use crate::ink_lexer::{InkToken, Token, tokens_view, cut_at, lemma_cut_range};
use crate::text::{
    append_range, leak_text, push_char, str_equal,
    chars_of, find_char_at, push_str, range_starts_with, starts_with, string_of_range, string_of_str,
    trim, trim_at,
};

verus! {

// ---------------------------------------------------------------------------
// The story and its parts
// ---------------------------------------------------------------------------

/// The value of a global variable or constant. A floating-point value is kept
/// as the text it was written as.
#[derive(Debug, PartialEq, Clone)]
pub enum VariableValue {
    Int(i32),
    Float(String),
    Content(String),
    Address(String),
}

/// A parsed story. Global variables and knots are kept in insertion order,
/// each name at most once (a later insertion of a name replaces the value in
/// place).
#[derive(Debug, PartialEq, Clone, Default)]
pub struct InkStory<'a> {
    pub global_variables_and_constants: Vec<(&'a str, VariableValue)>,
    pub knots: Vec<Knot<'a>>,
    pub global_tags: Vec<&'a str>,
}

/// A line of dialog with its tags.
#[derive(Debug, PartialEq, Eq, Clone, Default)]
pub struct DialogLine<'a> {
    pub text: &'a str,
    pub tags: Vec<&'a str>,
}

/// A knot (or stitch, whose title is `knot.stitch`): lines, then how it ends.
#[derive(Debug, PartialEq, Eq, Clone)]
pub struct Knot<'a> {
    pub title: String,
    pub lines: Vec<Line<'a>>,
    pub end: KnotEnd<'a>,
    pub knot_tags: Vec<&'a str>,
}

/// How a knot ends: with choices for the reader, or by diverting to a knot.
#[derive(Debug, PartialEq, Eq, Clone)]
pub enum KnotEnd<'a> {
    Choices(Vec<Choice<'a>>),
    Divert(Divert),
}

/// A choice. For a choice written `{knot} before[inside]after`:
/// `text` is what is offered, `before` and `inside` (trimmed); `output` is
/// the line shown once it is taken, `before` and `after` (trimmed; nothing is
/// shown when it is empty); `condition` is the knot that must have been seen
/// for the choice to be offered. Then come the lines that follow it and where
/// it diverts to. A sticky choice can be taken again and again.
#[derive(Debug, PartialEq, Eq, Clone)]
pub struct Choice<'a> {
    pub text: &'a str,
    pub output: &'a str,
    pub condition: Option<&'a str>,
    pub lines: Vec<Line<'a>>,
    pub divert: Divert,
    pub sticky: bool,
}

/// The title of the knot to go to.
#[derive(Debug, PartialEq, Eq, Clone)]
pub struct Divert {
    pub knot_title: String,
}

/// A line of a knot or choice.
#[derive(Debug, PartialEq, Eq, Clone)]
pub enum Line<'a> {
    Dialog(DialogLine<'a>),
    Operation(Operation),
}

/// A variable declaration.
#[derive(Debug, PartialEq, Eq, Clone, Default)]
pub struct VariableDeclaration<'a> {
    name: &'a str,
    statement: Statement,
}

/// A statement.
#[derive(Debug, PartialEq, Eq, Clone, Default)]
pub struct Statement {}

/// An operation line.
#[derive(Debug, PartialEq, Eq, Clone, Default)]
pub struct Operation {}

impl<'a> From<&'a str> for DialogLine<'a> {
    /// A dialog line without tags.
    fn from(s: &'a str) -> (r: Self)
        ensures
            r@ == (SpecDialogLine { text: s@, tags: Seq::empty() }),
    {
        let r = DialogLine { text: s, tags: Vec::new() };
        assert(strs_view(r.tags@) == Seq::<Seq<char>>::empty());
        r
    }
}

impl<'a> vstd::std_specs::convert::FromSpecImpl<&'a str> for DialogLine<'a> {
    open spec fn obeys_from_spec() -> bool {
        false
    }

    open spec fn from_spec(v: &'a str) -> Self {
        DialogLine { text: v, tags: vstd::pervasive::arbitrary() }
    }
}

impl From<&str> for Divert {
    /// A divert to the knot with the given title.
    fn from(s: &str) -> (r: Self)
        ensures
            r@ == s@,
    {
        Divert { knot_title: string_of_str(s) }
    }
}

impl vstd::std_specs::convert::FromSpecImpl<&str> for Divert {
    open spec fn obeys_from_spec() -> bool {
        false
    }

    open spec fn from_spec(v: &str) -> Self {
        vstd::pervasive::arbitrary()
    }
}

impl<'a> From<&'a str> for KnotEnd<'a> {
    /// An end that diverts to the knot with the given title.
    fn from(s: &'a str) -> (r: Self)
        ensures
            r@ == SpecKnotEnd::Divert(s@),
    {
        KnotEnd::Divert(Divert::from(s))
    }
}

impl<'a> vstd::std_specs::convert::FromSpecImpl<&'a str> for KnotEnd<'a> {
    open spec fn obeys_from_spec() -> bool {
        false
    }

    open spec fn from_spec(v: &'a str) -> Self {
        vstd::pervasive::arbitrary()
    }
}

impl<'a> From<&'a str> for Line<'a> {
    /// A dialog line without tags.
    fn from(s: &'a str) -> (r: Self)
        ensures
            r@ == SpecLine::Dialog(SpecDialogLine { text: s@, tags: Seq::empty() }),
    {
        Line::Dialog(DialogLine::from(s))
    }
}

impl<'a> vstd::std_specs::convert::FromSpecImpl<&'a str> for Line<'a> {
    open spec fn obeys_from_spec() -> bool {
        false
    }

    open spec fn from_spec(v: &'a str) -> Self {
        vstd::pervasive::arbitrary()
    }
}

impl Default for Divert {
    /// A divert to `END`.
    fn default() -> (r: Self)
        ensures
            r@ == end_title(),
    {
        Divert { knot_title: end_string() }
    }
}

impl<'a> Default for Knot<'a> {
    /// The empty opening knot `__INTRO__`, which goes on to `END`.
    fn default() -> (r: Self)
        ensures
            r@ == (SpecKnot {
                title: intro_title(),
                lines: Seq::empty(),
                end: SpecKnotEnd::Divert(end_title()),
                knot_tags: Seq::empty(),
            }),
    {
        let r = Knot {
            title: intro_string(),
            lines: Vec::new(),
            end: KnotEnd::Divert(Divert::default()),
            knot_tags: Vec::new(),
        };
        assert(lines_view(r.lines@) == Seq::<SpecLine>::empty());
        assert(strs_view(r.knot_tags@) == Seq::<Seq<char>>::empty());
        r
    }
}

impl<'a> Default for Choice<'a> {
    /// A non-sticky choice without text, condition or lines that goes on to `END`.
    fn default() -> (r: Self)
        ensures
            r@ == (SpecChoice {
                text: Seq::empty(),
                output: Seq::empty(),
                condition: None,
                lines: Seq::empty(),
                divert: end_title(),
                sticky: false,
            }),
    {
        let r = Choice {
            text: "",
            output: "",
            condition: None,
            lines: Vec::new(),
            divert: Divert::default(),
            sticky: false,
        };
        proof {
            reveal_strlit("");
        }
        assert(""@ =~= Seq::<char>::empty());
        assert(lines_view(r.lines@) == Seq::<SpecLine>::empty());
        r
    }
}

// ---------------------------------------------------------------------------
// Their values
// ---------------------------------------------------------------------------

pub struct SpecDialogLine {
    pub text: Seq<char>,
    pub tags: Seq<Seq<char>>,
}

pub enum SpecLine {
    Dialog(SpecDialogLine),
    Operation,
}

pub struct SpecChoice {
    pub text: Seq<char>,
    pub output: Seq<char>,
    pub condition: Option<Seq<char>>,
    pub lines: Seq<SpecLine>,
    pub divert: Seq<char>,
    pub sticky: bool,
}

pub enum SpecKnotEnd {
    Choices(Seq<SpecChoice>),
    Divert(Seq<char>),
}

pub struct SpecKnot {
    pub title: Seq<char>,
    pub lines: Seq<SpecLine>,
    pub end: SpecKnotEnd,
    pub knot_tags: Seq<Seq<char>>,
}

pub enum SpecValue {
    Int(i32),
    Float(Seq<char>),
    Content(Seq<char>),
    Address(Seq<char>),
}

pub struct SpecStory {
    pub variables: Seq<(Seq<char>, SpecValue)>,
    pub knots: Seq<SpecKnot>,
    pub global_tags: Seq<Seq<char>>,
}

/// The texts of a sequence of string slices.
pub open spec fn strs_view<'a>(s: Seq<&'a str>) -> Seq<Seq<char>> {
    s.map_values(|t: &'a str| t@)
}

impl<'a> View for DialogLine<'a> {
    type V = SpecDialogLine;

    open spec fn view(&self) -> SpecDialogLine {
        SpecDialogLine { text: self.text@, tags: strs_view(self.tags@) }
    }
}

impl<'a> View for Line<'a> {
    type V = SpecLine;

    open spec fn view(&self) -> SpecLine {
        match self {
            Line::Dialog(d) => SpecLine::Dialog(d@),
            Line::Operation(_) => SpecLine::Operation,
        }
    }
}

pub open spec fn lines_view<'a>(s: Seq<Line<'a>>) -> Seq<SpecLine> {
    s.map_values(|l: Line<'a>| l@)
}

impl View for Divert {
    type V = Seq<char>;

    open spec fn view(&self) -> Seq<char> {
        self.knot_title@
    }
}

impl<'a> View for Choice<'a> {
    type V = SpecChoice;

    open spec fn view(&self) -> SpecChoice {
        SpecChoice {
            text: self.text@,
            output: self.output@,
            condition: match self.condition {
                Some(c) => Some(c@),
                None => None,
            },
            lines: lines_view(self.lines@),
            divert: self.divert@,
            sticky: self.sticky,
        }
    }
}

pub open spec fn choices_view<'a>(s: Seq<Choice<'a>>) -> Seq<SpecChoice> {
    s.map_values(|c: Choice<'a>| c@)
}

impl<'a> View for KnotEnd<'a> {
    type V = SpecKnotEnd;

    open spec fn view(&self) -> SpecKnotEnd {
        match self {
            KnotEnd::Choices(cs) => SpecKnotEnd::Choices(choices_view(cs@)),
            KnotEnd::Divert(d) => SpecKnotEnd::Divert(d@),
        }
    }
}

impl<'a> View for Knot<'a> {
    type V = SpecKnot;

    open spec fn view(&self) -> SpecKnot {
        SpecKnot {
            title: self.title@,
            lines: lines_view(self.lines@),
            end: self.end@,
            knot_tags: strs_view(self.knot_tags@),
        }
    }
}

pub open spec fn knots_view<'a>(s: Seq<Knot<'a>>) -> Seq<SpecKnot> {
    s.map_values(|k: Knot<'a>| k@)
}

impl View for VariableValue {
    type V = SpecValue;

    open spec fn view(&self) -> SpecValue {
        match self {
            VariableValue::Int(i) => SpecValue::Int(*i),
            VariableValue::Float(s) => SpecValue::Float(s@),
            VariableValue::Content(s) => SpecValue::Content(s@),
            VariableValue::Address(s) => SpecValue::Address(s@),
        }
    }
}

pub open spec fn variables_view<'a>(s: Seq<(&'a str, VariableValue)>) -> Seq<(Seq<char>, SpecValue)> {
    s.map_values(|p: (&'a str, VariableValue)| (p.0@, p.1@))
}

impl<'a> View for InkStory<'a> {
    type V = SpecStory;

    open spec fn view(&self) -> SpecStory {
        SpecStory {
            variables: variables_view(self.global_variables_and_constants@),
            knots: knots_view(self.knots@),
            global_tags: strs_view(self.global_tags@),
        }
    }
}

// ---------------------------------------------------------------------------
// What parsing gives
// ---------------------------------------------------------------------------

/// `a.b`
pub open spec fn dotted(a: Seq<char>, b: Seq<char>) -> Seq<char> {
    a + seq!['.'] + b
}

pub open spec fn end_title() -> Seq<char> {
    seq!['E', 'N', 'D']
}

pub open spec fn intro_title() -> Seq<char> {
    seq!['_', '_', 'I', 'N', 'T', 'R', 'O', '_', '_']
}

/// `s` is made of ASCII digits only.
pub open spec fn all_digits(d: Seq<char>) -> bool {
    forall|i: int| 0 <= i < d.len() ==> is_digit(#[trigger] d[i])
}

/// The number that the decimal digits `d` write.
pub open spec fn digits_value(d: Seq<char>) -> int
    decreases d.len(),
{
    if d.len() == 0 {
        0
    } else {
        digits_value(d.drop_last()) * 10 + (d.last() as u32 - 48)
    }
}

/// What `str::parse::<i32>` gives: an optional sign, then at least one
/// decimal digit and nothing else, for a value that fits in an `i32`.
pub open spec fn spec_parse_i32(t: Seq<char>) -> Option<i32> {
    let neg = t.len() > 0 && t[0] == '-';
    let d = if t.len() > 0 && (t[0] == '-' || t[0] == '+') {
        t.skip(1)
    } else {
        t
    };
    if d.len() == 0 || !all_digits(d) {
        None
    } else {
        let v = if neg {
            -digits_value(d)
        } else {
            digits_value(d)
        };
        if i32::MIN <= v <= i32::MAX {
            Some(v as i32)
        } else {
            None
        }
    }
}

/// `c` is an ASCII digit.
pub open spec fn is_digit(c: char) -> bool {
    48 <= (c as u32) <= 57
}

/// The code of `c`, with an ASCII capital letter made small.
pub open spec fn lower_code(c: char) -> int {
    if 65 <= (c as u32) <= 90 {
        (c as u32) + 32
    } else {
        c as u32 as int
    }
}

/// `s` equals `word` (which is small letters) ignoring ASCII case.
pub open spec fn equals_ignoring_case(s: Seq<char>, word: Seq<char>) -> bool {
    s.len() == word.len() && forall|i: int| 0 <= i < s.len() ==> lower_code(#[trigger] s[i]) == word[i] as u32 as int
}

/// `s` without one leading `+` or `-`.
pub open spec fn unsigned(s: Seq<char>) -> Seq<char> {
    if s.len() > 0 && (s[0] == '+' || s[0] == '-') {
        s.skip(1)
    } else {
        s
    }
}

/// Digits with at most one `.` among them, and at least one digit.
pub open spec fn mantissa_syntax(m: Seq<char>) -> bool {
    match cut_at(m, seq!['.']) {
        Some((a, b)) => all_digits(a) && all_digits(b) && a.len() + b.len() > 0,
        None => all_digits(m) && m.len() > 0,
    }
}

/// The first position of an `e` or `E` in `s`.
pub open spec fn exponent_mark(s: Seq<char>) -> Option<int>
    decreases s.len(),
{
    if s.len() == 0 {
        None
    } else if lower_code(s[0]) == 101 {
        Some(0)
    } else {
        match exponent_mark(s.drop_first()) {
            Some(k) => Some(k + 1),
            None => None,
        }
    }
}

/// A decimal number, with an optional exponent.
pub open spec fn number_syntax(b: Seq<char>) -> bool {
    match exponent_mark(b) {
        Some(k) => 0 <= k < b.len() && mantissa_syntax(b.take(k)) && {
            let e = unsigned(b.skip(k + 1));
            all_digits(e) && e.len() > 0
        },
        None => mantissa_syntax(b),
    }
}

/// The texts that `str::parse::<f32>` accepts, as its documentation gives
/// them: an optional sign, then `inf`, `infinity`, `nan` (in any case) or a
/// decimal number with an optional exponent.
pub open spec fn parses_as_f32(t: Seq<char>) -> bool {
    let b = unsigned(t);
    ||| equals_ignoring_case(b, seq!['i', 'n', 'f'])
    ||| equals_ignoring_case(b, seq!['i', 'n', 'f', 'i', 'n', 'i', 't', 'y'])
    ||| equals_ignoring_case(b, seq!['n', 'a', 'n'])
    ||| number_syntax(b)
}

/// The value written after the `=` of a variable declaration: an integer, a
/// floating-point number, a divert target after `->`, or text in double
/// quotes. `None` where it is none of these.
pub open spec fn spec_variable_value(s: Seq<char>) -> Option<SpecValue> {
    let t = trim(s);
    match spec_parse_i32(t) {
        Some(i) => Some(SpecValue::Int(i)),
        None => if parses_as_f32(t) {
            Some(SpecValue::Float(t))
        } else if starts_with(t, seq!['-', '>']) {
            Some(SpecValue::Address(trim(t.skip(2))))
        } else if t.len() >= 2 && t[0] == '"' && t.last() == '"' {
            Some(SpecValue::Content(t.subrange(1, t.len() - 1)))
        } else {
            None
        },
    }
}

/// The lines and divert of a choice, read from token `i` on, and the index of
/// the first token after them: dialog lines are kept (without tags), tags are
/// passed over, a divert ends the choice, and so does the next choice. `None`
/// for any other token.
pub open spec fn choice_body(toks: Seq<Token>, i: int) -> Option<(Seq<SpecLine>, Seq<char>, int)>
    decreases toks.len() - i,
{
    if i < 0 || i >= toks.len() {
        Some((Seq::empty(), end_title(), i))
    } else {
        match toks[i] {
            Token::Dialog(s, _) => match choice_body(toks, i + 1) {
                Some((ls, d, n)) => Some(
                    (seq![SpecLine::Dialog(SpecDialogLine { text: s, tags: Seq::empty() })] + ls, d, n),
                ),
                None => None,
            },
            Token::Tag(_) => choice_body(toks, i + 1),
            Token::Divert(s) => Some((Seq::empty(), s, i + 1)),
            Token::Choice(..) => Some((Seq::empty(), end_title(), i)),
            Token::StickyChoice(..) => Some((Seq::empty(), end_title(), i)),
            _ => None,
        }
    }
}

/// The condition that a choice text starts with, `{knot}` (its trimmed
/// name), and the trimmed rest of the text; no condition where the text does
/// not start with `{` or has no `}`.
pub open spec fn choice_condition(t: Seq<char>) -> (Option<Seq<char>>, Seq<char>) {
    if t.len() > 0 && t[0] == '{' {
        match cut_at(t, seq!['}']) {
            Some((c, rest)) => (Some(trim(c.skip(1))), trim(rest)),
            None => (None, t),
        }
    } else {
        (None, t)
    }
}

/// The three parts of a choice text `before[inside]after` (cut at the first
/// `[` and the first `]` after it); a text without them is all `before`.
pub open spec fn bracket_parts(t: Seq<char>) -> (Seq<char>, Seq<char>, Seq<char>) {
    match cut_at(t, seq!['[']) {
        Some((before, rest)) => match cut_at(rest, seq![']']) {
            Some((inside, after)) => (before, inside, after),
            None => (t, Seq::empty(), Seq::empty()),
        },
        None => (t, Seq::empty(), Seq::empty()),
    }
}

/// The text a choice offers: the part before the brackets and the part
/// inside them.
pub open spec fn offered_text(t: Seq<char>) -> Seq<char> {
    trim(bracket_parts(t).0 + bracket_parts(t).1)
}

/// The line a choice shows once taken: the part before the brackets and the
/// part after them.
pub open spec fn shown_text(t: Seq<char>) -> Seq<char> {
    trim(bracket_parts(t).0 + bracket_parts(t).2)
}

/// The choice whose token (with text `title`) is at `start`, and the index
/// after it.
pub open spec fn spec_parse_choice(title: Seq<char>, toks: Seq<Token>, start: int, sticky: bool) -> Option<(SpecChoice, int)> {
    let (condition, written) = choice_condition(title);
    match choice_body(toks, start + 1) {
        Some((lines, divert, n)) => Some(
            (
                SpecChoice {
                    text: offered_text(written),
                    output: shown_text(written),
                    condition,
                    lines,
                    divert,
                    sticky,
                },
                n,
            ),
        ),
        None => None,
    }
}

/// Reading a choice body from `i` on, in `toks` and in `toks` without its
/// tag at `k` (for `k >= i`), from `k + 1` and from `k` on: the same lines
/// and divert, and positions that differ by one.
proof fn lemma_choice_body_shift(toks: Seq<Token>, k: int, i: int)
    requires
        0 <= k < toks.len(),
        k <= i,
    ensures
        choice_body(toks, i + 1) == match choice_body(toks.remove(k), i) {
            Some((ls, d, n)) => Some((ls, d, n + 1)),
            None => None,
        },
    decreases toks.len() - i,
{
    let r = toks.remove(k);
    if i < r.len() {
        assert(r[i] == toks[i + 1]);
        match r[i] {
            Token::Dialog(..) => lemma_choice_body_shift(toks, k, i + 1),
            Token::Tag(_) => lemma_choice_body_shift(toks, k, i + 1),
            _ => {},
        }
    }
}

proof fn lemma_choice_body_without_tag(toks: Seq<Token>, k: int, i: int)
    requires
        0 <= k < toks.len(),
        toks[k] is Tag,
        0 <= i <= k,
    ensures
        match (choice_body(toks, i), choice_body(toks.remove(k), i)) {
            (Some((ls, d, _)), Some((ls2, d2, _))) => ls == ls2 && d == d2,
            (None, None) => true,
            _ => false,
        },
    decreases k - i,
{
    let r = toks.remove(k);
    if i == k {
        lemma_choice_body_shift(toks, k, k);
    } else {
        assert(r[i] == toks[i]);
        match toks[i] {
            Token::Dialog(..) => lemma_choice_body_without_tag(toks, k, i + 1),
            Token::Tag(_) => lemma_choice_body_without_tag(toks, k, i + 1),
            _ => {},
        }
    }
}

/// Tags inside a choice are passed over: reading the choice at `start` gives
/// the same choice (text, lines and divert) as reading it from the tokens
/// without a tag that stands after it.
pub proof fn law_choice_tags_passed_over(title: Seq<char>, toks: Seq<Token>, start: int, sticky: bool, k: int)
    requires
        0 <= start < k < toks.len(),
        toks[k] is Tag,
    ensures
        match (spec_parse_choice(title, toks, start, sticky), spec_parse_choice(title, toks.remove(k), start, sticky)) {
            (Some((c, _)), Some((c2, _))) => c == c2,
            (None, None) => true,
            _ => false,
        },
{
    lemma_choice_body_without_tag(toks, k, start + 1);
}

/// What is known while a knot is read.
pub struct KnotState {
    pub lines: Seq<SpecLine>,
    pub end: SpecKnotEnd,
    pub knot_tags: Seq<Seq<char>>,
    pub tag_buildup: Seq<Seq<char>>,
    pub first_dialog: bool,
    pub stitches: Seq<Seq<char>>,
    pub stitch_knots: Seq<SpecKnot>,
    pub choices: Seq<SpecChoice>,
}

pub open spec fn knot_start() -> KnotState {
    KnotState {
        lines: Seq::empty(),
        end: SpecKnotEnd::Divert(end_title()),
        knot_tags: Seq::empty(),
        tag_buildup: Seq::empty(),
        first_dialog: true,
        stitches: Seq::empty(),
        stitch_knots: Seq::empty(),
        choices: Seq::empty(),
    }
}

/// Reads the tokens of the knot `title` from index `i` on. Tags gather until
/// the next dialog line, which takes them (the first one also gives them to
/// the knot); a divert ends the knot unless a stitch follows; a knot title
/// ends it, and so does a stitch title inside a stitch; a stitch title inside
/// a knot starts the stitch `title.stitch`. `None` for a variable declaration,
/// and for what `spec_parse_choice` refuses.
pub open spec fn knot_loop(title: Seq<char>, toks: Seq<Token>, i: int, is_stitch: bool, st: KnotState) -> Option<(KnotState, int)>
    decreases toks.len() - i, 0int,
{
    if i < 0 || i >= toks.len() {
        Some((st, i))
    } else {
        match toks[i] {
            Token::Dialog(s, _) => {
                let st2 = KnotState {
                    knot_tags: if st.first_dialog { st.tag_buildup } else { st.knot_tags },
                    first_dialog: false,
                    lines: st.lines.push(SpecLine::Dialog(SpecDialogLine { text: s, tags: st.tag_buildup })),
                    tag_buildup: Seq::empty(),
                    ..st
                };
                knot_loop(title, toks, i + 1, is_stitch, st2)
            },
            Token::Tag(s) => knot_loop(title, toks, i + 1, is_stitch, KnotState { tag_buildup: st.tag_buildup.push(s), ..st }),
            Token::Divert(s) => {
                let st2 = KnotState { end: SpecKnotEnd::Divert(s), ..st };
                if i + 1 < toks.len() && toks[i + 1] is StitchTitle {
                    knot_loop(title, toks, i + 1, is_stitch, st2)
                } else {
                    Some((st2, i + 1))
                }
            },
            Token::Choice(s, _) => match spec_parse_choice(s, toks, i, false) {
                Some((c, n)) => if i < n <= toks.len() {
                    knot_loop(title, toks, n, is_stitch, KnotState { choices: st.choices.push(c), ..st })
                } else {
                    None
                },
                None => None,
            },
            Token::StickyChoice(s, _) => match spec_parse_choice(s, toks, i, true) {
                Some((c, n)) => if i < n <= toks.len() {
                    knot_loop(title, toks, n, is_stitch, KnotState { choices: st.choices.push(c), ..st })
                } else {
                    None
                },
                None => None,
            },
            Token::Operation(_) => knot_loop(title, toks, i + 1, is_stitch, st),
            Token::KnotTitle(_) => Some((st, i)),
            Token::StitchTitle(s) => if is_stitch {
                Some((st, i))
            } else {
                match parse_knot_spec(dotted(title, s), toks, i + 1, true) {
                    Some((ks, n)) => if i < n <= toks.len() {
                        knot_loop(
                            title,
                            toks,
                            n,
                            is_stitch,
                            KnotState { stitches: st.stitches.push(s), stitch_knots: st.stitch_knots + ks, ..st },
                        )
                    } else {
                        None
                    },
                    None => None,
                }
            },
            Token::VariableDeclaration(_) => None,
        }
    }
}

/// A divert inside knot `title` that names one of its stitches (without a
/// `.`) goes to `title.stitch`.
pub open spec fn justify(d: Seq<char>, title: Seq<char>, stitches: Seq<Seq<char>>) -> Seq<char> {
    if !d.contains('.') && stitches.contains(d) {
        dotted(title, d)
    } else {
        d
    }
}

pub open spec fn justify_choice(c: SpecChoice, title: Seq<char>, stitches: Seq<Seq<char>>) -> SpecChoice {
    SpecChoice {
        text: c.text,
        output: c.output,
        condition: c.condition,
        lines: c.lines,
        divert: justify(c.divert, title, stitches),
        sticky: c.sticky,
    }
}

pub open spec fn justify_knot(k: SpecKnot, title: Seq<char>, stitches: Seq<Seq<char>>) -> SpecKnot {
    SpecKnot {
        end: match k.end {
            SpecKnotEnd::Divert(d) => SpecKnotEnd::Divert(justify(d, title, stitches)),
            SpecKnotEnd::Choices(cs) => SpecKnotEnd::Choices(
                cs.map_values(|c: SpecChoice| justify_choice(c, title, stitches)),
            ),
        },
        ..k
    }
}

/// The knot `title` and its stitches, once all its tokens are read: choices
/// end the knot if it has any, or else it goes on to its first stitch.
pub open spec fn finish_knot(title: Seq<char>, st: KnotState) -> Seq<SpecKnot> {
    let end = if st.choices.len() > 0 {
        SpecKnotEnd::Choices(st.choices)
    } else if st.stitches.len() > 0 {
        SpecKnotEnd::Divert(dotted(title, st.stitches[0]))
    } else {
        st.end
    };
    seq![SpecKnot { title, lines: st.lines, end, knot_tags: st.knot_tags }] + st.stitch_knots.map_values(
        |k: SpecKnot| justify_knot(k, title, st.stitches),
    )
}

/// The knot `title` (and its stitches) read from the token at `start` on,
/// and the index of the first token after it.
pub open spec fn parse_knot_spec(title: Seq<char>, toks: Seq<Token>, start: int, is_stitch: bool) -> Option<(Seq<SpecKnot>, int)>
    decreases toks.len() - start, 1int,
{
    match knot_loop(title, toks, start, is_stitch, knot_start()) {
        Some((st, n)) => Some((finish_knot(title, st), n)),
        None => None,
    }
}

/// The first index of a knot titled `t`.
pub open spec fn knot_index(ks: Seq<SpecKnot>, t: Seq<char>) -> Option<int>
    decreases ks.len(),
{
    if ks.len() == 0 {
        None
    } else if ks.last().title == t {
        match knot_index(ks.drop_last(), t) {
            Some(j) => Some(j),
            None => Some(ks.len() - 1),
        }
    } else {
        knot_index(ks.drop_last(), t)
    }
}

/// `ks` with `k` put in: in place of the knot with the same title, or at the end.
pub open spec fn insert_knot(ks: Seq<SpecKnot>, k: SpecKnot) -> Seq<SpecKnot> {
    match knot_index(ks, k.title) {
        Some(j) => ks.update(j, k),
        None => ks.push(k),
    }
}

/// `ks` with every knot of `new` put in, in order.
pub open spec fn insert_knots(ks: Seq<SpecKnot>, new: Seq<SpecKnot>) -> Seq<SpecKnot>
    decreases new.len(),
{
    if new.len() == 0 {
        ks
    } else {
        insert_knots(insert_knot(ks, new[0]), new.drop_first())
    }
}

/// The first index of a variable named `name`.
pub open spec fn variable_index(vs: Seq<(Seq<char>, SpecValue)>, name: Seq<char>) -> Option<int>
    decreases vs.len(),
{
    if vs.len() == 0 {
        None
    } else if vs.last().0 == name {
        match variable_index(vs.drop_last(), name) {
            Some(j) => Some(j),
            None => Some(vs.len() - 1),
        }
    } else {
        variable_index(vs.drop_last(), name)
    }
}

/// `vs` with the variable `name` set to `v`: in place, or at the end.
pub open spec fn insert_variable(vs: Seq<(Seq<char>, SpecValue)>, name: Seq<char>, v: SpecValue) -> Seq<(Seq<char>, SpecValue)> {
    match variable_index(vs, name) {
        Some(j) => vs.update(j, (name, v)),
        None => vs.push((name, v)),
    }
}

/// What is known while the top of a story (before and between its knots) is read.
pub struct TopState {
    pub variables: Seq<(Seq<char>, SpecValue)>,
    pub knots: Seq<SpecKnot>,
    pub global_tags: Seq<Seq<char>>,
    pub lines: Seq<SpecLine>,
    pub divert: Option<Seq<char>>,
    pub choices: Seq<SpecChoice>,
    pub tags: Seq<Seq<char>>,
}

pub open spec fn top_start() -> TopState {
    TopState {
        variables: Seq::empty(),
        knots: Seq::empty(),
        global_tags: Seq::empty(),
        lines: Seq::empty(),
        divert: None,
        choices: Seq::empty(),
        tags: Seq::empty(),
    }
}

/// `lines` with the tag `t` added to its last line.
pub open spec fn tag_last_line(lines: Seq<SpecLine>, t: Seq<char>) -> Option<Seq<SpecLine>> {
    match lines.last() {
        SpecLine::Dialog(d) => Some(
            lines.update(lines.len() - 1, SpecLine::Dialog(SpecDialogLine { tags: d.tags.push(t), ..d })),
        ),
        SpecLine::Operation => None,
    }
}

/// Reads the top of a story from token `i` on. Variable declarations set
/// global variables; tags before the first line are global tags (and tags of
/// the first line and of the opening knot), later ones go to the line before
/// them; a knot title reads a knot (the first one is where the opening goes
/// on, unless it has a divert or choices). `None` for a stitch title or an
/// operation outside a knot, a declaration without `=` or with a value that
/// `spec_variable_value` refuses, and for what reading a knot or a choice
/// refuses.
pub open spec fn top_loop(toks: Seq<Token>, i: int, st: TopState) -> Option<TopState>
    decreases toks.len() - i,
{
    if i < 0 || i >= toks.len() {
        Some(st)
    } else {
        match toks[i] {
            Token::VariableDeclaration(s) => match cut_at(s, seq!['=']) {
                Some((name, value)) => match spec_variable_value(value) {
                    Some(v) => top_loop(
                        toks,
                        i + 1,
                        TopState { variables: insert_variable(st.variables, trim(name), v), ..st },
                    ),
                    None => None,
                },
                None => None,
            },
            Token::Dialog(s, _) => {
                let tags = if st.lines.len() == 0 { st.tags } else { Seq::empty() };
                let line = SpecLine::Dialog(SpecDialogLine { text: s, tags });
                top_loop(toks, i + 1, TopState { lines: st.lines.push(line), ..st })
            },
            Token::KnotTitle(s) => match parse_knot_spec(s, toks, i + 1, false) {
                Some((ks, n)) => if i < n <= toks.len() {
                    let divert = if st.choices.len() == 0 && st.divert is None {
                        Some(s)
                    } else {
                        st.divert
                    };
                    top_loop(toks, n, TopState { knots: insert_knots(st.knots, ks), divert, ..st })
                } else {
                    None
                },
                None => None,
            },
            Token::Divert(s) => top_loop(toks, i + 1, TopState { divert: Some(s), ..st }),
            Token::Choice(s, _) => match spec_parse_choice(s, toks, i, false) {
                Some((c, n)) => if i < n <= toks.len() {
                    top_loop(toks, n, TopState { choices: st.choices.push(c), ..st })
                } else {
                    None
                },
                None => None,
            },
            Token::StickyChoice(s, _) => match spec_parse_choice(s, toks, i, true) {
                Some((c, n)) => if i < n <= toks.len() {
                    top_loop(toks, n, TopState { choices: st.choices.push(c), ..st })
                } else {
                    None
                },
                None => None,
            },
            Token::Tag(s) => if st.lines.len() == 0 {
                top_loop(
                    toks,
                    i + 1,
                    TopState { tags: st.tags.push(s), global_tags: st.global_tags.push(s), ..st },
                )
            } else {
                match tag_last_line(st.lines, s) {
                    Some(lines) => top_loop(toks, i + 1, TopState { lines, ..st }),
                    None => None,
                }
            },
            Token::StitchTitle(_) => None,
            Token::Operation(_) => None,
        }
    }
}

/// The opening knot `__INTRO__`: the lines before the first knot, ending with
/// the divert, else the choices, else `END`.
pub open spec fn intro_knot(st: TopState) -> SpecKnot {
    SpecKnot {
        title: intro_title(),
        lines: st.lines,
        end: match st.divert {
            Some(d) => SpecKnotEnd::Divert(d),
            None => if st.choices.len() == 0 {
                SpecKnotEnd::Divert(end_title())
            } else {
                SpecKnotEnd::Choices(st.choices)
            },
        },
        knot_tags: st.tags,
    }
}

/// The story that the tokens give, if they give one.
pub open spec fn spec_parse(toks: Seq<Token>) -> Option<SpecStory> {
    match top_loop(toks, 0, top_start()) {
        Some(st) => Some(
            SpecStory {
                variables: st.variables,
                knots: insert_knot(st.knots, intro_knot(st)),
                global_tags: st.global_tags,
            },
        ),
        None => None,
    }
}

// ---------------------------------------------------------------------------
// Reading values and tags
// ---------------------------------------------------------------------------

/// The text of an optional string.
pub open spec fn opt_text(o: Option<String>) -> Option<Seq<char>> {
    match o {
        Some(s) => Some(s@),
        None => None,
    }
}

/// The value of a tag of the form `key value`: the rest after `key`, trimmed.
pub open spec fn tag_value(tag: Seq<char>, key: Seq<char>) -> Option<Seq<char>> {
    if starts_with(tag, key) {
        Some(trim(tag.skip(key.len() as int)))
    } else {
        None
    }
}

fn tag_value_of(tag: &str, key: &Vec<char>) -> (r: Option<String>)
    ensures
        opt_text(r) == tag_value(tag@, key@),
{
    let v = chars_of(tag);
    assert(v@.subrange(0, v.len() as int) == v@);
    if range_starts_with(&v, 0, v.len(), key) {
        let (a, b) = trim_at(&v, key.len(), v.len());
        assert(v@.skip(key.len() as int) == v@.subrange(key.len() as int, v.len() as int));
        Some(string_of_range(&v, a, b))
    } else {
        None
    }
}

/// The author named by a tag `author: name`.
pub fn get_author_from_tag(tag: &str) -> (r: Option<String>)
    ensures
        opt_text(r) == tag_value(tag@, seq!['a', 'u', 't', 'h', 'o', 'r', ':']),
{
    let key = vec!['a', 'u', 't', 'h', 'o', 'r', ':'];
    assert(key@ == seq!['a', 'u', 't', 'h', 'o', 'r', ':']);
    tag_value_of(tag, &key)
}

/// The title named by a tag `title: name`.
pub fn get_title_from_tag(tag: &str) -> (r: Option<String>)
    ensures
        opt_text(r) == tag_value(tag@, seq!['t', 'i', 't', 'l', 'e', ':']),
{
    let key = vec!['t', 'i', 't', 'l', 'e', ':'];
    assert(key@ == seq!['t', 'i', 't', 'l', 'e', ':']);
    tag_value_of(tag, &key)
}

fn char_is_digit(c: char) -> (r: bool)
    ensures
        r == is_digit(c),
{
    let u = c as u32;
    48 <= u && u <= 57
}

/// Decimal digits have a value of at least zero.
pub(crate) proof fn lemma_digits_nonneg(d: Seq<char>)
    requires
        all_digits(d),
    ensures
        digits_value(d) >= 0,
    decreases d.len(),
{
    if d.len() > 0 {
        assert(is_digit(d[d.len() - 1]));
        assert(all_digits(d.drop_last())) by {
            assert forall|i: int| 0 <= i < d.drop_last().len() implies is_digit(#[trigger] d.drop_last()[i]) by {
                assert(is_digit(d[i]));
            }
        }
        lemma_digits_nonneg(d.drop_last());
    }
}

/// `v[lo..hi]` is all ASCII digits.
pub(crate) fn all_digits_at(v: &Vec<char>, lo: usize, hi: usize) -> (r: bool)
    requires
        lo <= hi <= v.len(),
    ensures
        r == all_digits(v@.subrange(lo as int, hi as int)),
{
    let mut i = lo;
    while i < hi
        invariant
            lo <= i <= hi <= v.len(),
            forall|j: int| lo <= j < i ==> is_digit(#[trigger] v@[j]),
        decreases hi - i,
    {
        if !char_is_digit(v[i]) {
            assert(!is_digit(v@.subrange(lo as int, hi as int)[i - lo]));
            return false;
        }
        i = i + 1;
    }
    assert forall|j: int| 0 <= j < hi - lo implies is_digit(#[trigger] v@.subrange(lo as int, hi as int)[j]) by {
        assert(is_digit(v@[lo + j]));
    }
    true
}

/// `str::parse::<i32>` on `v[lo..hi]`.
fn parse_i32_at(v: &Vec<char>, lo: usize, hi: usize) -> (r: Option<i32>)
    requires
        lo <= hi <= v.len(),
    ensures
        r == spec_parse_i32(v@.subrange(lo as int, hi as int)),
{
    let ghost t = v@.subrange(lo as int, hi as int);
    if lo == hi {
        return None;
    }
    let neg = v[lo] == '-';
    let start = if v[lo] == '-' || v[lo] == '+' { lo + 1 } else { lo };
    assert(t.skip(1) == v@.subrange(lo + 1, hi as int));
    assert(start == lo ==> t == v@.subrange(start as int, hi as int));
    if start == hi {
        return None;
    }
    if !all_digits_at(v, start, hi) {
        return None;
    }
    let cap: u64 = 2147483649;
    let mut acc: u64 = 0;
    let mut i = start;
    assert(v@.subrange(start as int, start as int) == Seq::<char>::empty());
    while i < hi
        invariant
            lo <= start <= i <= hi <= v.len(),
            all_digits(v@.subrange(start as int, hi as int)),
            acc <= cap,
            cap == 2147483649,
            acc == (if digits_value(v@.subrange(start as int, i as int)) < cap {
                digits_value(v@.subrange(start as int, i as int))
            } else {
                cap as int
            }),
        decreases hi - i,
    {
        assert(is_digit(v@.subrange(start as int, hi as int)[i - start]));
        let d = (v[i] as u32 - 48) as u64;
        assert(v@.subrange(start as int, i + 1).drop_last() == v@.subrange(start as int, i as int));
        let ghost x = digits_value(v@.subrange(start as int, i as int));
        assert(digits_value(v@.subrange(start as int, i + 1)) == x * 10 + d);
        if acc >= cap {
            acc = cap;
        } else {
            let next = acc * 10 + d;
            acc = if next < cap { next } else { cap };
        }
        i = i + 1;
    }
    assert(v@.subrange(start as int, hi as int) == if start == lo { t } else { t.skip(1) });
    proof {
        lemma_digits_nonneg(v@.subrange(start as int, hi as int));
    }
    if neg {
        if acc <= 2147483648 {
            Some((0i64 - acc as i64) as i32)
        } else {
            None
        }
    } else {
        if acc <= 2147483647 {
            Some(acc as i32)
        } else {
            None
        }
    }
}

/// The start of `v[lo..hi]` once one leading sign is skipped.
fn unsigned_at(v: &Vec<char>, lo: usize, hi: usize) -> (r: usize)
    requires
        lo <= hi <= v.len(),
    ensures
        lo <= r <= hi,
        v@.subrange(r as int, hi as int) == unsigned(v@.subrange(lo as int, hi as int)),
{
    if lo < hi && (v[lo] == '+' || v[lo] == '-') {
        assert(v@.subrange(lo as int, hi as int).skip(1) == v@.subrange(lo + 1, hi as int));
        lo + 1
    } else {
        lo
    }
}

/// `v[lo..hi]` equals `word` (small letters; `upper` holds them as capitals)
/// ignoring ASCII case.
fn equals_ignoring_case_at(v: &Vec<char>, lo: usize, hi: usize, word: &Vec<char>, upper: &Vec<char>) -> (r: bool)
    requires
        lo <= hi <= v.len(),
        word.len() == upper.len(),
        forall|i: int| 0 <= i < word.len() ==> 97 <= (#[trigger] word@[i] as u32) <= 122 && upper@[i] as u32 + 32 == word@[i] as u32,
    ensures
        r == equals_ignoring_case(v@.subrange(lo as int, hi as int), word@),
{
    if hi - lo != word.len() {
        return false;
    }
    let mut i: usize = 0;
    while i < word.len()
        invariant
            0 <= i <= word.len() == hi - lo,
            lo <= hi <= v.len(),
            word.len() == upper.len(),
            forall|i: int| 0 <= i < word.len() ==> 97 <= (#[trigger] word@[i] as u32) <= 122 && upper@[i] as u32 + 32 == word@[i] as u32,
            forall|j: int| 0 <= j < i ==> lower_code(#[trigger] v@[lo + j]) == word@[j] as u32 as int,
        decreases word.len() - i,
    {
        let c = v[lo + i] as u32;
        assert(97 <= (word@[i as int] as u32) <= 122);
        if c != word[i] as u32 && c != upper[i] as u32 {
            assert(lower_code(v@.subrange(lo as int, hi as int)[i as int]) != word@[i as int] as u32 as int);
            return false;
        }
        i = i + 1;
    }
    assert forall|j: int| 0 <= j < hi - lo implies lower_code(#[trigger] v@.subrange(lo as int, hi as int)[j]) == word@[j] as u32 as int by {
        assert(lower_code(v@[lo + j]) == word@[j] as u32 as int);
    }
    true
}

/// Digits with at most one `.`, and at least one digit, in `v[lo..hi]`.
fn mantissa_syntax_at(v: &Vec<char>, lo: usize, hi: usize) -> (r: bool)
    requires
        lo <= hi <= v.len(),
    ensures
        r == mantissa_syntax(v@.subrange(lo as int, hi as int)),
{
    match find_char_at(v, lo, hi, '.') {
        Some(k) => {
            assert(v@.subrange(lo as int, hi as int).take(k - lo) == v@.subrange(lo as int, k as int));
            assert(v@.subrange(lo as int, hi as int).skip(k - lo + 1) == v@.subrange(k + 1, hi as int));
            all_digits_at(v, lo, k) && all_digits_at(v, k + 1, hi) && (k - lo) + (hi - (k + 1)) > 0
        },
        None => all_digits_at(v, lo, hi) && hi > lo,
    }
}

/// `str::parse::<f32>` accepts `v[lo..hi]`.
fn parses_as_f32_at(v: &Vec<char>, lo: usize, hi: usize) -> (r: bool)
    requires
        lo <= hi <= v.len(),
    ensures
        r == parses_as_f32(v@.subrange(lo as int, hi as int)),
{
    let b = unsigned_at(v, lo, hi);
    let inf = vec!['i', 'n', 'f'];
    let inf_up = vec!['I', 'N', 'F'];
    let infinity = vec!['i', 'n', 'f', 'i', 'n', 'i', 't', 'y'];
    let infinity_up = vec!['I', 'N', 'F', 'I', 'N', 'I', 'T', 'Y'];
    let nan = vec!['n', 'a', 'n'];
    let nan_up = vec!['N', 'A', 'N'];
    assert(inf@ == seq!['i', 'n', 'f']);
    assert(infinity@ == seq!['i', 'n', 'f', 'i', 'n', 'i', 't', 'y']);
    assert(nan@ == seq!['n', 'a', 'n']);
    if equals_ignoring_case_at(v, b, hi, &inf, &inf_up) || equals_ignoring_case_at(v, b, hi, &infinity, &infinity_up)
        || equals_ignoring_case_at(v, b, hi, &nan, &nan_up) {
        return true;
    }
    let ghost bs = v@.subrange(b as int, hi as int);
    let mut i = b;
    while i < hi && (v[i] as u32) != 101 && (v[i] as u32) != 69
        invariant
            b <= i <= hi <= v.len(),
            bs == v@.subrange(b as int, hi as int),
            exponent_mark(bs) == match exponent_mark(v@.subrange(i as int, hi as int)) {
                Some(k) => Some(k + (i - b)),
                None => None,
            },
        decreases hi - i,
    {
        assert(v@.subrange(i as int, hi as int).drop_first() == v@.subrange(i + 1, hi as int));
        i = i + 1;
    }
    if i < hi {
        assert(exponent_mark(v@.subrange(i as int, hi as int)) == Some(0int));
        assert(bs.take(i - b) == v@.subrange(b as int, i as int));
        assert(bs.skip(i - b + 1) == v@.subrange(i + 1, hi as int));
        let e = unsigned_at(v, i + 1, hi);
        mantissa_syntax_at(v, b, i) && all_digits_at(v, e, hi) && hi > e
    } else {
        assert(v@.subrange(i as int, hi as int).len() == 0);
        mantissa_syntax_at(v, b, hi)
    }
}

/// Reads the value of a variable declaration (the text after its `=`);
/// `None` where it is none of the values that `spec_variable_value` names.
fn parse_variable_value(s: &str) -> (r: Option<VariableValue>)
    ensures
        match r {
            Some(x) => spec_variable_value(s@) == Some(x@),
            None => spec_variable_value(s@) is None,
        },
{
    let v = chars_of(s);
    let n = v.len();
    assert(v@.subrange(0, n as int) == v@);
    let (a, b) = trim_at(&v, 0, n);
    match parse_i32_at(&v, a, b) {
        Some(i) => Some(VariableValue::Int(i)),
        None => {
            if parses_as_f32_at(&v, a, b) {
                Some(VariableValue::Float(string_of_range(&v, a, b)))
            } else if b - a >= 2 && v[a] == '-' && v[a + 1] == '>' {
                assert(v@.subrange(a as int, b as int).take(2) == seq!['-', '>']);
                assert(v@.subrange(a as int, b as int).skip(2) == v@.subrange(a + 2, b as int));
                let (c, d) = trim_at(&v, a + 2, b);
                Some(VariableValue::Address(string_of_range(&v, c, d)))
            } else {
                assert(!starts_with(v@.subrange(a as int, b as int), seq!['-', '>'])) by {
                    if b - a >= 2 {
                        assert(v@.subrange(a as int, b as int).take(2)[0] == v@[a as int]);
                        assert(v@.subrange(a as int, b as int).take(2)[1] == v@[a + 1]);
                    }
                }
                if b - a >= 2 && v[a] == '"' && v[b - 1] == '"' {
                    assert(v@.subrange(a as int, b as int).subrange(1, b - a - 1) == v@.subrange(a + 1, b - 1));
                    Some(VariableValue::Content(string_of_range(&v, a + 1, b - 1)))
                } else {
                    None
                }
            }
        },
    }
}

// ---------------------------------------------------------------------------
// Reading knots and choices
// ---------------------------------------------------------------------------

/// The string `END`.
pub(crate) fn end_string() -> (r: String)
    ensures
        r@ == end_title(),
{
    let v = vec!['E', 'N', 'D'];
    assert(v@.subrange(0, 3) == end_title());
    string_of_range(&v, 0, 3)
}

/// The string `__INTRO__`.
pub(crate) fn intro_string() -> (r: String)
    ensures
        r@ == intro_title(),
{
    let v = vec!['_', '_', 'I', 'N', 'T', 'R', 'O', '_', '_'];
    assert(v@.subrange(0, 9) == intro_title());
    string_of_range(&v, 0, 9)
}

/// Pushes a line and keeps the values in step.
fn push_line<'a>(lines: &mut Vec<Line<'a>>, l: Line<'a>)
    ensures
        lines_view(final(lines)@) == lines_view(old(lines)@).push(l@),
{
    lines.push(l);
    assert(lines_view(lines@) == lines_view(old(lines)@).push(l@));
}

/// A dialog line without tags.
fn plain_line<'a>(s: &'a str) -> (r: Line<'a>)
    ensures
        r@ == SpecLine::Dialog(SpecDialogLine { text: s@, tags: Seq::empty() }),
{
    let d = DialogLine { text: s, tags: Vec::new() };
    assert(strs_view(d.tags@) == Seq::<Seq<char>>::empty());
    Line::Dialog(d)
}

/// `trim(v[lo1..hi1] + v[lo2..hi2])`: a piece of `text` (whose characters
/// `v` holds) where one of the two parts is empty, else a new string kept for
/// the rest of the program.
fn joined_trimmed<'a>(text: &'a str, v: &Vec<char>, lo1: usize, hi1: usize, lo2: usize, hi2: usize) -> (r: &'a str)
    requires
        v@ == text@,
        lo1 <= hi1 <= v.len(),
        lo2 <= hi2 <= v.len(),
    ensures
        r@ == trim(v@.subrange(lo1 as int, hi1 as int) + v@.subrange(lo2 as int, hi2 as int)),
{
    if lo2 == hi2 {
        assert(v@.subrange(lo1 as int, hi1 as int) + v@.subrange(lo2 as int, hi2 as int) =~= v@.subrange(lo1 as int, hi1 as int));
        let (a, b) = trim_at(v, lo1, hi1);
        text.substring_char(a, b)
    } else if lo1 == hi1 {
        assert(v@.subrange(lo1 as int, hi1 as int) + v@.subrange(lo2 as int, hi2 as int) =~= v@.subrange(lo2 as int, hi2 as int));
        let (a, b) = trim_at(v, lo2, hi2);
        text.substring_char(a, b)
    } else {
        let mut w: Vec<char> = Vec::new();
        append_range(&mut w, v, lo1, hi1);
        append_range(&mut w, v, lo2, hi2);
        assert(w@ =~= v@.subrange(lo1 as int, hi1 as int) + v@.subrange(lo2 as int, hi2 as int));
        assert(w@.subrange(0, w.len() as int) == w@);
        let (a, b) = trim_at(&w, 0, w.len());
        leak_text(string_of_range(&w, a, b))
    }
}

/// The condition that a choice text starts with, and the rest of the text
/// (see `choice_condition`).
fn split_condition<'a>(title: &'a str) -> (r: (Option<&'a str>, &'a str))
    ensures
        (
            match r.0 {
                Some(c) => Some(c@),
                None => None,
            },
            r.1@,
        ) == choice_condition(title@),
{
    let v = chars_of(title);
    let n = v.len();
    if n > 0 && v[0] == '{' {
        assert(v@.subrange(0, n as int) == v@);
        match find_char_at(&v, 0, n, '}') {
            Some(k) => {
                assert(v@.take(k as int).skip(1) == v@.subrange(1, k as int));
                assert(v@.skip(k + 1) == v@.subrange(k + 1, n as int));
                let (a, b) = trim_at(&v, 1, k);
                let (c, d) = trim_at(&v, k + 1, n);
                (Some(title.substring_char(a, b)), title.substring_char(c, d))
            },
            None => (None, title),
        }
    } else {
        (None, title)
    }
}

/// The text that a choice written `written` offers and the line it shows
/// once taken (see `offered_text` and `shown_text`).
fn choice_texts<'a>(written: &'a str) -> (r: (&'a str, &'a str))
    ensures
        r.0@ == offered_text(written@),
        r.1@ == shown_text(written@),
{
    let wv = chars_of(written);
    let n = wv.len();
    assert(wv@.subrange(0, n as int) == wv@);
    assert(wv@ + Seq::<char>::empty() == wv@);
    match find_char_at(&wv, 0, n, '[') {
        Some(i) => {
            proof {
                lemma_cut_range(wv@, 0, n as int, seq!['['], i as int);
            }
            match find_char_at(&wv, i + 1, n, ']') {
                Some(j) => {
                    proof {
                        lemma_cut_range(wv@, i + 1, n as int, seq![']'], j as int);
                    }
                    (joined_trimmed(written, &wv, 0, i, i + 1, j), joined_trimmed(written, &wv, 0, i, j + 1, n))
                },
                None => {
                    let t = joined_trimmed(written, &wv, 0, n, n, n);
                    (t, t)
                },
            }
        },
        None => {
            let t = joined_trimmed(written, &wv, 0, n, n, n);
            (t, t)
        },
    }
}

/// Reads the choice whose token (with text `title`) is at `start`; gives the
/// choice and the index of the first token after it, or `None` where a token
/// that cannot stand in a choice follows it.
fn parse_choice<'a>(title: &'a str, tokens: &[InkToken<'a>], start: usize, sticky: bool) -> (r: Option<(Choice<'a>, usize)>)
    requires
        start < tokens.len(),
    ensures
        match r {
            Some((c, n)) => spec_parse_choice(title@, tokens_view(tokens@), start as int, sticky) == Some((c@, n as int))
                && start < n <= tokens.len(),
            None => spec_parse_choice(title@, tokens_view(tokens@), start as int, sticky) is None,
        },
{
    let ghost toks = tokens_view(tokens@);
    let (condition, written) = split_condition(title);
    let (text, output) = choice_texts(written);
    let mut lines: Vec<Line<'a>> = Vec::new();
    let mut divert: Option<&'a str> = None;
    let mut i = start + 1;
    assert(lines_view(lines@) == Seq::<SpecLine>::empty());
    assert(choice_body(toks, start + 1) == match choice_body(toks, i as int) {
        Some((ls, d, m)) => Some((lines_view(lines@) + ls, d, m)),
        None => None,
    }) by {
        if let Some((ls, d, m)) = choice_body(toks, i as int) {
            assert(lines_view(lines@) + ls == ls);
        }
    }
    while i < tokens.len()
        invariant_except_break
            start < i <= tokens.len(),
            toks == tokens_view(tokens@),
            divert is None,
            choice_body(toks, start + 1) == match choice_body(toks, i as int) {
                Some((ls, d, m)) => Some((lines_view(lines@) + ls, d, m)),
                None => None,
            },
        ensures
            start < i <= tokens.len(),
            choice_body(toks, start + 1) == Some((
                lines_view(lines@),
                match divert {
                    Some(d) => d@,
                    None => end_title(),
                },
                i as int,
            )),
        decreases tokens.len() - i,
    {
        assert(toks[i as int] == tokens@[i as int]@);
        match tokens[i] {
            InkToken::Dialog((s, _)) => {
                let ghost l0 = lines_view(lines@);
                push_line(&mut lines, plain_line(s));
                assert(choice_body(toks, start + 1) == match choice_body(toks, i + 1) {
                    Some((ls, d, m)) => Some((lines_view(lines@) + ls, d, m)),
                    None => None,
                }) by {
                    if let Some((ls, d, m)) = choice_body(toks, i + 1) {
                        assert(l0 + (seq![SpecLine::Dialog(SpecDialogLine { text: s@, tags: Seq::empty() })] + ls)
                            == lines_view(lines@) + ls);
                    }
                }
                i = i + 1;
            },
            InkToken::Tag(_) => {
                i = i + 1;
            },
            InkToken::Divert(s) => {
                assert(lines_view(lines@) + Seq::<SpecLine>::empty() == lines_view(lines@));
                divert = Some(s);
                i = i + 1;
                break ;
            },
            InkToken::Choice(_) => {
                assert(lines_view(lines@) + Seq::<SpecLine>::empty() == lines_view(lines@));
                break ;
            },
            InkToken::StickyChoice(_) => {
                assert(lines_view(lines@) + Seq::<SpecLine>::empty() == lines_view(lines@));
                break ;
            },
            _ => {
                return None;
            },
        }
    }
    if i >= tokens.len() && divert.is_none() {
        assert(lines_view(lines@) + Seq::<SpecLine>::empty() == lines_view(lines@));
    }
    let knot_title = match divert {
        Some(d) => string_of_str(d),
        None => end_string(),
    };
    let choice = Choice { text, output, condition, lines, divert: Divert { knot_title }, sticky };
    Some((choice, i))
}

/// A copy of a list of string slices.
pub(crate) fn copy_strs<'a>(v: &Vec<&'a str>) -> (r: Vec<&'a str>)
    ensures
        r@ == v@,
{
    let mut r: Vec<&'a str> = Vec::new();
    let mut i: usize = 0;
    while i < v.len()
        invariant
            0 <= i <= v.len(),
            r@ == v@.take(i as int),
        decreases v.len() - i,
    {
        r.push(v[i]);
        assert(v@.take(i + 1) == v@.take(i as int).push(v@[i as int]));
        i = i + 1;
    }
    assert(v@.take(v.len() as int) == v@);
    r
}

/// The string `a.b`.
fn dotted_string(a: &str, b: &str) -> (r: String)
    ensures
        r@ == dotted(a@, b@),
{
    let mut r = string_of_str(a);
    push_char(&mut r, '.');
    push_str(&mut r, b);
    r
}

/// The text has a `.` in it.
fn has_dot(s: &String) -> (r: bool)
    ensures
        r == s@.contains('.'),
{
    let v = chars_of(s.as_str());
    let mut i: usize = 0;
    while i < v.len()
        invariant
            0 <= i <= v.len(),
            v@ == s@,
            forall|j: int| 0 <= j < i ==> v@[j] != '.',
        decreases v.len() - i,
    {
        if v[i] == '.' {
            return true;
        }
        i = i + 1;
    }
    false
}

/// One of `names` has the text of `s`.
fn names_contain(names: &Vec<&str>, s: &String) -> (r: bool)
    ensures
        r == strs_view(names@).contains(s@),
{
    let mut i: usize = 0;
    while i < names.len()
        invariant
            0 <= i <= names.len(),
            forall|j: int| 0 <= j < i ==> (#[trigger] names@[j])@ != s@,
        decreases names.len() - i,
    {
        if str_equal(names[i], s.as_str()) {
            assert(strs_view(names@)[i as int] == s@);
            return true;
        }
        i = i + 1;
    }
    assert forall|j: int| 0 <= j < strs_view(names@).len() implies strs_view(names@)[j] != s@ by {
        assert(names@[j]@ != s@);
    }
    false
}

/// A divert inside knot `title` that names one of its stitches goes to that stitch.
fn justify_divert(d: Divert, title: &String, stitches: &Vec<&str>) -> (r: Divert)
    ensures
        r@ == justify(d@, title@, strs_view(stitches@)),
{
    if !has_dot(&d.knot_title) && names_contain(stitches, &d.knot_title) {
        Divert { knot_title: dotted_string(title.as_str(), d.knot_title.as_str()) }
    } else {
        d
    }
}

/// `justify_knot` on an actual knot.
fn justify_stitch<'a>(k: Knot<'a>, title: &String, stitches: &Vec<&str>) -> (r: Knot<'a>)
    ensures
        r@ == justify_knot(k@, title@, strs_view(stitches@)),
{
    let Knot { title: kt, lines, end, knot_tags } = k;
    let end2 = match end {
        KnotEnd::Divert(d) => KnotEnd::Divert(justify_divert(d, title, stitches)),
        KnotEnd::Choices(cs) => {
            let ghost old_cs = choices_view(cs@);
            let mut cs = cs;
            let mut out: Vec<Choice<'a>> = Vec::new();
            let ghost n = cs.len();
            let ghost tt = title@;
            let ghost ss = strs_view(stitches@);
            while cs.len() > 0
                invariant
                    out.len() + cs.len() == n,
                    old_cs.len() == n,
                    tt == title@,
                    ss == strs_view(stitches@),
                    choices_view(cs@) == old_cs.skip(out.len() as int),
                    choices_view(out@) == old_cs.take(out.len() as int).map_values(|c: SpecChoice| justify_choice(c, tt, ss)),
                decreases cs.len(),
            {
                let ghost k = out.len();
                let ghost before = cs@;
                let c = cs.remove(0);
                assert(choices_view(before)[0] == old_cs.skip(k as int)[0]);
                let ghost cv = c@;
                assert(cv == old_cs[k as int]);
                assert(choices_view(cs@) == choices_view(before).skip(1));
                assert(old_cs.skip(k as int).skip(1) == old_cs.skip(k + 1));
                let Choice { text, output, condition, lines, divert, sticky } = c;
                let c2 = Choice {
                    text,
                    output,
                    condition,
                    lines,
                    divert: justify_divert(divert, title, stitches),
                    sticky,
                };
                assert(c2@ == justify_choice(cv, tt, ss));
                let ghost out0 = out@;
                out.push(c2);
                assert(choices_view(out@) =~= choices_view(out0).push(c2@));
                assert(old_cs.take(k + 1).map_values(|c: SpecChoice| justify_choice(c, tt, ss)) =~= old_cs.take(k as int).map_values(|c: SpecChoice| justify_choice(c, tt, ss)).push(
                    justify_choice(old_cs[k as int], tt, ss),
                ));
            }
            assert(old_cs.take(n as int) == old_cs);
            KnotEnd::Choices(out)
        },
    };
    Knot { title: kt, lines, end: end2, knot_tags }
}

impl<'a> Knot<'a> {
    /// An empty knot with the given title that goes on to `END`.
    fn new(s: &str) -> (r: Self)
        ensures
            r@ == (SpecKnot {
                title: s@,
                lines: Seq::empty(),
                end: SpecKnotEnd::Divert(end_title()),
                knot_tags: Seq::empty(),
            }),
    {
        let r = Knot {
            title: string_of_str(s),
            lines: Vec::new(),
            end: KnotEnd::Divert(Divert { knot_title: end_string() }),
            knot_tags: Vec::new(),
        };
        assert(lines_view(r.lines@) == Seq::<SpecLine>::empty());
        assert(strs_view(r.knot_tags@) == Seq::<Seq<char>>::empty());
        r
    }
}

/// The value of the state of a knot being read.
pub open spec fn knot_state_view<'a>(
    lines: Seq<Line<'a>>,
    end: KnotEnd<'a>,
    knot_tags: Seq<&'a str>,
    tag_buildup: Seq<&'a str>,
    first_dialog: bool,
    stitches: Seq<&'a str>,
    stitch_knots: Seq<Knot<'a>>,
    choices: Seq<Choice<'a>>,
) -> KnotState {
    KnotState {
        lines: lines_view(lines),
        end: end@,
        knot_tags: strs_view(knot_tags),
        tag_buildup: strs_view(tag_buildup),
        first_dialog,
        stitches: strs_view(stitches),
        stitch_knots: knots_view(stitch_knots),
        choices: choices_view(choices),
    }
}

/// Pushes a string slice and keeps the values in step.
pub(crate) fn push_str_ref<'a>(v: &mut Vec<&'a str>, s: &'a str)
    ensures
        final(v)@ == old(v)@.push(s),
        strs_view(final(v)@) == strs_view(old(v)@).push(s@),
{
    v.push(s);
    assert(strs_view(v@) == strs_view(old(v)@).push(s@));
}

/// Pushes a choice and keeps the values in step.
fn push_choice<'a>(v: &mut Vec<Choice<'a>>, c: Choice<'a>)
    ensures
        choices_view(final(v)@) == choices_view(old(v)@).push(c@),
{
    let ghost cv = c@;
    v.push(c);
    assert(choices_view(v@) == choices_view(old(v)@).push(cv));
}

/// Moves the knots of `more` to the end of `v`, keeping the values in step.
fn append_knots<'a>(v: &mut Vec<Knot<'a>>, more: Vec<Knot<'a>>)
    ensures
        knots_view(final(v)@) == knots_view(old(v)@) + knots_view(more@),
{
    let mut more = more;
    let ghost m = more@;
    v.append(&mut more);
    assert(knots_view(v@) =~= knots_view(old(v)@) + knots_view(m));
}

/// Reads the knot (or stitch) `title` from the token at `start` on; gives it
/// with its stitches, and the index of the first token after it, or `None`
/// where a token that cannot stand in it comes first.
fn parse_knot<'a>(title: &str, tokens: &[InkToken<'a>], start: usize, is_stitch: bool) -> (r: Option<(Vec<Knot<'a>>, usize)>)
    requires
        start <= tokens.len(),
    ensures
        match r {
            Some((ks, n)) => parse_knot_spec(title@, tokens_view(tokens@), start as int, is_stitch) == Some((knots_view(ks@), n as int))
                && start <= n <= tokens.len(),
            None => parse_knot_spec(title@, tokens_view(tokens@), start as int, is_stitch) is None,
        },
    decreases tokens.len() - start,
{
    let ghost toks = tokens_view(tokens@);
    let mut lines: Vec<Line<'a>> = Vec::new();
    let mut end: KnotEnd<'a> = KnotEnd::Divert(Divert { knot_title: end_string() });
    let mut knot_tags: Vec<&'a str> = Vec::new();
    let mut tag_buildup: Vec<&'a str> = Vec::new();
    let mut first_dialog = true;
    let mut stitches: Vec<&'a str> = Vec::new();
    let mut stitch_knots: Vec<Knot<'a>> = Vec::new();
    let mut choices: Vec<Choice<'a>> = Vec::new();
    let mut i = start;
    assert(knot_state_view(lines@, end, knot_tags@, tag_buildup@, first_dialog, stitches@, stitch_knots@, choices@) == knot_start()) by {
        assert(lines_view(lines@) == Seq::<SpecLine>::empty());
        assert(strs_view(knot_tags@) == Seq::<Seq<char>>::empty());
        assert(knots_view(stitch_knots@) == Seq::<SpecKnot>::empty());
        assert(choices_view(choices@) == Seq::<SpecChoice>::empty());
    }
    while i < tokens.len()
        invariant_except_break
            start <= i <= tokens.len(),
            toks == tokens_view(tokens@),
            knot_loop(title@, toks, start as int, is_stitch, knot_start()) == knot_loop(
                title@,
                toks,
                i as int,
                is_stitch,
                knot_state_view(lines@, end, knot_tags@, tag_buildup@, first_dialog, stitches@, stitch_knots@, choices@),
            ),
        ensures
            start <= i <= tokens.len(),
            knot_loop(title@, toks, start as int, is_stitch, knot_start()) == Some((
                knot_state_view(lines@, end, knot_tags@, tag_buildup@, first_dialog, stitches@, stitch_knots@, choices@),
                i as int,
            )),
        decreases tokens.len() - i,
    {
        assert(toks[i as int] == tokens@[i as int]@);
        match tokens[i] {
            InkToken::Dialog((s, _)) => {
                if first_dialog {
                    knot_tags = copy_strs(&tag_buildup);
                    first_dialog = false;
                }
                let tags = tag_buildup;
                tag_buildup = Vec::new();
                let d = DialogLine { text: s, tags };
                push_line(&mut lines, Line::Dialog(d));
                assert(strs_view(tag_buildup@) == Seq::<Seq<char>>::empty());
                i = i + 1;
            },
            InkToken::Tag(s) => {
                push_str_ref(&mut tag_buildup, s);
                i = i + 1;
            },
            InkToken::Divert(s) => {
                end = KnotEnd::Divert(Divert { knot_title: string_of_str(s) });
                i = i + 1;
                if i < tokens.len() {
                    assert(toks[i as int] == tokens@[i as int]@);
                    match tokens[i] {
                        InkToken::StitchTitle(_) => {},
                        _ => {
                            break ;
                        },
                    }
                } else {
                    break ;
                }
            },
            InkToken::Choice((s, _)) => match parse_choice(s, tokens, i, false) {
                Some((c, n)) => {
                    push_choice(&mut choices, c);
                    i = n;
                },
                None => {
                    return None;
                },
            },
            InkToken::StickyChoice((s, _)) => match parse_choice(s, tokens, i, true) {
                Some((c, n)) => {
                    push_choice(&mut choices, c);
                    i = n;
                },
                None => {
                    return None;
                },
            },
            InkToken::Operation(_) => {
                i = i + 1;
            },
            InkToken::KnotTitle(_) => {
                break ;
            },
            InkToken::StitchTitle(s) => {
                if is_stitch {
                    break ;
                }
                let sub_title = dotted_string(title, s);
                match parse_knot(sub_title.as_str(), tokens, i + 1, true) {
                    Some((ks, n)) => {
                        push_str_ref(&mut stitches, s);
                        append_knots(&mut stitch_knots, ks);
                        i = n;
                    },
                    None => {
                        return None;
                    },
                }
            },
            InkToken::VariableDeclaration(_) => {
                return None;
            },
        }
    }
    let ghost st = knot_state_view(lines@, end, knot_tags@, tag_buildup@, first_dialog, stitches@, stitch_knots@, choices@);
    let knot_title = string_of_str(title);
    if choices.len() > 0 {
        end = KnotEnd::Choices(choices);
    } else if stitches.len() > 0 {
        end = KnotEnd::Divert(Divert { knot_title: dotted_string(title, stitches[0]) });
    }
    let ghost sk = knots_view(stitch_knots@);
    let ghost tt = knot_title@;
    let ghost ss = strs_view(stitches@);
    let mut result: Vec<Knot<'a>> = Vec::new();
    let mut knot = Knot::new(title);
    knot.lines = lines;
    knot.end = end;
    knot.knot_tags = knot_tags;
    result.push(knot);
    let ghost first = result@[0]@;
    assert(finish_knot(title@, st)[0] == first);
    let mut rest = stitch_knots;
    let ghost n = rest.len();
    assert(knots_view(result@) == seq![result@[0]@]);
    while rest.len() > 0
        invariant
            result.len() >= 1,
            first == result@[0]@,
            result.len() + rest.len() == n + 1,
            sk.len() == n,
            tt == title@,
            knot_title@ == title@,
            ss == strs_view(stitches@),
            knots_view(rest@) == sk.skip(result.len() - 1),
            knots_view(result@) == seq![result@[0]@] + sk.take(result.len() - 1).map_values(|k: SpecKnot| justify_knot(k, tt, ss)),
        decreases rest.len(),
    {
        let ghost k = result.len() - 1;
        let ghost before = rest@;
        let ghost r0 = result@;
        let kn = rest.remove(0);
        let ghost kv = kn@;
        assert(knots_view(before)[0] == sk.skip(k as int)[0]);
        assert(kv == sk[k as int]);
        assert(knots_view(rest@) == knots_view(before).skip(1));
        assert(sk.skip(k as int).skip(1) == sk.skip(k + 1));
        let j = justify_stitch(kn, &knot_title, &stitches);
        let ghost jv = j@;
        result.push(j);
        assert(knots_view(result@) =~= knots_view(r0).push(jv));
        assert(sk.take(k + 1).map_values(|k: SpecKnot| justify_knot(k, tt, ss)) =~= sk.take(k as int).map_values(|k: SpecKnot| justify_knot(k, tt, ss)).push(justify_knot(sk[k as int], tt, ss)));
        assert(jv == justify_knot(sk[k as int], tt, ss));
        assert(knots_view(result@) =~= seq![first] + sk.take(k + 1).map_values(|k: SpecKnot| justify_knot(k, tt, ss)));
    }
    assert(sk.take(n as int) == sk);
    assert(knots_view(result@) =~= finish_knot(title@, st));
    Some((result, i))
}

// ---------------------------------------------------------------------------
// Reading a story
// ---------------------------------------------------------------------------

/// `knot_index` gives the first knot with the title.
pub proof fn lemma_knot_index(ks: Seq<SpecKnot>, t: Seq<char>)
    ensures
        match knot_index(ks, t) {
            Some(j) => 0 <= j < ks.len() && ks[j].title == t && forall|i: int| 0 <= i < j ==> #[trigger] ks[i].title != t,
            None => forall|i: int| 0 <= i < ks.len() ==> #[trigger] ks[i].title != t,
        },
    decreases ks.len(),
{
    if ks.len() > 0 {
        lemma_knot_index(ks.drop_last(), t);
        assert(forall|i: int| 0 <= i < ks.len() - 1 ==> ks.drop_last()[i] == ks[i]);
    }
}

/// `variable_index` gives the first variable with the name.
pub proof fn lemma_variable_index(vs: Seq<(Seq<char>, SpecValue)>, name: Seq<char>)
    ensures
        match variable_index(vs, name) {
            Some(j) => 0 <= j < vs.len() && vs[j].0 == name && forall|i: int| 0 <= i < j ==> #[trigger] vs[i].0 != name,
            None => forall|i: int| 0 <= i < vs.len() ==> #[trigger] vs[i].0 != name,
        },
    decreases vs.len(),
{
    if vs.len() > 0 {
        lemma_variable_index(vs.drop_last(), name);
        assert(forall|i: int| 0 <= i < vs.len() - 1 ==> vs.drop_last()[i] == vs[i]);
    }
}

/// No two knots share a title.
pub open spec fn titles_distinct(ks: Seq<SpecKnot>) -> bool {
    forall|i: int, j: int| 0 <= i < j < ks.len() ==> #[trigger] ks[i].title != #[trigger] ks[j].title
}

/// No two variables share a name.
pub open spec fn names_distinct(vs: Seq<(Seq<char>, SpecValue)>) -> bool {
    forall|i: int, j: int| 0 <= i < j < vs.len() ==> #[trigger] vs[i].0 != #[trigger] vs[j].0
}

/// Putting a knot in keeps the titles distinct, and the knot is then found by its title.
pub proof fn lemma_insert_knot(ks: Seq<SpecKnot>, k: SpecKnot)
    requires
        titles_distinct(ks),
    ensures
        titles_distinct(insert_knot(ks, k)),
        knot_index(insert_knot(ks, k), k.title) matches Some(j) && insert_knot(ks, k)[j] == k,
        forall|t: Seq<char>| #[trigger] knot_index(ks, t) is Some ==> knot_index(insert_knot(ks, k), t) is Some,
{
    lemma_knot_index(ks, k.title);
    let r = insert_knot(ks, k);
    lemma_knot_index(r, k.title);
    assert forall|t: Seq<char>| #[trigger] knot_index(ks, t) is Some implies knot_index(r, t) is Some by {
        lemma_knot_index(ks, t);
        lemma_knot_index(r, t);
        let j = knot_index(ks, t)->0;
        if t != k.title {
            assert(r[j].title == t);
        }
    }
}

/// Putting several knots in keeps the titles distinct.
pub proof fn lemma_insert_knots(ks: Seq<SpecKnot>, new: Seq<SpecKnot>)
    requires
        titles_distinct(ks),
    ensures
        titles_distinct(insert_knots(ks, new)),
    decreases new.len(),
{
    if new.len() > 0 {
        lemma_insert_knot(ks, new[0]);
        lemma_insert_knots(insert_knot(ks, new[0]), new.drop_first());
    }
}

/// Setting a variable keeps the names distinct.
pub proof fn lemma_insert_variable(vs: Seq<(Seq<char>, SpecValue)>, name: Seq<char>, v: SpecValue)
    requires
        names_distinct(vs),
    ensures
        names_distinct(insert_variable(vs, name, v)),
{
    lemma_variable_index(vs, name);
}

/// Reading the top of a story keeps knot titles and variable names distinct.
pub proof fn lemma_top_loop_distinct(toks: Seq<Token>, i: int, st: TopState)
    requires
        titles_distinct(st.knots),
        names_distinct(st.variables),
    ensures
        top_loop(toks, i, st) matches Some(r) ==> titles_distinct(r.knots) && names_distinct(r.variables),
    decreases toks.len() - i,
{
    if 0 <= i < toks.len() {
        match toks[i] {
            Token::VariableDeclaration(s) => match cut_at(s, seq!['=']) {
                Some((name, value)) => match spec_variable_value(value) {
                    Some(v) => {
                        lemma_insert_variable(st.variables, trim(name), v);
                        lemma_top_loop_distinct(
                            toks,
                            i + 1,
                            TopState { variables: insert_variable(st.variables, trim(name), v), ..st },
                        );
                    },
                    None => {},
                },
                None => {},
            },
            Token::Dialog(s, _) => {
                let tags = if st.lines.len() == 0 { st.tags } else { Seq::empty() };
                let line = SpecLine::Dialog(SpecDialogLine { text: s, tags });
                lemma_top_loop_distinct(toks, i + 1, TopState { lines: st.lines.push(line), ..st });
            },
            Token::KnotTitle(s) => match parse_knot_spec(s, toks, i + 1, false) {
                Some((ks, n)) => if i < n <= toks.len() {
                    let divert = if st.choices.len() == 0 && st.divert is None {
                        Some(s)
                    } else {
                        st.divert
                    };
                    lemma_insert_knots(st.knots, ks);
                    lemma_top_loop_distinct(toks, n, TopState { knots: insert_knots(st.knots, ks), divert, ..st });
                },
                None => {},
            },
            Token::Divert(s) => {
                lemma_top_loop_distinct(toks, i + 1, TopState { divert: Some(s), ..st });
            },
            Token::Choice(s, _) => match spec_parse_choice(s, toks, i, false) {
                Some((c, n)) => if i < n <= toks.len() {
                    lemma_top_loop_distinct(toks, n, TopState { choices: st.choices.push(c), ..st });
                },
                None => {},
            },
            Token::StickyChoice(s, _) => match spec_parse_choice(s, toks, i, true) {
                Some((c, n)) => if i < n <= toks.len() {
                    lemma_top_loop_distinct(toks, n, TopState { choices: st.choices.push(c), ..st });
                },
                None => {},
            },
            Token::Tag(s) => if st.lines.len() == 0 {
                lemma_top_loop_distinct(
                    toks,
                    i + 1,
                    TopState { tags: st.tags.push(s), global_tags: st.global_tags.push(s), ..st },
                );
            } else {
                match tag_last_line(st.lines, s) {
                    Some(lines) => {
                        lemma_top_loop_distinct(toks, i + 1, TopState { lines, ..st });
                    },
                    None => {},
                }
            },
            Token::StitchTitle(_) => {},
            Token::Operation(_) => {},
        }
    }
}

/// A story read from tokens names each knot and each global variable at most
/// once, and always holds the opening knot `__INTRO__`.
pub proof fn law_story_names_distinct(toks: Seq<Token>)
    requires
        spec_parse(toks) is Some,
    ensures
        titles_distinct(spec_parse(toks)->0.knots),
        names_distinct(spec_parse(toks)->0.variables),
        knot_index(spec_parse(toks)->0.knots, intro_title()) is Some,
{
    lemma_top_loop_distinct(toks, 0, top_start());
    let st = top_loop(toks, 0, top_start())->0;
    lemma_insert_knot(st.knots, intro_knot(st));
}

/// The tags of a knot are tags of its first line too (where it has lines).
pub open spec fn knot_tags_on_first_line(k: SpecKnot) -> bool {
    k.lines.len() > 0 ==> (k.lines[0] matches SpecLine::Dialog(d) && k.knot_tags.is_prefix_of(d.tags))
}

/// Every knot's tags are tags of its first line too.
pub open spec fn all_knot_tags_on_first_line(ks: Seq<SpecKnot>) -> bool {
    forall|i: int| 0 <= i < ks.len() ==> knot_tags_on_first_line(#[trigger] ks[i])
}

/// What holds while a knot is read: until its first dialog line it has no
/// lines and no tags; from then on its tags are those of its first line.
pub open spec fn knot_state_tagged(st: KnotState) -> bool {
    &&& st.first_dialog ==> st.lines.len() == 0 && st.knot_tags.len() == 0
    &&& !st.first_dialog ==> st.lines.len() > 0 && (st.lines[0] matches SpecLine::Dialog(d) && d.tags == st.knot_tags)
    &&& all_knot_tags_on_first_line(st.stitch_knots)
}

proof fn lemma_knot_loop_tagged(title: Seq<char>, toks: Seq<Token>, i: int, is_stitch: bool, st: KnotState)
    requires
        knot_state_tagged(st),
    ensures
        knot_loop(title, toks, i, is_stitch, st) matches Some((st2, _)) ==> knot_state_tagged(st2),
    decreases toks.len() - i, 0int,
{
    if 0 <= i < toks.len() {
        match toks[i] {
            Token::Dialog(s, _) => {
                let st2 = KnotState {
                    knot_tags: if st.first_dialog { st.tag_buildup } else { st.knot_tags },
                    first_dialog: false,
                    lines: st.lines.push(SpecLine::Dialog(SpecDialogLine { text: s, tags: st.tag_buildup })),
                    tag_buildup: Seq::empty(),
                    ..st
                };
                assert(st2.lines[0] == if st.first_dialog { st2.lines.last() } else { st.lines[0] });
                lemma_knot_loop_tagged(title, toks, i + 1, is_stitch, st2);
            },
            Token::Tag(s) => {
                lemma_knot_loop_tagged(title, toks, i + 1, is_stitch, KnotState { tag_buildup: st.tag_buildup.push(s), ..st });
            },
            Token::Divert(s) => {
                let st2 = KnotState { end: SpecKnotEnd::Divert(s), ..st };
                lemma_knot_loop_tagged(title, toks, i + 1, is_stitch, st2);
            },
            Token::Choice(s, _) => match spec_parse_choice(s, toks, i, false) {
                Some((c, n)) => if i < n <= toks.len() {
                    lemma_knot_loop_tagged(title, toks, n, is_stitch, KnotState { choices: st.choices.push(c), ..st });
                },
                None => {},
            },
            Token::StickyChoice(s, _) => match spec_parse_choice(s, toks, i, true) {
                Some((c, n)) => if i < n <= toks.len() {
                    lemma_knot_loop_tagged(title, toks, n, is_stitch, KnotState { choices: st.choices.push(c), ..st });
                },
                None => {},
            },
            Token::Operation(_) => {
                lemma_knot_loop_tagged(title, toks, i + 1, is_stitch, st);
            },
            Token::KnotTitle(_) => {},
            Token::StitchTitle(s) => if !is_stitch {
                match parse_knot_spec(dotted(title, s), toks, i + 1, true) {
                    Some((ks, n)) => if i < n <= toks.len() {
                        lemma_parse_knot_tagged(dotted(title, s), toks, i + 1, true);
                        let st2 = KnotState { stitches: st.stitches.push(s), stitch_knots: st.stitch_knots + ks, ..st };
                        assert forall|j: int| 0 <= j < st2.stitch_knots.len() implies knot_tags_on_first_line(
                            #[trigger] st2.stitch_knots[j],
                        ) by {
                            if j < st.stitch_knots.len() {
                                assert(st2.stitch_knots[j] == st.stitch_knots[j]);
                            } else {
                                assert(st2.stitch_knots[j] == ks[j - st.stitch_knots.len()]);
                            }
                        }
                        lemma_knot_loop_tagged(title, toks, n, is_stitch, st2);
                    },
                    None => {},
                }
            },
            Token::VariableDeclaration(_) => {},
        }
    }
}

proof fn lemma_parse_knot_tagged(title: Seq<char>, toks: Seq<Token>, start: int, is_stitch: bool)
    ensures
        parse_knot_spec(title, toks, start, is_stitch) matches Some((ks, _)) ==> all_knot_tags_on_first_line(ks),
    decreases toks.len() - start, 1int,
{
    lemma_knot_loop_tagged(title, toks, start, is_stitch, knot_start());
    if let Some((st, n)) = knot_loop(title, toks, start, is_stitch, knot_start()) {
        let ks = finish_knot(title, st);
        assert forall|j: int| 0 <= j < ks.len() implies knot_tags_on_first_line(#[trigger] ks[j]) by {
            if j > 0 {
                assert(ks[j] == justify_knot(st.stitch_knots[j - 1], title, st.stitches));
                assert(knot_tags_on_first_line(st.stitch_knots[j - 1]));
            }
        }
    }
}

/// Putting knots in keeps every knot's tags on its first line.
proof fn lemma_insert_knots_tagged(ks: Seq<SpecKnot>, new: Seq<SpecKnot>)
    requires
        all_knot_tags_on_first_line(ks),
        all_knot_tags_on_first_line(new),
    ensures
        all_knot_tags_on_first_line(insert_knots(ks, new)),
    decreases new.len(),
{
    if new.len() > 0 {
        assert(knot_tags_on_first_line(new[0]));
        lemma_insert_knot_tagged(ks, new[0]);
        assert forall|j: int| 0 <= j < new.drop_first().len() implies knot_tags_on_first_line(#[trigger] new.drop_first()[j]) by {
            assert(new.drop_first()[j] == new[j + 1]);
        }
        lemma_insert_knots_tagged(insert_knot(ks, new[0]), new.drop_first());
    }
}

proof fn lemma_insert_knot_tagged(ks: Seq<SpecKnot>, k: SpecKnot)
    requires
        all_knot_tags_on_first_line(ks),
        knot_tags_on_first_line(k),
    ensures
        all_knot_tags_on_first_line(insert_knot(ks, k)),
{
    let r = insert_knot(ks, k);
    lemma_knot_index(ks, k.title);
    assert forall|j: int| 0 <= j < r.len() implies knot_tags_on_first_line(#[trigger] r[j]) by {
        match knot_index(ks, k.title) {
            Some(m) => {
                if j != m {
                    assert(r[j] == ks[j]);
                }
            },
            None => {
                if j < ks.len() {
                    assert(r[j] == ks[j]);
                }
            },
        }
    }
}

/// What holds while the top of a story is read: every knot's tags are tags
/// of its first line, and the opening tags are tags of the first line.
pub open spec fn top_state_tagged(st: TopState) -> bool {
    &&& all_knot_tags_on_first_line(st.knots)
    &&& st.lines.len() > 0 ==> (st.lines[0] matches SpecLine::Dialog(d) && st.tags.is_prefix_of(d.tags))
}

proof fn lemma_top_loop_tagged(toks: Seq<Token>, i: int, st: TopState)
    requires
        top_state_tagged(st),
    ensures
        top_loop(toks, i, st) matches Some(r) ==> top_state_tagged(r),
    decreases toks.len() - i,
{
    if 0 <= i < toks.len() {
        match toks[i] {
            Token::VariableDeclaration(s) => match cut_at(s, seq!['=']) {
                Some((name, value)) => match spec_variable_value(value) {
                    Some(v) => {
                        lemma_top_loop_tagged(
                            toks,
                            i + 1,
                            TopState { variables: insert_variable(st.variables, trim(name), v), ..st },
                        );
                    },
                    None => {},
                },
                None => {},
            },
            Token::Dialog(s, _) => {
                let tags = if st.lines.len() == 0 { st.tags } else { Seq::empty() };
                let line = SpecLine::Dialog(SpecDialogLine { text: s, tags });
                let st2 = TopState { lines: st.lines.push(line), ..st };
                assert(st2.lines[0] == if st.lines.len() == 0 { line } else { st.lines[0] });
                lemma_top_loop_tagged(toks, i + 1, st2);
            },
            Token::KnotTitle(s) => match parse_knot_spec(s, toks, i + 1, false) {
                Some((ks, n)) => if i < n <= toks.len() {
                    let divert = if st.choices.len() == 0 && st.divert is None {
                        Some(s)
                    } else {
                        st.divert
                    };
                    lemma_parse_knot_tagged(s, toks, i + 1, false);
                    lemma_insert_knots_tagged(st.knots, ks);
                    lemma_top_loop_tagged(toks, n, TopState { knots: insert_knots(st.knots, ks), divert, ..st });
                },
                None => {},
            },
            Token::Divert(s) => {
                lemma_top_loop_tagged(toks, i + 1, TopState { divert: Some(s), ..st });
            },
            Token::Choice(s, _) => match spec_parse_choice(s, toks, i, false) {
                Some((c, n)) => if i < n <= toks.len() {
                    lemma_top_loop_tagged(toks, n, TopState { choices: st.choices.push(c), ..st });
                },
                None => {},
            },
            Token::StickyChoice(s, _) => match spec_parse_choice(s, toks, i, true) {
                Some((c, n)) => if i < n <= toks.len() {
                    lemma_top_loop_tagged(toks, n, TopState { choices: st.choices.push(c), ..st });
                },
                None => {},
            },
            Token::Tag(s) => if st.lines.len() == 0 {
                lemma_top_loop_tagged(
                    toks,
                    i + 1,
                    TopState { tags: st.tags.push(s), global_tags: st.global_tags.push(s), ..st },
                );
            } else {
                match tag_last_line(st.lines, s) {
                    Some(lines) => {
                        let st2 = TopState { lines, ..st };
                        if lines.len() - 1 == 0 {
                            let d = st.lines[0]->Dialog_0;
                            assert(lines[0] == SpecLine::Dialog(SpecDialogLine { tags: d.tags.push(s), ..d }));
                            assert(st.tags.is_prefix_of(d.tags.push(s))) by {
                                assert(d.tags.push(s).subrange(0, st.tags.len() as int) =~= d.tags.subrange(0, st.tags.len() as int));
                            }
                        } else {
                            assert(lines[0] == st.lines[0]);
                        }
                        lemma_top_loop_tagged(toks, i + 1, st2);
                    },
                    None => {},
                }
            },
            Token::StitchTitle(_) => {},
            Token::Operation(_) => {},
        }
    }
}

/// Tags written above the first line of a knot are tags of that knot, and
/// they stay tags of that line too: in every knot of a story read from
/// tokens, the knot's tags begin the tags of its first line.
pub proof fn law_knot_tags_on_first_line(toks: Seq<Token>)
    requires
        spec_parse(toks) is Some,
    ensures
        all_knot_tags_on_first_line(spec_parse(toks)->0.knots),
{
    assert(top_state_tagged(top_start()));
    lemma_top_loop_tagged(toks, 0, top_start());
    let st = top_loop(toks, 0, top_start())->0;
    lemma_insert_knot_tagged(st.knots, intro_knot(st));
}

/// The title of the knot title token at `i`, if it is one.
pub open spec fn knot_title_at(toks: Seq<Token>, i: int) -> Option<Seq<char>> {
    if 0 <= i < toks.len() {
        match toks[i] {
            Token::KnotTitle(t) => Some(t),
            _ => None,
        }
    } else {
        None
    }
}

/// The title of the stitch title token at `i`, if it is one.
pub open spec fn stitch_title_at(toks: Seq<Token>, i: int) -> Option<Seq<char>> {
    if 0 <= i < toks.len() {
        match toks[i] {
            Token::StitchTitle(t) => Some(t),
            _ => None,
        }
    } else {
        None
    }
}

/// `t` is `title.stitch` for the title of some stitch title token.
pub open spec fn stitch_named(toks: Seq<Token>, title: Seq<char>, t: Seq<char>) -> bool {
    exists|j: int| #[trigger] stitch_title_at(toks, j) matches Some(s) && t == dotted(title, s)
}

/// A title that the tokens give: `__INTRO__`, the title of a knot title
/// token, or such a title, `.`, and the title of a stitch title token.
pub open spec fn title_from_tokens(toks: Seq<Token>, t: Seq<char>) -> bool {
    ||| t == intro_title()
    ||| exists|i: int| #[trigger] knot_title_at(toks, i) == Some(t)
    ||| exists|i: int| #[trigger] knot_title_at(toks, i) matches Some(k) && stitch_named(toks, k, t)
}

/// No variable declaration among the tokens from `lo` to `hi`.
pub open spec fn no_declaration_in(toks: Seq<Token>, lo: int, hi: int) -> bool {
    forall|j: int| lo <= j < hi ==> !(#[trigger] toks[j] is VariableDeclaration)
}

/// A global variable named `name` is among `vs`.
pub open spec fn has_variable(vs: Seq<(Seq<char>, SpecValue)>, name: Seq<char>) -> bool {
    exists|m: int| 0 <= m < vs.len() && (#[trigger] vs[m]).0 == name
}

/// The declaration `decl` (`name = value`) put its trimmed name among `vs`.
pub open spec fn declared(decl: Seq<char>, vs: Seq<(Seq<char>, SpecValue)>) -> bool {
    cut_at(decl, seq!['=']) matches Some((name, _)) && has_variable(vs, trim(name))
}

proof fn lemma_choice_body_span(toks: Seq<Token>, i: int)
    requires
        0 <= i,
    ensures
        choice_body(toks, i) matches Some((_, _, n)) ==> no_declaration_in(toks, i, n),
    decreases toks.len() - i,
{
    if i < toks.len() {
        match toks[i] {
            Token::Dialog(..) => lemma_choice_body_span(toks, i + 1),
            Token::Tag(_) => lemma_choice_body_span(toks, i + 1),
            _ => {},
        }
    }
}

proof fn lemma_no_declaration_join(toks: Seq<Token>, a: int, b: int, c: int)
    requires
        a <= b,
        no_declaration_in(toks, a, b),
        no_declaration_in(toks, b, c),
    ensures
        no_declaration_in(toks, a, c),
{
    assert forall|j: int| a <= j < c implies !(#[trigger] toks[j] is VariableDeclaration) by {
        if j < b {
            assert(!(toks[j] is VariableDeclaration));
        }
    }
}

proof fn lemma_knot_loop_origins(title: Seq<char>, toks: Seq<Token>, i: int, is_stitch: bool, st: KnotState)
    requires
        0 <= i,
        forall|m: int| 0 <= m < st.stitch_knots.len() ==> stitch_named(toks, title, #[trigger] st.stitch_knots[m].title),
        is_stitch ==> st.stitch_knots.len() == 0,
    ensures
        knot_loop(title, toks, i, is_stitch, st) matches Some((st2, n)) ==> {
            &&& forall|m: int| 0 <= m < st2.stitch_knots.len() ==> stitch_named(toks, title, #[trigger] st2.stitch_knots[m].title)
            &&& is_stitch ==> st2.stitch_knots.len() == 0
            &&& no_declaration_in(toks, i, n)
        },
    decreases toks.len() - i, 0int,
{
    if i < toks.len() {
        match toks[i] {
            Token::Dialog(s, _) => {
                let st2 = KnotState {
                    knot_tags: if st.first_dialog { st.tag_buildup } else { st.knot_tags },
                    first_dialog: false,
                    lines: st.lines.push(SpecLine::Dialog(SpecDialogLine { text: s, tags: st.tag_buildup })),
                    tag_buildup: Seq::empty(),
                    ..st
                };
                lemma_knot_loop_origins(title, toks, i + 1, is_stitch, st2);
            },
            Token::Tag(s) => {
                lemma_knot_loop_origins(title, toks, i + 1, is_stitch, KnotState { tag_buildup: st.tag_buildup.push(s), ..st });
            },
            Token::Divert(s) => {
                let st2 = KnotState { end: SpecKnotEnd::Divert(s), ..st };
                lemma_knot_loop_origins(title, toks, i + 1, is_stitch, st2);
            },
            Token::Choice(s, _) => match spec_parse_choice(s, toks, i, false) {
                Some((c, n)) => if i < n <= toks.len() {
                    lemma_choice_body_span(toks, i + 1);
                    lemma_knot_loop_origins(title, toks, n, is_stitch, KnotState { choices: st.choices.push(c), ..st });
                    if let Some((_, n2)) = knot_loop(title, toks, n, is_stitch, KnotState { choices: st.choices.push(c), ..st }) {
                        lemma_no_declaration_join(toks, i + 1, n, n2);
                    }
                },
                None => {},
            },
            Token::StickyChoice(s, _) => match spec_parse_choice(s, toks, i, true) {
                Some((c, n)) => if i < n <= toks.len() {
                    lemma_choice_body_span(toks, i + 1);
                    lemma_knot_loop_origins(title, toks, n, is_stitch, KnotState { choices: st.choices.push(c), ..st });
                    if let Some((_, n2)) = knot_loop(title, toks, n, is_stitch, KnotState { choices: st.choices.push(c), ..st }) {
                        lemma_no_declaration_join(toks, i + 1, n, n2);
                    }
                },
                None => {},
            },
            Token::Operation(_) => {
                lemma_knot_loop_origins(title, toks, i + 1, is_stitch, st);
            },
            Token::KnotTitle(_) => {},
            Token::StitchTitle(s) => if !is_stitch {
                match parse_knot_spec(dotted(title, s), toks, i + 1, true) {
                    Some((ks, n)) => if i < n <= toks.len() {
                        lemma_parse_knot_origins(dotted(title, s), toks, i + 1, true);
                        assert(stitch_title_at(toks, i) == Some(s));
                        let st2 = KnotState { stitches: st.stitches.push(s), stitch_knots: st.stitch_knots + ks, ..st };
                        assert forall|m: int| 0 <= m < st2.stitch_knots.len() implies stitch_named(
                            toks,
                            title,
                            #[trigger] st2.stitch_knots[m].title,
                        ) by {
                            if m < st.stitch_knots.len() {
                                assert(st2.stitch_knots[m] == st.stitch_knots[m]);
                            } else {
                                assert(st2.stitch_knots[m] == ks[0]);
                            }
                        }
                        lemma_knot_loop_origins(title, toks, n, is_stitch, st2);
                        if let Some((_, n2)) = knot_loop(title, toks, n, is_stitch, st2) {
                            lemma_no_declaration_join(toks, i + 1, n, n2);
                        }
                    },
                    None => {},
                }
            },
            Token::VariableDeclaration(_) => {},
        }
    }
}

proof fn lemma_parse_knot_origins(title: Seq<char>, toks: Seq<Token>, start: int, is_stitch: bool)
    requires
        0 <= start,
    ensures
        parse_knot_spec(title, toks, start, is_stitch) matches Some((ks, n)) ==> {
            &&& ks.len() >= 1
            &&& ks[0].title == title
            &&& is_stitch ==> ks.len() == 1
            &&& forall|m: int| 1 <= m < ks.len() ==> stitch_named(toks, title, #[trigger] ks[m].title)
            &&& no_declaration_in(toks, start, n)
        },
    decreases toks.len() - start, 1int,
{
    lemma_knot_loop_origins(title, toks, start, is_stitch, knot_start());
    if let Some((st, n)) = knot_loop(title, toks, start, is_stitch, knot_start()) {
        let ks = finish_knot(title, st);
        assert forall|m: int| 1 <= m < ks.len() implies stitch_named(toks, title, #[trigger] ks[m].title) by {
            assert(ks[m] == justify_knot(st.stitch_knots[m - 1], title, st.stitches));
            assert(stitch_named(toks, title, st.stitch_knots[m - 1].title));
        }
    }
}

/// Every knot of `insert_knots(ks, new)` is one of `ks` or of `new`.
proof fn lemma_insert_knots_from(ks: Seq<SpecKnot>, new: Seq<SpecKnot>)
    ensures
        forall|j: int| 0 <= j < insert_knots(ks, new).len() ==> ks.contains(#[trigger] insert_knots(ks, new)[j])
            || new.contains(insert_knots(ks, new)[j]),
    decreases new.len(),
{
    if new.len() > 0 {
        let k = new[0];
        let r1 = insert_knot(ks, k);
        lemma_knot_index(ks, k.title);
        assert forall|j: int| 0 <= j < r1.len() implies ks.contains(#[trigger] r1[j]) || r1[j] == k by {
            match knot_index(ks, k.title) {
                Some(m) => {
                    if j != m {
                        assert(r1[j] == ks[j]);
                    }
                },
                None => {
                    if j < ks.len() {
                        assert(r1[j] == ks[j]);
                    }
                },
            }
        }
        let tail = new.drop_first();
        lemma_insert_knots_from(r1, tail);
        let r = insert_knots(ks, new);
        assert(r == insert_knots(r1, tail));
        assert forall|j: int| 0 <= j < r.len() implies ks.contains(#[trigger] r[j]) || new.contains(r[j]) by {
            assert(r1.contains(insert_knots(r1, tail)[j]) || tail.contains(insert_knots(r1, tail)[j]));
            if r1.contains(r[j]) {
                let m = choose|m: int| 0 <= m < r1.len() && r1[m] == r[j];
                if r1[m] == k {
                    assert(new[0] == k);
                }
            } else {
                let m = choose|m: int| 0 <= m < new.drop_first().len() && new.drop_first()[m] == r[j];
                assert(new[m + 1] == r[j]);
            }
        }
    }
}

/// Setting a variable keeps every name and adds its own.
proof fn lemma_insert_variable_names(vs: Seq<(Seq<char>, SpecValue)>, name: Seq<char>, v: SpecValue)
    ensures
        has_variable(insert_variable(vs, name, v), name),
        forall|n: Seq<char>| #[trigger] has_variable(vs, n) ==> has_variable(insert_variable(vs, name, v), n),
{
    lemma_variable_index(vs, name);
    let r = insert_variable(vs, name, v);
    match variable_index(vs, name) {
        Some(j) => {
            assert(r[j].0 == name);
        },
        None => {
            assert(r[vs.len() as int].0 == name);
        },
    }
    assert forall|n: Seq<char>| #[trigger] has_variable(vs, n) implies has_variable(r, n) by {
        let m = choose|m: int| 0 <= m < vs.len() && (#[trigger] vs[m]).0 == n;
        assert(r[m].0 == n);
    }
}

proof fn lemma_top_loop_origins(toks: Seq<Token>, i: int, st: TopState)
    requires
        0 <= i,
        forall|m: int| 0 <= m < st.knots.len() ==> title_from_tokens(toks, #[trigger] st.knots[m].title),
    ensures
        top_loop(toks, i, st) matches Some(r) ==> {
            &&& forall|m: int| 0 <= m < r.knots.len() ==> title_from_tokens(toks, #[trigger] r.knots[m].title)
            &&& forall|n: Seq<char>| #[trigger] has_variable(st.variables, n) ==> has_variable(r.variables, n)
            &&& forall|j: int| i <= j < toks.len() && (#[trigger] toks[j] is VariableDeclaration) ==> declared(
                toks[j]->VariableDeclaration_0,
                r.variables,
            )
        },
    decreases toks.len() - i,
{
    if i < toks.len() {
        match toks[i] {
            Token::VariableDeclaration(s) => match cut_at(s, seq!['=']) {
                Some((name, value)) => match spec_variable_value(value) {
                    Some(v) => {
                        let st2 = TopState { variables: insert_variable(st.variables, trim(name), v), ..st };
                        lemma_insert_variable_names(st.variables, trim(name), v);
                        lemma_top_loop_origins(toks, i + 1, st2);
                    },
                    None => {},
                },
                None => {},
            },
            Token::Dialog(s, _) => {
                let tags = if st.lines.len() == 0 { st.tags } else { Seq::empty() };
                let line = SpecLine::Dialog(SpecDialogLine { text: s, tags });
                lemma_top_loop_origins(toks, i + 1, TopState { lines: st.lines.push(line), ..st });
            },
            Token::KnotTitle(s) => match parse_knot_spec(s, toks, i + 1, false) {
                Some((ks, n)) => if i < n <= toks.len() {
                    let divert = if st.choices.len() == 0 && st.divert is None {
                        Some(s)
                    } else {
                        st.divert
                    };
                    lemma_parse_knot_origins(s, toks, i + 1, false);
                    assert(knot_title_at(toks, i) == Some(s));
                    let all = insert_knots(st.knots, ks);
                    lemma_insert_knots_from(st.knots, ks);
                    assert forall|m: int| 0 <= m < all.len() implies title_from_tokens(toks, #[trigger] all[m].title) by {
                        if st.knots.contains(all[m]) {
                            let q = choose|q: int| 0 <= q < st.knots.len() && st.knots[q] == all[m];
                            assert(title_from_tokens(toks, st.knots[q].title));
                        } else {
                            let q = choose|q: int| 0 <= q < ks.len() && ks[q] == all[m];
                            if q == 0 {
                                assert(knot_title_at(toks, i) == Some(all[m].title));
                            } else {
                                assert(stitch_named(toks, s, ks[q].title));
                            }
                        }
                    }
                    let st2 = TopState { knots: all, divert, ..st };
                    lemma_top_loop_origins(toks, n, st2);
                },
                None => {},
            },
            Token::Divert(s) => {
                lemma_top_loop_origins(toks, i + 1, TopState { divert: Some(s), ..st });
            },
            Token::Choice(s, _) => match spec_parse_choice(s, toks, i, false) {
                Some((c, n)) => if i < n <= toks.len() {
                    lemma_choice_body_span(toks, i + 1);
                    lemma_top_loop_origins(toks, n, TopState { choices: st.choices.push(c), ..st });
                },
                None => {},
            },
            Token::StickyChoice(s, _) => match spec_parse_choice(s, toks, i, true) {
                Some((c, n)) => if i < n <= toks.len() {
                    lemma_choice_body_span(toks, i + 1);
                    lemma_top_loop_origins(toks, n, TopState { choices: st.choices.push(c), ..st });
                },
                None => {},
            },
            Token::Tag(s) => if st.lines.len() == 0 {
                lemma_top_loop_origins(
                    toks,
                    i + 1,
                    TopState { tags: st.tags.push(s), global_tags: st.global_tags.push(s), ..st },
                );
            } else {
                match tag_last_line(st.lines, s) {
                    Some(lines) => {
                        lemma_top_loop_origins(toks, i + 1, TopState { lines, ..st });
                    },
                    None => {},
                }
            },
            Token::StitchTitle(_) => {},
            Token::Operation(_) => {},
        }
    }
}

/// Where knots and variables come from: every knot of a story read from
/// tokens is `__INTRO__`, a knot named by a knot title token, or a stitch
/// `knot.stitch` named by a knot title token and a stitch title token; and
/// every variable declaration among the tokens puts its trimmed name among
/// the global variables.
pub proof fn law_story_names_from_tokens(toks: Seq<Token>)
    requires
        spec_parse(toks) is Some,
    ensures
        forall|m: int| 0 <= m < spec_parse(toks)->0.knots.len() ==> title_from_tokens(
            toks,
            #[trigger] spec_parse(toks)->0.knots[m].title,
        ),
        forall|j: int| 0 <= j < toks.len() && (#[trigger] toks[j] is VariableDeclaration) ==> declared(
            toks[j]->VariableDeclaration_0,
            spec_parse(toks)->0.variables,
        ),
{
    lemma_top_loop_origins(toks, 0, top_start());
    let st = top_loop(toks, 0, top_start())->0;
    let ks = insert_knot(st.knots, intro_knot(st));
    lemma_insert_knots_from(st.knots, seq![intro_knot(st)]);
    assert(insert_knots(st.knots, seq![intro_knot(st)]) == ks) by {
        let one = seq![intro_knot(st)];
        assert(one[0] == intro_knot(st));
        assert(one.drop_first() =~= Seq::<SpecKnot>::empty());
        assert(insert_knots(st.knots, one) == insert_knots(insert_knot(st.knots, one[0]), one.drop_first()));
        assert(insert_knots(ks, Seq::<SpecKnot>::empty()) == ks);
    }
    assert forall|m: int| 0 <= m < ks.len() implies title_from_tokens(toks, #[trigger] ks[m].title) by {
        if st.knots.contains(ks[m]) {
            let q = choose|q: int| 0 <= q < st.knots.len() && st.knots[q] == ks[m];
            assert(title_from_tokens(toks, st.knots[q].title));
        } else {
            assert(seq![intro_knot(st)].contains(ks[m]));
            assert(ks[m] == intro_knot(st));
        }
    }
}

/// Puts a knot into the list: in place of the one with the same title, or at the end.
fn insert_knot_into<'a>(knots: &mut Vec<Knot<'a>>, k: Knot<'a>)
    ensures
        knots_view(final(knots)@) == insert_knot(knots_view(old(knots)@), k@),
{
    let ghost ks = knots_view(knots@);
    proof {
        lemma_knot_index(ks, k@.title);
    }
    let mut i: usize = 0;
    while i < knots.len()
        invariant
            0 <= i <= knots.len(),
            knots@ == old(knots)@,
            ks == knots_view(knots@),
            forall|j: int| 0 <= j < i ==> #[trigger] ks[j].title != k@.title,
        decreases knots.len() - i,
    {
        if knots[i].title == k.title {
            proof {
                lemma_knot_index(ks, k@.title);
            }
            assert(ks[i as int].title == k@.title);
            assert(knot_index(ks, k@.title) == Some(i as int)) by {
                if knot_index(ks, k@.title) != Some(i as int) {
                    let j = knot_index(ks, k@.title).unwrap();
                    assert(j < i || j > i);
                }
            }
            let ghost kv = k@;
            knots.set(i, k);
            assert(knots_view(knots@) =~= ks.update(i as int, kv));
            return ;
        }
        i = i + 1;
    }
    proof {
        lemma_knot_index(ks, k@.title);
    }
    let ghost kv = k@;
    knots.push(k);
    assert(knots_view(knots@) =~= ks.push(kv));
}

/// Puts knots into the list, in order.
fn insert_knots_into<'a>(knots: &mut Vec<Knot<'a>>, new: Vec<Knot<'a>>)
    ensures
        knots_view(final(knots)@) == insert_knots(knots_view(old(knots)@), knots_view(new@)),
{
    let mut new = new;
    let ghost all = knots_view(new@);
    let ghost n = new.len();
    while new.len() > 0
        invariant
            all.len() == n,
            new.len() <= n,
            knots_view(new@) == all.skip(n - new.len()),
            insert_knots(knots_view(old(knots)@), all) == insert_knots(knots_view(knots@), knots_view(new@)),
        decreases new.len(),
    {
        let ghost before = new@;
        let k = new.remove(0);
        assert(knots_view(before)[0] == k@);
        assert(knots_view(before).drop_first() =~= knots_view(new@));
        assert(all.skip(n - before.len()).drop_first() =~= all.skip(n - new.len()));
        insert_knot_into(knots, k);
    }
    assert(knots_view(new@) =~= Seq::<SpecKnot>::empty());
}

/// Sets a global variable: in place, or at the end.
fn insert_variable_into<'a>(vars: &mut Vec<(&'a str, VariableValue)>, name: &'a str, v: VariableValue)
    ensures
        variables_view(final(vars)@) == insert_variable(variables_view(old(vars)@), name@, v@),
{
    let ghost vs = variables_view(vars@);
    proof {
        lemma_variable_index(vs, name@);
    }
    let mut i: usize = 0;
    while i < vars.len()
        invariant
            0 <= i <= vars.len(),
            vars@ == old(vars)@,
            vs == variables_view(vars@),
            forall|j: int| 0 <= j < i ==> #[trigger] vs[j].0 != name@,
        decreases vars.len() - i,
    {
        if str_equal(vars[i].0, name) {
            proof {
                lemma_variable_index(vs, name@);
            }
            assert(vs[i as int].0 == name@);
            assert(variable_index(vs, name@) == Some(i as int)) by {
                if variable_index(vs, name@) != Some(i as int) {
                    let j = variable_index(vs, name@).unwrap();
                    assert(j < i || j > i);
                }
            }
            let ghost vv = v@;
            vars.set(i, (name, v));
            assert(variables_view(vars@) =~= vs.update(i as int, (name@, vv)));
            return ;
        }
        i = i + 1;
    }
    proof {
        lemma_variable_index(vs, name@);
    }
    let ghost vv = v@;
    vars.push((name, v));
    assert(variables_view(vars@) =~= vs.push((name@, vv)));
}

/// The value of the state of the top of a story being read.
pub open spec fn top_state_view<'a>(
    variables: Seq<(&'a str, VariableValue)>,
    knots: Seq<Knot<'a>>,
    global_tags: Seq<&'a str>,
    lines: Seq<Line<'a>>,
    divert: Option<&'a str>,
    choices: Seq<Choice<'a>>,
    tags: Seq<&'a str>,
) -> TopState {
    TopState {
        variables: variables_view(variables),
        knots: knots_view(knots),
        global_tags: strs_view(global_tags),
        lines: lines_view(lines),
        divert: match divert {
            Some(d) => Some(d@),
            None => None,
        },
        choices: choices_view(choices),
        tags: strs_view(tags),
    }
}

/// Reads a declaration `name = value`; `None` without `=` or with a value
/// that `spec_variable_value` refuses.
fn parse_declaration<'a>(s: &'a str) -> (r: Option<(&'a str, VariableValue)>)
    ensures
        match r {
            Some((name, value)) => cut_at(s@, seq!['=']) matches Some((a, b)) && name@ == trim(a)
                && spec_variable_value(b) == Some(value@),
            None => !(cut_at(s@, seq!['=']) matches Some((a, b)) && spec_variable_value(b) is Some),
        },
{
    let v = chars_of(s);
    let n = v.len();
    assert(v@.subrange(0, n as int) == v@);
    let k = match find_char_at(&v, 0, n, '=') {
        Some(k) => k,
        None => {
            return None;
        },
    };
    assert(v@.take(k as int) == v@.subrange(0, k as int));
    assert(v@.skip(k + 1) == v@.subrange(k + 1, n as int));
    let (a, b) = trim_at(&v, 0, k);
    let name = s.substring_char(a, b);
    let value = s.substring_char(k + 1, n);
    match parse_variable_value(value) {
        Some(x) => Some((name, x)),
        None => None,
    }
}

/// Adds a tag to the last of the lines; `false` where that line is an
/// operation.
fn tag_last<'a>(lines: &mut Vec<Line<'a>>, t: &'a str) -> (ok: bool)
    requires
        old(lines).len() > 0,
    ensures
        ok == (tag_last_line(lines_view(old(lines)@), t@) is Some),
        ok ==> lines_view(final(lines)@) == tag_last_line(lines_view(old(lines)@), t@).unwrap(),
{
    let ghost l0 = lines_view(lines@);
    let last = lines.pop().unwrap();
    assert(l0.last() == last@);
    assert(lines_view(lines@) =~= l0.drop_last());
    match last {
        Line::Dialog(d) => {
            let DialogLine { text, tags } = d;
            let mut tags = tags;
            push_str_ref(&mut tags, t);
            push_line(lines, Line::Dialog(DialogLine { text, tags }));
            assert(lines_view(lines@) =~= l0.update(l0.len() - 1, lines@.last()@));
            true
        },
        Line::Operation(_) => false,
    }
}

/// Reads a whole story from its tokens. The lines before the first knot make
/// the opening knot `__INTRO__`.
pub fn lexed_to_parsed<'a>(tokens: &[InkToken<'a>]) -> (r: InkStory<'a>)
    requires
        spec_parse(tokens_view(tokens@)) is Some,
    ensures
        r@ == spec_parse(tokens_view(tokens@)).unwrap(),
{
    try_lexed_to_parsed(tokens).unwrap()
}

/// Reads a whole story from its tokens, as `lexed_to_parsed` does; `None`
/// for tokens that give no story (see `spec_parse`).
pub fn try_lexed_to_parsed<'a>(tokens: &[InkToken<'a>]) -> (r: Option<InkStory<'a>>)
    ensures
        match r {
            Some(story) => spec_parse(tokens_view(tokens@)) == Some(story@),
            None => spec_parse(tokens_view(tokens@)) is None,
        },
{
    let ghost toks = tokens_view(tokens@);
    let mut variables: Vec<(&'a str, VariableValue)> = Vec::new();
    let mut knots: Vec<Knot<'a>> = Vec::new();
    let mut global_tags: Vec<&'a str> = Vec::new();
    let mut lines: Vec<Line<'a>> = Vec::new();
    let mut divert: Option<&'a str> = None;
    let mut choices: Vec<Choice<'a>> = Vec::new();
    let mut tags: Vec<&'a str> = Vec::new();
    let mut i: usize = 0;
    assert(top_state_view(variables@, knots@, global_tags@, lines@, divert, choices@, tags@) == top_start()) by {
        assert(variables_view(variables@) == Seq::<(Seq<char>, SpecValue)>::empty());
        assert(knots_view(knots@) == Seq::<SpecKnot>::empty());
        assert(strs_view(tags@) == Seq::<Seq<char>>::empty());
        assert(lines_view(lines@) == Seq::<SpecLine>::empty());
        assert(choices_view(choices@) == Seq::<SpecChoice>::empty());
    }
    while i < tokens.len()
        invariant
            0 <= i <= tokens.len(),
            toks == tokens_view(tokens@),
            top_loop(toks, 0, top_start()) == top_loop(
                toks,
                i as int,
                top_state_view(variables@, knots@, global_tags@, lines@, divert, choices@, tags@),
            ),
        decreases tokens.len() - i,
    {
        assert(toks[i as int] == tokens@[i as int]@);
        match tokens[i] {
            InkToken::VariableDeclaration(s) => match parse_declaration(s) {
                Some((name, value)) => {
                    insert_variable_into(&mut variables, name, value);
                    i = i + 1;
                },
                None => {
                    return None;
                },
            },
            InkToken::Dialog((s, _)) => {
                let line_tags = if lines.len() == 0 {
                    copy_strs(&tags)
                } else {
                    Vec::new()
                };
                assert(lines.len() > 0 ==> strs_view(line_tags@) == Seq::<Seq<char>>::empty());
                push_line(&mut lines, Line::Dialog(DialogLine { text: s, tags: line_tags }));
                i = i + 1;
            },
            InkToken::KnotTitle(s) => match parse_knot(s, tokens, i + 1, false) {
                Some((ks, n)) => {
                    insert_knots_into(&mut knots, ks);
                    if choices.len() == 0 && divert.is_none() {
                        divert = Some(s);
                    }
                    i = n;
                },
                None => {
                    return None;
                },
            },
            InkToken::Divert(s) => {
                divert = Some(s);
                i = i + 1;
            },
            InkToken::Choice((s, _)) => match parse_choice(s, tokens, i, false) {
                Some((c, n)) => {
                    push_choice(&mut choices, c);
                    i = n;
                },
                None => {
                    return None;
                },
            },
            InkToken::StickyChoice((s, _)) => match parse_choice(s, tokens, i, true) {
                Some((c, n)) => {
                    push_choice(&mut choices, c);
                    i = n;
                },
                None => {
                    return None;
                },
            },
            InkToken::Tag(s) => {
                if lines.len() == 0 {
                    push_str_ref(&mut tags, s);
                    push_str_ref(&mut global_tags, s);
                } else if !tag_last(&mut lines, s) {
                    return None;
                }
                i = i + 1;
            },
            InkToken::StitchTitle(_) => {
                return None;
            },
            InkToken::Operation(_) => {
                return None;
            },
        }
    }
    let ghost st = top_state_view(variables@, knots@, global_tags@, lines@, divert, choices@, tags@);
    let end = match divert {
        Some(d) => KnotEnd::Divert(Divert { knot_title: string_of_str(d) }),
        None => if choices.len() == 0 {
            KnotEnd::Divert(Divert { knot_title: end_string() })
        } else {
            KnotEnd::Choices(choices)
        },
    };
    let intro = Knot { title: intro_string(), lines, end, knot_tags: copy_strs(&tags) };
    assert(intro@ == intro_knot(st));
    insert_knot_into(&mut knots, intro);
    Some(InkStory { global_variables_and_constants: variables, knots, global_tags })
}

/// The value of the first of `tags` of the form `key value`.
pub open spec fn first_tag_value(tags: Seq<Seq<char>>, key: Seq<char>) -> Option<Seq<char>>
    decreases tags.len(),
{
    if tags.len() == 0 {
        None
    } else {
        match tag_value(tags[0], key) {
            Some(v) => Some(v),
            None => first_tag_value(tags.drop_first(), key),
        }
    }
}

impl<'a> InkStory<'a> {
    /// The author named by the first global tag `author: name`.
    pub fn get_author(&self) -> (r: Option<String>)
        ensures
            opt_text(r) == first_tag_value(self@.global_tags, seq!['a', 'u', 't', 'h', 'o', 'r', ':']),
    {
        let key = vec!['a', 'u', 't', 'h', 'o', 'r', ':'];
        assert(key@ == seq!['a', 'u', 't', 'h', 'o', 'r', ':']);
        first_tag_value_of(&self.global_tags, &key)
    }

    /// The title named by the first global tag `title: name`.
    pub fn get_title(&self) -> (r: Option<String>)
        ensures
            opt_text(r) == first_tag_value(self@.global_tags, seq!['t', 'i', 't', 'l', 'e', ':']),
    {
        let key = vec!['t', 'i', 't', 'l', 'e', ':'];
        assert(key@ == seq!['t', 'i', 't', 'l', 'e', ':']);
        first_tag_value_of(&self.global_tags, &key)
    }
}

fn first_tag_value_of(tags: &Vec<&str>, key: &Vec<char>) -> (r: Option<String>)
    ensures
        opt_text(r) == first_tag_value(strs_view(tags@), key@),
{
    let ghost tv = strs_view(tags@);
    let mut i: usize = 0;
    assert(tv.skip(0) == tv);
    while i < tags.len()
        invariant
            0 <= i <= tags.len(),
            tv == strs_view(tags@),
            first_tag_value(tv, key@) == first_tag_value(tv.skip(i as int), key@),
        decreases tags.len() - i,
    {
        assert(tv.skip(i as int)[0] == tags@[i as int]@);
        assert(tv.skip(i as int).drop_first() == tv.skip(i + 1));
        let v = tag_value_of(tags[i], key);
        if v.is_some() {
            return v;
        }
        i = i + 1;
    }
    None
}

} // verus!
