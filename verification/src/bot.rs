//! The decisions of the story bot: what it says, how it counts down, which
//! reaction wins and which command a message holds.

use vstd::prelude::*;
use crate::ink_parser::{all_digits, all_digits_at, digits_value, is_digit, lemma_digits_nonneg, opt_text};
use crate::ink_lexer::cut_at;
use crate::text::{find_char_at, split};
use unicode_segmentation::UnicodeSegmentation;
use crate::text::{
    chars_of, push_char, push_str, range_starts_with, ranges_equal, starts_with, string_of_range,
    string_of_str,
};
use crate::ink_runner::texts_view;

verus! {

// ---------------------------------------------------------------------------
// Numbers and times
// ---------------------------------------------------------------------------

/// The decimal digit for `d` (below 10).
pub open spec fn digit_char(d: nat) -> char {
    seq!['0', '1', '2', '3', '4', '5', '6', '7', '8', '9'][d as int]
}

/// `n` written in decimal.
pub open spec fn decimal(n: nat) -> Seq<char>
    decreases n,
{
    if n < 10 {
        seq![digit_char(n)]
    } else {
        decimal(n / 10) + seq![digit_char(n % 10)]
    }
}

/// Appends `n` written in decimal.
pub fn push_decimal(r: &mut String, n: u32)
    ensures
        final(r)@ == old(r)@ + decimal(n as nat),
    decreases n,
{
    if n >= 10 {
        push_decimal(r, n / 10);
    }
    let digits = vec!['0', '1', '2', '3', '4', '5', '6', '7', '8', '9'];
    assert(digits@ == seq!['0', '1', '2', '3', '4', '5', '6', '7', '8', '9']);
    let d = (n % 10) as usize;
    push_char(r, digits[d]);
    proof {
        if n >= 10 {
            assert(decimal(n as nat) == decimal((n / 10) as nat) + seq![digit_char((n % 10) as nat)]);
        } else {
            assert(n % 10 == n);
        }
    }
}

/// The amount and unit in which a number of seconds is told: seconds below a
/// minute, whole minutes below an hour, whole hours below a day, else whole
/// days.
pub open spec fn time_amount(t: u32) -> (nat, Seq<char>) {
    if t < 60 {
        (t as nat, "second"@)
    } else if t < 3600 {
        ((t / 60) as nat, "minute"@)
    } else if t < 86400 {
        ((t / 3600) as nat, "hour"@)
    } else {
        ((t / 86400) as nat, "day"@)
    }
}

/// How the time left is told: `N unit remaining`, with the unit in the plural
/// unless `N` is 1.
pub open spec fn remaining_time_text(t: u32) -> Seq<char> {
    let (n, unit) = time_amount(t);
    decimal(n) + " "@ + unit + (if n == 1 { Seq::empty() } else { "s"@ }) + " remaining"@
}

/// Tells how much time is left, for example `2 minutes remaining`.
pub fn format_remaining_time(time_remaining: u32) -> (r: String)
    ensures
        r@ == remaining_time_text(time_remaining),
{
    let (n, unit) = if time_remaining < 60 {
        (time_remaining, "second")
    } else if time_remaining < 3600 {
        (time_remaining / 60, "minute")
    } else if time_remaining < 86400 {
        (time_remaining / 3600, "hour")
    } else {
        (time_remaining / 86400, "day")
    };
    let mut r = String::new();
    push_decimal(&mut r, n);
    push_str(&mut r, " ");
    push_str(&mut r, unit);
    if n != 1 {
        push_str(&mut r, "s");
    } else {
        assert(r@ + Seq::<char>::empty() == r@);
    }
    push_str(&mut r, " remaining");
    r
}

/// The text of a story beat with the time left under it.
pub fn beat_message(text: &str, countdown: u32) -> (r: String)
    ensures
        r@ == text@ + "\n\n("@ + remaining_time_text(countdown) + ")"@,
{
    let mut r = string_of_str(text);
    push_str(&mut r, "\n\n(");
    let t = format_remaining_time(countdown);
    push_str(&mut r, t.as_str());
    push_str(&mut r, ")");
    r
}

/// How long to wait before the next update of a countdown (at most five
/// seconds), and the time left after it.
pub fn countdown_step(countdown: u32) -> (r: (u32, u32))
    ensures
        r.0 == (if countdown < 5 { countdown } else { 5 }),
        r.1 == countdown - r.0,
{
    let wait = if countdown < 5 { countdown } else { 5 };
    (wait, countdown - wait)
}

/// The heading of a story: its title in bold and underlined, then `by` and
/// its author in italics where it has one, then an empty line. Nothing
/// without a title.
pub open spec fn heading_text(title: Option<Seq<char>>, author: Option<Seq<char>>) -> Seq<char> {
    match title {
        Some(t) => "__**"@ + t + "**__"@ + match author {
            Some(a) => " by _"@ + a + "_\n\n"@,
            None => "\n\n"@,
        },
        None => Seq::empty(),
    }
}

/// The heading of a story with the given title and author.
pub fn formatted_title_and_author(title: Option<String>, author: Option<String>) -> (r: String)
    ensures
        r@ == heading_text(opt_text(title), opt_text(author)),
{
    match title {
        Some(t) => {
            let mut r = String::new();
            push_str(&mut r, "__**");
            push_str(&mut r, t.as_str());
            push_str(&mut r, "**__");
            match author {
                Some(a) => {
                    push_str(&mut r, " by _");
                    push_str(&mut r, a.as_str());
                    push_str(&mut r, "_\n\n");
                },
                None => {
                    push_str(&mut r, "\n\n");
                },
            }
            r
        },
        None => String::new(),
    }
}

// ---------------------------------------------------------------------------
// Reactions
// ---------------------------------------------------------------------------

/// `a` comes before `b` in the order of strings (by character codes, which
/// is also the order of their UTF-8 bytes).
pub open spec fn text_less(a: Seq<char>, b: Seq<char>) -> bool
    decreases a.len(),
{
    if a.len() == 0 {
        b.len() > 0
    } else if b.len() == 0 {
        false
    } else if a[0] != b[0] {
        (a[0] as u32) < (b[0] as u32)
    } else {
        text_less(a.drop_first(), b.drop_first())
    }
}

/// Different characters have different codes.
proof fn lemma_char_code(a: char, b: char)
    ensures
        a != b ==> (a as u32) != (b as u32),
{
}

/// The order of strings is transitive.
pub proof fn lemma_text_less_transitive(a: Seq<char>, b: Seq<char>, c: Seq<char>)
    requires
        text_less(a, b),
        text_less(b, c),
    ensures
        text_less(a, c),
    decreases a.len(),
{
    if a.len() > 0 && b.len() > 0 && c.len() > 0 && a[0] == b[0] && b[0] == c[0] {
        lemma_text_less_transitive(a.drop_first(), b.drop_first(), c.drop_first());
    }
}

/// Of two different strings, one comes before the other, and not both.
pub proof fn lemma_text_less_total(a: Seq<char>, b: Seq<char>)
    ensures
        a != b ==> (text_less(a, b) || text_less(b, a)),
        !(text_less(a, b) && text_less(b, a)),
        !text_less(a, a),
    decreases a.len(),
{
    if a.len() > 0 && b.len() > 0 {
        lemma_text_less_total(a.drop_first(), b.drop_first());
        if a[0] == b[0] && a != b {
            assert(a.drop_first() != b.drop_first()) by {
                if a.drop_first() == b.drop_first() {
                    assert(a =~= seq![a[0]] + a.drop_first());
                    assert(b =~= seq![b[0]] + b.drop_first());
                }
            }
        }
        if a[0] != b[0] {
            lemma_char_code(a[0], b[0]);
        }
    } else if a.len() == 0 && b.len() == 0 {
        assert(a =~= b);
    }
    if a.len() > 0 {
        lemma_text_less_total(a.drop_first(), a.drop_first());
    }
}

/// `text_less` on actual strings.
fn string_less(a: &String, b: &String) -> (r: bool)
    ensures
        r == text_less(a@, b@),
{
    let va = chars_of(a.as_str());
    let vb = chars_of(b.as_str());
    let mut i: usize = 0;
    assert(va@.skip(0) == va@);
    assert(vb@.skip(0) == vb@);
    while i < va.len() && i < vb.len() && va[i] == vb[i]
        invariant
            0 <= i <= va.len(),
            i <= vb.len(),
            va@ == a@,
            vb@ == b@,
            text_less(a@, b@) == text_less(va@.skip(i as int), vb@.skip(i as int)),
        decreases va.len() - i,
    {
        assert(va@.skip(i as int).drop_first() == va@.skip(i + 1));
        assert(vb@.skip(i as int).drop_first() == vb@.skip(i + 1));
        i = i + 1;
    }
    if i == va.len() {
        i < vb.len()
    } else if i == vb.len() {
        false
    } else {
        assert(va@.skip(i as int)[0] == va@[i as int]);
        assert(vb@.skip(i as int)[0] == vb@[i as int]);
        (va[i] as u32) < (vb[i] as u32)
    }
}

/// The count of the last reaction with emoji `e`, if any has it.
pub open spec fn last_count(reactions: Seq<(Seq<char>, u64)>, e: Seq<char>) -> Option<u64>
    decreases reactions.len(),
{
    if reactions.len() == 0 {
        None
    } else {
        match last_count(reactions.drop_first(), e) {
            Some(c) => Some(c),
            None => if reactions[0].0 == e {
                Some(reactions[0].1)
            } else {
                None
            },
        }
    }
}

/// An approved emoji that has reactions.
pub open spec fn counted(reactions: Seq<(Seq<char>, u64)>, approved: Seq<Seq<char>>, e: Seq<char>) -> bool {
    approved.contains(e) && last_count(reactions, e) is Some
}

/// `w` wins: it is an approved emoji with reactions, and every other such
/// emoji has fewer, or as many and comes before it (so of the emoji with the
/// most reactions, the last in string order wins).
pub open spec fn wins(reactions: Seq<(Seq<char>, u64)>, approved: Seq<Seq<char>>, w: Seq<char>) -> bool {
    &&& counted(reactions, approved, w)
    &&& forall|e: Seq<char>| #[trigger] counted(reactions, approved, e) ==> {
        let c = last_count(reactions, e).unwrap();
        let cw = last_count(reactions, w).unwrap();
        c < cw || (c == cw && !text_less(w, e))
    }
}

/// At most one emoji wins.
pub proof fn lemma_winner_unique(reactions: Seq<(Seq<char>, u64)>, approved: Seq<Seq<char>>, a: Seq<char>, b: Seq<char>)
    requires
        wins(reactions, approved, a),
        wins(reactions, approved, b),
    ensures
        a == b,
{
    lemma_text_less_total(a, b);
}

/// The strings as texts.
pub open spec fn reactions_view(v: Seq<(String, u64)>) -> Seq<(Seq<char>, u64)> {
    v.map_values(|p: (String, u64)| (p.0@, p.1))
}

fn texts_contain_str(v: &Vec<String>, s: &String) -> (r: bool)
    ensures
        r == texts_view(v@).contains(s@),
{
    let mut i: usize = 0;
    while i < v.len()
        invariant
            0 <= i <= v.len(),
            forall|j: int| 0 <= j < i ==> (#[trigger] v@[j])@ != s@,
        decreases v.len() - i,
    {
        if v[i] == *s {
            assert(texts_view(v@)[i as int] == s@);
            return true;
        }
        i = i + 1;
    }
    assert forall|j: int| 0 <= j < texts_view(v@).len() implies texts_view(v@)[j] != s@ by {
        assert(v@[j]@ != s@);
    }
    false
}

/// Some reaction after index `i` has the emoji `k`.
fn seen_after(reactions: &Vec<(String, u64)>, i: usize, k: &String) -> (r: bool)
    requires
        i < reactions.len(),
    ensures
        r == last_count(reactions_view(reactions@).skip(i + 1), k@) is Some,
{
    let ghost rv = reactions_view(reactions@);
    let mut j = i + 1;
    while j < reactions.len()
        invariant
            i < j <= reactions.len(),
            rv == reactions_view(reactions@),
            (last_count(rv.skip(i + 1), k@) is Some) == (last_count(rv.skip(j as int), k@) is Some),
        decreases reactions.len() - j,
    {
        assert(rv.skip(j as int).drop_first() == rv.skip(j + 1));
        assert(rv.skip(j as int)[0] == rv[j as int]);
        if reactions[j].0 == *k {
            return true;
        }
        j = j + 1;
    }
    assert(rv.skip(j as int).len() == 0);
    false
}

/// The emoji that wins the vote (see `wins`); `None` when no approved emoji
/// has reactions.
pub fn winning_emoji(reactions: &Vec<(String, u64)>, approved: &Vec<String>) -> (r: Option<String>)
    ensures
        match r {
            Some(w) => wins(reactions_view(reactions@), texts_view(approved@), w@),
            None => forall|e: Seq<char>| !counted(reactions_view(reactions@), texts_view(approved@), e),
        },
{
    let ghost rv = reactions_view(reactions@);
    let ghost av = texts_view(approved@);
    let mut best: Option<(String, u64)> = None;
    let mut i: usize = reactions.len();
    assert(rv.skip(reactions.len() as int).len() == 0);
    // Going from the last reaction to the first, each emoji is first met at
    // its last reaction.
    while i > 0
        invariant
            0 <= i <= reactions.len(),
            rv == reactions_view(reactions@),
            av == texts_view(approved@),
            match best {
                Some((w, c)) => {
                    &&& av.contains(w@)
                    &&& last_count(rv.skip(i as int), w@) == Some(c)
                    &&& forall|e: Seq<char>| av.contains(e) && #[trigger] last_count(rv.skip(i as int), e) is Some ==> {
                        let ce = last_count(rv.skip(i as int), e).unwrap();
                        ce < c || (ce == c && !text_less(w@, e))
                    }
                },
                None => forall|e: Seq<char>| av.contains(e) ==> #[trigger] last_count(rv.skip(i as int), e) is None,
            },
        decreases i,
    {
        let ghost s1 = rv.skip(i as int);
        i = i - 1;
        let ghost s0 = rv.skip(i as int);
        assert(s0.drop_first() == s1);
        assert(s0[0] == rv[i as int]);
        let k = &reactions[i].0;
        let c0 = reactions[i].1;
        assert(rv[i as int] == (k@, c0));
        let seen = seen_after(reactions, i, k);
        if !seen && texts_contain_str(approved, k) {
            let take = match &best {
                None => true,
                Some((w, c)) => c0 > *c || (c0 == *c && string_less(w, k)),
            };
            if take {
                proof {
                    assert forall|e: Seq<char>| av.contains(e) && #[trigger] last_count(s0, e) is Some implies ({
                        let ce = last_count(s0, e).unwrap();
                        ce < c0 || (ce == c0 && !text_less(k@, e))
                    }) by {
                        lemma_text_less_total(k@, e);
                        if e != k@ {
                            match &best {
                                Some((w, c)) => {
                                    let ce = last_count(s0, e).unwrap();
                                    assert(last_count(s1, e) is Some);
                                    lemma_text_less_total(w@, e);
                                    if ce == c0 && *c == c0 && text_less(k@, e) {
                                        lemma_text_less_transitive(w@, k@, e);
                                    }
                                },
                                None => {},
                            }
                        }
                    }
                }
                best = Some((k.clone(), c0));
            } else {
                proof {
                    match &best {
                        Some((w, c)) => {
                            assert forall|e: Seq<char>| av.contains(e) && #[trigger] last_count(s0, e) is Some implies ({
                                let ce = last_count(s0, e).unwrap();
                                ce < *c || (ce == *c && !text_less(w@, e))
                            }) by {
                                if e != k@ {
                                    assert(last_count(s1, e) is Some);
                                }
                            }
                        },
                        None => {},
                    }
                }
            }
        } else {
            proof {
                match &best {
                    Some((w, c)) => {
                        assert forall|e: Seq<char>| av.contains(e) && #[trigger] last_count(s0, e) is Some implies ({
                            let ce = last_count(s0, e).unwrap();
                            ce < *c || (ce == *c && !text_less(w@, e))
                        }) by {
                            if e == k@ {
                                if !seen {
                                    assert(!av.contains(e));
                                }
                            }
                            assert(last_count(s1, e) is Some);
                        }
                    },
                    None => {
                        assert forall|e: Seq<char>| av.contains(e) implies #[trigger] last_count(s0, e) is None by {
                            assert(last_count(s1, e) is None);
                            if e == k@ {
                                if !seen {
                                    assert(!av.contains(e));
                                }
                            }
                        }
                    },
                }
            }
        }
    }
    assert(rv.skip(0) == rv);
    match best {
        Some((w, _)) => Some(w),
        None => None,
    }
}

/// The first of `choices` that starts with `emoji`.
pub open spec fn choice_with_prefix(choices: Seq<Seq<char>>, emoji: Seq<char>) -> Option<Seq<char>>
    decreases choices.len(),
{
    if choices.len() == 0 {
        None
    } else if starts_with(choices[0], emoji) {
        Some(choices[0])
    } else {
        choice_with_prefix(choices.drop_first(), emoji)
    }
}

/// The choice that the winning emoji stands for: the first that starts with it.
pub fn choice_for_emoji(choices: &Vec<String>, emoji: &str) -> (r: Option<String>)
    ensures
        opt_text(r) == choice_with_prefix(texts_view(choices@), emoji@),
{
    let ghost cv = texts_view(choices@);
    let e = chars_of(emoji);
    let mut i: usize = 0;
    assert(cv.skip(0) == cv);
    while i < choices.len()
        invariant
            0 <= i <= choices.len(),
            cv == texts_view(choices@),
            e@ == emoji@,
            choice_with_prefix(cv, emoji@) == choice_with_prefix(cv.skip(i as int), emoji@),
        decreases choices.len() - i,
    {
        assert(cv.skip(i as int)[0] == choices@[i as int]@);
        assert(cv.skip(i as int).drop_first() == cv.skip(i + 1));
        let v = chars_of(choices[i].as_str());
        assert(v@.subrange(0, v.len() as int) == v@);
        if range_starts_with(&v, 0, v.len(), &e) {
            return Some(choices[i].clone());
        }
        i = i + 1;
    }
    None
}

// ---------------------------------------------------------------------------
// Emoji
// ---------------------------------------------------------------------------

/// The first grapheme cluster (extended) of a text, as the crate
/// `unicode-segmentation` finds it.
pub uninterp spec fn first_grapheme_of(text: Seq<char>) -> Seq<char>;

/// Calls `UnicodeSegmentation::graphemes` (extended clusters) and takes the
/// first cluster. As the crate's source shows, there is none for an empty
/// text, and otherwise it is a non-empty beginning of the text; which
/// beginning (the rules of Unicode Standard Annex #29) is left to the name
/// `first_grapheme_of`.
#[verifier::external_body]
fn first_grapheme(s: &str) -> (r: Option<String>)
    ensures
        match r {
            Some(g) => g@ == first_grapheme_of(s@) && g@.len() > 0 && s@.len() > 0 && starts_with(s@, g@),
            None => s@.len() == 0,
        },
{
    match s.graphemes(true).next() {
        Some(g) => Some(g.to_string()),
        None => None,
    }
}

/// The emoji that readers may react with: the first grapheme cluster of each
/// choice (each choice starts with its emoji).
pub fn approved_emoji(choices: &Vec<String>) -> (r: Vec<String>)
    requires
        forall|i: int| 0 <= i < choices.len() ==> (#[trigger] choices@[i])@.len() > 0,
    ensures
        r.len() == choices.len(),
        forall|i: int| 0 <= i < choices.len() ==> (#[trigger] r@[i])@ == first_grapheme_of(choices@[i]@),
{
    let mut r: Vec<String> = Vec::new();
    let mut i: usize = 0;
    while i < choices.len()
        invariant
            0 <= i <= choices.len(),
            r.len() == i,
            forall|i: int| 0 <= i < choices.len() ==> (#[trigger] choices@[i])@.len() > 0,
            forall|j: int| 0 <= j < i ==> (#[trigger] r@[j])@ == first_grapheme_of(choices@[j]@),
        decreases choices.len() - i,
    {
        assert(choices@[i as int]@.len() > 0);
        let g = first_grapheme(choices[i].as_str()).unwrap();
        r.push(g);
        i = i + 1;
    }
    r
}

// ---------------------------------------------------------------------------
// Commands
// ---------------------------------------------------------------------------

/// A command that a message gives the bot.
#[derive(Debug, PartialEq, Eq, Clone)]
pub enum Command {
    /// `help`: how to start a story.
    Help,
    /// `prefix NEW`: the prefix becomes what follows the first space.
    SetPrefix(String),
    /// `prefix` alone: how to set the prefix.
    PrefixHelp,
    /// `play` alone: which stories there are.
    ListStories,
    /// `play NAME [SECONDS]`: play a story, each beat lasting the given number
    /// of seconds (60 when it is missing or not a number).
    Play(String, u32),
    Continue,
    Pause,
    Stop,
    /// Anything else.
    Ignore,
}

pub enum SpecCommand {
    Help,
    SetPrefix(Seq<char>),
    PrefixHelp,
    ListStories,
    Play(Seq<char>, u32),
    Continue,
    Pause,
    Stop,
    Ignore,
}

impl View for Command {
    type V = SpecCommand;

    open spec fn view(&self) -> SpecCommand {
        match self {
            Command::Help => SpecCommand::Help,
            Command::SetPrefix(p) => SpecCommand::SetPrefix(p@),
            Command::PrefixHelp => SpecCommand::PrefixHelp,
            Command::ListStories => SpecCommand::ListStories,
            Command::Play(n, t) => SpecCommand::Play(n@, *t),
            Command::Continue => SpecCommand::Continue,
            Command::Pause => SpecCommand::Pause,
            Command::Stop => SpecCommand::Stop,
            Command::Ignore => SpecCommand::Ignore,
        }
    }
}

/// What `str::parse::<u32>` gives: an optional `+`, then at least one decimal
/// digit and nothing else, for a value that fits in a `u32`.
pub open spec fn spec_parse_u32(t: Seq<char>) -> Option<u32> {
    let d = if t.len() > 0 && t[0] == '+' {
        t.skip(1)
    } else {
        t
    };
    if d.len() == 0 || !all_digits(d) {
        None
    } else if digits_value(d) <= u32::MAX {
        Some(digits_value(d) as u32)
    } else {
        None
    }
}

/// The number of seconds that a story beat lasts when none is given.
pub open spec fn default_beat_seconds() -> u32 {
    60
}

/// The command in message `content` for the command prefix `prefix`.
pub open spec fn command_of(content: Seq<char>, prefix: Seq<char>) -> SpecCommand {
    if starts_with(content, prefix + seq!['h', 'e', 'l', 'p']) {
        SpecCommand::Help
    } else if starts_with(content, prefix + seq!['p', 'r', 'e', 'f', 'i', 'x']) {
        match cut_at(content, seq![' ']) {
            Some((_, rest)) => SpecCommand::SetPrefix(rest),
            None => SpecCommand::PrefixHelp,
        }
    } else if starts_with(content, prefix + seq!['p', 'l', 'a', 'y']) {
        match cut_at(content, seq![' ']) {
            Some(_) => {
                let args = split(content, ' ');
                let seconds = if args.len() >= 3 {
                    match spec_parse_u32(args[2]) {
                        Some(n) => n,
                        None => default_beat_seconds(),
                    }
                } else {
                    default_beat_seconds()
                };
                SpecCommand::Play(args[1], seconds)
            },
            None => SpecCommand::ListStories,
        }
    } else if content == prefix + seq!['c', 'o', 'n', 't', 'i', 'n', 'u', 'e'] {
        SpecCommand::Continue
    } else if content == prefix + seq!['p', 'a', 'u', 's', 'e'] {
        SpecCommand::Pause
    } else if content == prefix + seq!['s', 't', 'o', 'p'] {
        SpecCommand::Stop
    } else {
        SpecCommand::Ignore
    }
}

/// `str::parse::<u32>` on `v[lo..hi]`.
fn parse_u32_at(v: &Vec<char>, lo: usize, hi: usize) -> (r: Option<u32>)
    requires
        lo <= hi <= v.len(),
    ensures
        r == spec_parse_u32(v@.subrange(lo as int, hi as int)),
{
    let ghost t = v@.subrange(lo as int, hi as int);
    let start = if lo < hi && v[lo] == '+' { lo + 1 } else { lo };
    if lo < hi {
        assert(t.skip(1) == v@.subrange(lo + 1, hi as int));
    }
    assert(start == lo ==> t == v@.subrange(start as int, hi as int));
    if start == hi || !all_digits_at(v, start, hi) {
        return None;
    }
    let cap: u64 = 4294967296;
    let mut acc: u64 = 0;
    let mut i = start;
    assert(v@.subrange(start as int, start as int) == Seq::<char>::empty());
    while i < hi
        invariant
            lo <= start <= i <= hi <= v.len(),
            all_digits(v@.subrange(start as int, hi as int)),
            acc <= cap,
            cap == 4294967296,
            acc == (if digits_value(v@.subrange(start as int, i as int)) < cap {
                digits_value(v@.subrange(start as int, i as int))
            } else {
                cap as int
            }),
        decreases hi - i,
    {
        assert(is_digit(v@.subrange(start as int, hi as int)[i - start]));
        let d = (v[i] as u32 - 48) as u64;
        assert(v@.subrange(start as int, i + 1).drop_last() == v@.subrange(start as int, i as int));
        let ghost x = digits_value(v@.subrange(start as int, i as int));
        assert(digits_value(v@.subrange(start as int, i + 1)) == x * 10 + d);
        if acc >= cap {
            acc = cap;
        } else {
            let next = acc * 10 + d;
            acc = if next < cap { next } else { cap };
        }
        i = i + 1;
    }
    assert(v@.subrange(start as int, hi as int) == if start == lo { t } else { t.skip(1) });
    proof {
        lemma_digits_nonneg(v@.subrange(start as int, hi as int));
    }
    if acc <= 4294967295 {
        Some(acc as u32)
    } else {
        None
    }
}

/// The characters of `p` followed by those of `word`.
fn pattern(p: &Vec<char>, word: &Vec<char>) -> (r: Vec<char>)
    ensures
        r@ == p@ + word@,
{
    let mut r: Vec<char> = Vec::new();
    crate::text::append_range(&mut r, p, 0, p.len());
    crate::text::append_range(&mut r, word, 0, word.len());
    assert(p@.subrange(0, p.len() as int) == p@);
    assert(word@.subrange(0, word.len() as int) == word@);
    r
}

/// The first piece of `v[lo..hi]` split at `c`, and whether more follow.
fn first_piece(v: &Vec<char>, lo: usize, hi: usize, c: char) -> (r: (usize, bool))
    requires
        lo <= hi <= v.len(),
    ensures
        lo <= r.0 <= hi,
        split(v@.subrange(lo as int, hi as int), c)[0] == v@.subrange(lo as int, r.0 as int),
        r.1 ==> r.0 < hi && split(v@.subrange(lo as int, hi as int), c) == seq![
            v@.subrange(lo as int, r.0 as int),
        ] + split(v@.subrange(r.0 + 1, hi as int), c),
        !r.1 ==> r.0 == hi && split(v@.subrange(lo as int, hi as int), c).len() == 1,
{
    match find_char_at(v, lo, hi, c) {
        Some(k) => {
            assert(v@.subrange(lo as int, hi as int).take(k - lo) == v@.subrange(lo as int, k as int));
            assert(v@.subrange(lo as int, hi as int).skip(k - lo + 1) == v@.subrange(k + 1, hi as int));
            (k, true)
        },
        None => (hi, false),
    }
}

/// Reads the command in a message, given the command prefix.
pub fn parse_command(content: &str, prefix: &str) -> (r: Command)
    ensures
        r@ == command_of(content@, prefix@),
{
    let v = chars_of(content);
    let n = v.len();
    let p = chars_of(prefix);
    assert(v@.subrange(0, n as int) == v@);
    let help = pattern(&p, &vec!['h', 'e', 'l', 'p']);
    let prefix_word = pattern(&p, &vec!['p', 'r', 'e', 'f', 'i', 'x']);
    let play = pattern(&p, &vec!['p', 'l', 'a', 'y']);
    let cont = pattern(&p, &vec!['c', 'o', 'n', 't', 'i', 'n', 'u', 'e']);
    let pause = pattern(&p, &vec!['p', 'a', 'u', 's', 'e']);
    let stop = pattern(&p, &vec!['s', 't', 'o', 'p']);
    if range_starts_with(&v, 0, n, &help) {
        return Command::Help;
    }
    if range_starts_with(&v, 0, n, &prefix_word) {
        return match find_char_at(&v, 0, n, ' ') {
            Some(k) => {
                assert(v@.skip(k + 1) == v@.subrange(k + 1, n as int));
                Command::SetPrefix(string_of_range(&v, k + 1, n))
            },
            None => Command::PrefixHelp,
        };
    }
    if range_starts_with(&v, 0, n, &play) {
        return match find_char_at(&v, 0, n, ' ') {
            Some(_) => {
                let (e0, more0) = first_piece(&v, 0, n, ' ');
                let (e1, more1) = first_piece(&v, e0 + 1, n, ' ');
                let name = string_of_range(&v, e0 + 1, e1);
                let seconds = if more1 {
                    let (e2, _) = first_piece(&v, e1 + 1, n, ' ');
                    match parse_u32_at(&v, e1 + 1, e2) {
                        Some(s) => s,
                        None => 60,
                    }
                } else {
                    60
                };
                Command::Play(name, seconds)
            },
            None => Command::ListStories,
        };
    }
    assert(cont@.subrange(0, cont.len() as int) == cont@);
    assert(pause@.subrange(0, pause.len() as int) == pause@);
    assert(stop@.subrange(0, stop.len() as int) == stop@);
    if ranges_equal(&v, 0, n, &cont, 0, cont.len()) {
        Command::Continue
    } else if ranges_equal(&v, 0, n, &pause, 0, pause.len()) {
        Command::Pause
    } else if ranges_equal(&v, 0, n, &stop, 0, stop.len()) {
        Command::Stop
    } else {
        Command::Ignore
    }
}

// ---------------------------------------------------------------------------
// Messages
// ---------------------------------------------------------------------------

/// The texts joined with `sep` between them.
pub open spec fn joined(ts: Seq<Seq<char>>, sep: Seq<char>) -> Seq<char>
    decreases ts.len(),
{
    if ts.len() == 0 {
        Seq::empty()
    } else if ts.len() == 1 {
        ts[0]
    } else {
        joined(ts.drop_last(), sep) + sep + ts.last()
    }
}

/// Joins strings with `sep` between them.
pub fn join_strings(v: &Vec<String>, sep: &str) -> (r: String)
    ensures
        r@ == joined(texts_view(v@), sep@),
{
    let ghost tv = texts_view(v@);
    let mut r = String::new();
    let mut i: usize = 0;
    while i < v.len()
        invariant
            0 <= i <= v.len(),
            tv == texts_view(v@),
            r@ == joined(tv.take(i as int), sep@),
        decreases v.len() - i,
    {
        assert(tv.take(i + 1).drop_last() == tv.take(i as int));
        assert(tv[i as int] == v@[i as int]@);
        if i > 0 {
            push_str(&mut r, sep);
        } else {
            assert(tv.take(1) == seq![tv[0]]);
        }
        push_str(&mut r, v[i].as_str());
        i = i + 1;
    }
    assert(tv.take(v.len() as int) == tv);
    r
}

/// How to start a story.
pub fn help_text(prefix: &str) -> (r: String)
    ensures
        r@ == "To start a story type something like `"@ + prefix@
            + "play story1 duration`, where `story1` is the story you would like to run, and `duration` is the number of seconds that each story beat should last (defaults to 60).\n\nTo change the prefix, use the `"@
            + prefix@ + "prefix` command"@,
{
    let mut r = String::new();
    push_str(&mut r, "To start a story type something like `");
    push_str(&mut r, prefix);
    push_str(
        &mut r,
        "play story1 duration`, where `story1` is the story you would like to run, and `duration` is the number of seconds that each story beat should last (defaults to 60).\n\nTo change the prefix, use the `",
    );
    push_str(&mut r, prefix);
    push_str(&mut r, "prefix` command");
    r
}

/// The answer to a new prefix.
pub fn prefix_set_text(new_prefix: &str) -> (r: String)
    ensures
        r@ == "prefix has been set to: "@ + new_prefix@,
{
    let mut r = String::new();
    push_str(&mut r, "prefix has been set to: ");
    push_str(&mut r, new_prefix);
    r
}

/// How to set a different prefix.
pub fn prefix_help_text(prefix: &str) -> (r: String)
    ensures
        r@ == "To set a different prefix, type something like `"@ + prefix@
            + "prefix +`, where `+` is the new prefix to use, instead of `"@ + prefix@ + "`."@,
{
    let mut r = String::new();
    push_str(&mut r, "To set a different prefix, type something like `");
    push_str(&mut r, prefix);
    push_str(&mut r, "prefix +`, where `+` is the new prefix to use, instead of `");
    push_str(&mut r, prefix);
    push_str(&mut r, "`.");
    r
}

/// A story in the list of stories: its name in code style, then `by` and
/// its author where it has one.
pub fn story_entry(name: &str, author: Option<String>) -> (r: String)
    ensures
        r@ == "`"@ + name@ + "`"@ + match opt_text(author) {
            Some(a) => " by "@ + a,
            None => Seq::empty(),
        },
{
    let mut r = String::new();
    push_str(&mut r, "`");
    push_str(&mut r, name);
    push_str(&mut r, "`");
    match author {
        Some(a) => {
            push_str(&mut r, " by ");
            push_str(&mut r, a.as_str());
        },
        None => {
            assert(r@ + Seq::<char>::empty() == r@);
        },
    }
    r
}

/// How to play a story, with the list of stories.
pub fn play_help_text(prefix: &str, entries: &Vec<String>) -> (r: String)
    ensures
        r@ == "To play a story, type something like `"@ + prefix@
            + "play story_name duration`, where `duration` is the number of seconds that each story beat should last (defaults to 60), and `story_name` is the one of the following:\n\n- "@
            + joined(texts_view(entries@), "\n- "@),
{
    let mut r = String::new();
    push_str(&mut r, "To play a story, type something like `");
    push_str(&mut r, prefix);
    push_str(
        &mut r,
        "play story_name duration`, where `duration` is the number of seconds that each story beat should last (defaults to 60), and `story_name` is the one of the following:\n\n- ",
    );
    let list = join_strings(entries, "\n- ");
    push_str(&mut r, list.as_str());
    r
}

/// The text of a story beat: the heading (first beat only), the lines, then
/// the options unless they are hidden.
pub fn beat_text(heading: &str, lines: &str, choices: &Vec<String>, hide_choices: bool) -> (r: String)
    ensures
        r@ == heading@ + lines@ + if hide_choices {
            Seq::empty()
        } else {
            "\n\n"@ + joined(texts_view(choices@), "\n"@)
        },
{
    let mut r = string_of_str(heading);
    push_str(&mut r, lines);
    if !hide_choices {
        push_str(&mut r, "\n\n");
        let list = join_strings(choices, "\n");
        push_str(&mut r, list.as_str());
    } else {
        assert(r@ + Seq::<char>::empty() == r@);
    }
    r
}

/// The last message of a story: its last lines, then `END.`.
pub fn final_text(lines: &str) -> (r: String)
    ensures
        r@ == lines@ + "\nEND."@,
{
    let mut r = string_of_str(lines);
    push_str(&mut r, "\nEND.");
    r
}

// ---------------------------------------------------------------------------
// Playing one game at a time
// ---------------------------------------------------------------------------

/// Whether a game is being played, and whether a stop was asked for.
#[derive(Debug, Clone, Copy, PartialEq, Eq)]
pub struct Session {
    pub active: bool,
    pub stopped: bool,
}

/// What happens to a session.
#[derive(Debug, Clone, Copy, PartialEq, Eq)]
pub enum SessionEvent {
    /// A `play` command.
    Play,
    /// A `stop` command.
    Stop,
    /// A tick of a beat's countdown.
    Tick,
    /// The countdown of a beat is over: the vote is about to be read.
    Vote,
    /// A beat is over and its choice was taken.
    BeatEnd,
    /// The story reached its end and its last message was sent.
    Finish,
}

/// What the bot does next.
#[derive(Debug, Clone, Copy, PartialEq, Eq)]
pub enum SessionAction {
    /// Answer that a story is already in progress, and change nothing.
    AlreadyInProgress,
    /// Start the story.
    Start,
    /// Announce that the story was stopped, and end it.
    AnnounceStopped,
    /// Go on as usual.
    Continue,
    /// End the countdown of the beat at once.
    EndCountdown,
    /// Take the first emoji without reading the vote.
    TakeFirstEmoji,
}

/// One game at a time, and a stop command: a `play` while a game runs is
/// answered and changes nothing; otherwise it starts the game. A `stop`
/// makes the session inactive and stopped. While stopped, the countdown ends
/// at the next tick, the vote is skipped for the first emoji, and at the end
/// of the beat the stop is announced and both flags are cleared. The end of
/// the story makes the session inactive.
pub open spec fn spec_session_step(s: Session, e: SessionEvent) -> (Session, SessionAction) {
    match e {
        SessionEvent::Play => if s.active {
            (s, SessionAction::AlreadyInProgress)
        } else {
            (Session { active: true, ..s }, SessionAction::Start)
        },
        SessionEvent::Stop => (Session { active: false, stopped: true }, SessionAction::Continue),
        SessionEvent::Tick => if s.stopped {
            (s, SessionAction::EndCountdown)
        } else {
            (s, SessionAction::Continue)
        },
        SessionEvent::Vote => if s.stopped {
            (s, SessionAction::TakeFirstEmoji)
        } else {
            (s, SessionAction::Continue)
        },
        SessionEvent::BeatEnd => if s.stopped {
            (Session { active: false, stopped: false }, SessionAction::AnnounceStopped)
        } else {
            (s, SessionAction::Continue)
        },
        SessionEvent::Finish => (Session { active: false, ..s }, SessionAction::Continue),
    }
}

/// The next session and what to do, for an event.
pub fn session_step(s: Session, e: SessionEvent) -> (r: (Session, SessionAction))
    ensures
        r == spec_session_step(s, e),
{
    match e {
        SessionEvent::Play => if s.active {
            (s, SessionAction::AlreadyInProgress)
        } else {
            (Session { active: true, stopped: s.stopped }, SessionAction::Start)
        },
        SessionEvent::Stop => (Session { active: false, stopped: true }, SessionAction::Continue),
        SessionEvent::Tick => if s.stopped {
            (s, SessionAction::EndCountdown)
        } else {
            (s, SessionAction::Continue)
        },
        SessionEvent::Vote => if s.stopped {
            (s, SessionAction::TakeFirstEmoji)
        } else {
            (s, SessionAction::Continue)
        },
        SessionEvent::BeatEnd => if s.stopped {
            (Session { active: false, stopped: false }, SessionAction::AnnounceStopped)
        } else {
            (s, SessionAction::Continue)
        },
        SessionEvent::Finish => (Session { active: false, stopped: s.stopped }, SessionAction::Continue),
    }
}

/// Only one game at a time: while a game is active, a `play` neither starts
/// another nor changes the session.
pub proof fn law_one_game_at_a_time(s: Session)
    requires
        s.active,
    ensures
        spec_session_step(s, SessionEvent::Play) == (s, SessionAction::AlreadyInProgress),
{
}

/// A stop is always carried out: after `stop`, the game is inactive, and the
/// end of the beat under way announces the stop and leaves the session idle
/// and ready for another game.
pub proof fn law_stop_ends_game(s: Session)
    ensures
        !spec_session_step(s, SessionEvent::Stop).0.active,
        spec_session_step(spec_session_step(s, SessionEvent::Stop).0, SessionEvent::BeatEnd) == (
            Session { active: false, stopped: false },
            SessionAction::AnnounceStopped,
        ),
        spec_session_step(
            spec_session_step(spec_session_step(s, SessionEvent::Stop).0, SessionEvent::BeatEnd).0,
            SessionEvent::Play,
        ).1 == SessionAction::Start,
{
}

} // verus!
