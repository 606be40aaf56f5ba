//! Playing a parsed story: following diverts, offering choices and taking them.

use vstd::prelude::*;
use crate::ink_lexer::{lexable, spec_lex, spec_strip_comments, try_lex, try_strip_comments};
use crate::text::{chars_of, leak_text, range_starts_with, starts_with, str_equal, string_of_str};
use crate::ink_parser::{
    choices_view, Choice, lemma_knot_index,
    copy_strs, end_string, intro_string, lines_view, strs_view, KnotEnd, Line,
    end_title, intro_title, knot_index, try_lexed_to_parsed, spec_parse, DialogLine, InkStory, SpecChoice,
    SpecDialogLine, SpecKnot, SpecKnotEnd, SpecLine, SpecStory, SpecValue, VariableValue,
};

verus! {

// ---------------------------------------------------------------------------
// What running a story does
// ---------------------------------------------------------------------------

/// The value of the state of a story being played.
pub struct SpecState {
    pub current: Seq<char>,
    pub variables: Seq<(Seq<char>, SpecValue)>,
    pub visited: Seq<Seq<char>>,
    pub chosen: Seq<(Seq<char>, Seq<char>)>,
}

/// `s` with `x` added at the end, unless it holds it already.
pub open spec fn add_unique<T>(s: Seq<T>, x: T) -> Seq<T> {
    if s.contains(x) {
        s
    } else {
        s.push(x)
    }
}

/// The state in which a story starts: at `__INTRO__`, nothing seen or chosen.
pub open spec fn initial_state() -> SpecState {
    SpecState {
        current: intro_title(),
        variables: Seq::empty(),
        visited: Seq::empty(),
        chosen: Seq::empty(),
    }
}

/// The knot with title `t`.
pub open spec fn knot_of(story: SpecStory, t: Seq<char>) -> Option<SpecKnot> {
    match knot_index(story.knots, t) {
        Some(j) => Some(story.knots[j]),
        None => None,
    }
}

/// The knot `name` was seen: it, or one of its stitches, was visited.
pub open spec fn knot_seen(visited: Seq<Seq<char>>, name: Seq<char>) -> bool {
    exists|i: int| 0 <= i < visited.len() && (#[trigger] visited[i] == name || starts_with(visited[i], name.push('.')))
}

/// A choice's condition holds: it has none, or the knot it names was seen.
pub open spec fn condition_holds(condition: Option<Seq<char>>, visited: Seq<Seq<char>>) -> bool {
    match condition {
        Some(name) => knot_seen(visited, name),
        None => true,
    }
}

/// The texts of the choices that can still be taken in knot `current`: those
/// whose condition holds, sticky ones always, the others until they are
/// chosen there.
pub open spec fn available(
    cs: Seq<SpecChoice>,
    current: Seq<char>,
    chosen: Seq<(Seq<char>, Seq<char>)>,
    visited: Seq<Seq<char>>,
) -> Seq<Seq<char>>
    decreases cs.len(),
{
    if cs.len() == 0 {
        Seq::empty()
    } else {
        let rest = available(cs.drop_last(), current, chosen, visited);
        let c = cs.last();
        if condition_holds(c.condition, visited) && (c.sticky || !chosen.contains((current, c.text))) {
            rest.push(c.text)
        } else {
            rest
        }
    }
}

/// `s` without its empty texts.
pub open spec fn without_empty(s: Seq<Seq<char>>) -> Seq<Seq<char>>
    decreases s.len(),
{
    if s.len() == 0 {
        s
    } else if s.last().len() == 0 {
        without_empty(s.drop_last())
    } else {
        without_empty(s.drop_last()).push(s.last())
    }
}

/// The options offered to the reader: none at `END`; else the available
/// choices of the current knot, where the fallback (the choice without text)
/// is offered only when it is the one choice left. `None` where the current
/// knot does not exist or ends with a divert.
pub open spec fn spec_options(story: SpecStory, st: SpecState) -> Option<Seq<Seq<char>>> {
    if st.current == end_title() {
        Some(Seq::empty())
    } else {
        match knot_of(story, st.current) {
            Some(k) => match k.end {
                SpecKnotEnd::Choices(cs) => {
                    let a = available(cs, st.current, st.chosen, st.visited);
                    if a.len() == 1 && a[0].len() == 0 {
                        Some(a)
                    } else {
                        Some(without_empty(a))
                    }
                },
                SpecKnotEnd::Divert(_) => None,
            },
            None => None,
        }
    }
}

/// The dialog of a list of lines; `None` if one of them is an operation.
pub open spec fn dialog_of(lines: Seq<SpecLine>) -> Option<Seq<SpecDialogLine>>
    decreases lines.len(),
{
    if lines.len() == 0 {
        Some(Seq::empty())
    } else {
        match (dialog_of(lines.drop_last()), lines.last()) {
            (Some(ds), SpecLine::Dialog(d)) => Some(ds.push(d)),
            _ => None,
        }
    }
}

/// The first choice with text `text`.
pub open spec fn choice_named(cs: Seq<SpecChoice>, text: Seq<char>) -> Option<SpecChoice>
    decreases cs.len(),
{
    if cs.len() == 0 {
        None
    } else {
        match choice_named(cs.drop_last(), text) {
            Some(c) => Some(c),
            None => if cs.last().text == text {
                Some(cs.last())
            } else {
                None
            },
        }
    }
}

/// Goes to knot `title` with at most `fuel` steps: the knot becomes the
/// current one and is marked visited; its lines are shown; then the story
/// follows its divert, or stops at its choices (unless the one option left is
/// the fallback, which is taken at once). `None` when the fuel runs out, and
/// where the knot does not exist or holds an operation line.
pub open spec fn run_knot_spec(story: SpecStory, st: SpecState, title: Seq<char>, fuel: nat) -> Option<(Seq<SpecDialogLine>, SpecState)>
    decreases fuel,
{
    if fuel == 0 {
        None
    } else {
        let st1 = SpecState { current: title, visited: add_unique(st.visited, title), ..st };
        if title == end_title() {
            Some((Seq::empty(), st1))
        } else {
            match knot_of(story, title) {
                Some(k) => match dialog_of(k.lines) {
                    Some(out) => match k.end {
                        SpecKnotEnd::Divert(d) => match run_knot_spec(story, st1, d, (fuel - 1) as nat) {
                            Some((more, st2)) => Some((out + more, st2)),
                            None => None,
                        },
                        SpecKnotEnd::Choices(_) => match spec_options(story, st1) {
                            Some(opts) => if opts.len() == 1 && opts[0].len() == 0 {
                                match run_choice_spec(story, st1, Seq::empty(), (fuel - 1) as nat) {
                                    Some((more, st2)) => Some((out + more, st2)),
                                    None => None,
                                }
                            } else {
                                Some((out, st1))
                            },
                            None => None,
                        },
                    },
                    None => None,
                },
                None => None,
            }
        }
    }
}

/// Takes the choice `text` of the current knot with at most `fuel` steps: it
/// is marked chosen there; its output line is shown (unless empty), then
/// its lines, then the story goes to its divert. `None` when the fuel runs
/// out, and where the current knot does not exist, ends with a divert, has no
/// such choice, or the choice holds an operation line.
pub open spec fn run_choice_spec(story: SpecStory, st: SpecState, text: Seq<char>, fuel: nat) -> Option<(Seq<SpecDialogLine>, SpecState)>
    decreases fuel,
{
    if fuel == 0 {
        None
    } else {
        let st1 = SpecState { chosen: add_unique(st.chosen, (st.current, text)), ..st };
        match knot_of(story, st.current) {
            Some(k) => match k.end {
                SpecKnotEnd::Choices(cs) => match choice_named(cs, text) {
                    Some(c) => {
                        let head = if c.output.len() > 0 {
                            seq![SpecDialogLine { text: c.output, tags: Seq::empty() }]
                        } else {
                            Seq::empty()
                        };
                        match dialog_of(c.lines) {
                            Some(ls) => match run_knot_spec(story, st1, c.divert, (fuel - 1) as nat) {
                                Some((more, st2)) => Some((head + ls + more, st2)),
                                None => None,
                            },
                            None => None,
                        }
                    },
                    None => None,
                },
                SpecKnotEnd::Divert(_) => None,
            },
            None => None,
        }
    }
}

/// The most steps a run takes: one step is one divert followed or one choice
/// taken, each a nested call, so no run on a real machine takes more.
pub open spec fn step_limit() -> nat {
    u64::MAX as nat
}

/// Going to knot `title` ends without error (within `step_limit()` steps).
pub open spec fn knot_runs(story: SpecStory, st: SpecState, title: Seq<char>) -> bool {
    run_knot_spec(story, st, title, step_limit()) is Some
}

/// Taking choice `text` ends without error (within `step_limit()` steps).
pub open spec fn choice_runs(story: SpecStory, st: SpecState, text: Seq<char>) -> bool {
    run_choice_spec(story, st, text, step_limit()) is Some
}

/// What going to knot `title` gives, where it ends.
pub open spec fn knot_result(story: SpecStory, st: SpecState, title: Seq<char>) -> (Seq<SpecDialogLine>, SpecState) {
    run_knot_spec(story, st, title, step_limit()).unwrap()
}

/// What taking choice `text` gives, where it ends.
pub open spec fn choice_result(story: SpecStory, st: SpecState, text: Seq<char>) -> (Seq<SpecDialogLine>, SpecState) {
    run_choice_spec(story, st, text, step_limit()).unwrap()
}

/// The story that ink source text gives, where it gives one.
pub open spec fn spec_import(text: Seq<char>) -> Option<SpecStory> {
    match spec_strip_comments(text) {
        Some(s) => if lexable(s) {
            spec_parse(spec_lex(s))
        } else {
            None
        },
        None => None,
    }
}

// ---------------------------------------------------------------------------
// Laws of running
// ---------------------------------------------------------------------------

/// Running is deterministic: once some number of steps is enough to go to a
/// knot (or take a choice), any larger number gives the same lines and state.
pub proof fn lemma_run_fuel_monotone(story: SpecStory, st: SpecState, title: Seq<char>, fuel: nat, more: nat)
    requires
        fuel <= more,
    ensures
        run_knot_spec(story, st, title, fuel) is Some ==> run_knot_spec(story, st, title, more)
            == run_knot_spec(story, st, title, fuel),
        run_choice_spec(story, st, title, fuel) is Some ==> run_choice_spec(story, st, title, more)
            == run_choice_spec(story, st, title, fuel),
    decreases fuel,
{
    if fuel > 0 {
        let st1 = SpecState { current: title, visited: add_unique(st.visited, title), ..st };
        match knot_of(story, title) {
            Some(k) => match k.end {
                SpecKnotEnd::Divert(d) => {
                    lemma_run_fuel_monotone(story, st1, d, (fuel - 1) as nat, (more - 1) as nat);
                },
                SpecKnotEnd::Choices(_) => {
                    lemma_run_fuel_monotone(story, st1, Seq::empty(), (fuel - 1) as nat, (more - 1) as nat);
                },
            },
            None => {},
        }
        let st2 = SpecState { chosen: add_unique(st.chosen, (st.current, title)), ..st };
        match knot_of(story, st.current) {
            Some(k) => match k.end {
                SpecKnotEnd::Choices(cs) => match choice_named(cs, title) {
                    Some(c) => {
                        lemma_run_fuel_monotone(story, st2, c.divert, (fuel - 1) as nat, (more - 1) as nat);
                    },
                    None => {},
                },
                SpecKnotEnd::Divert(_) => {},
            },
            None => {},
        }
    }
}

/// Where going to a knot (or taking a choice) ends, the reader can be asked
/// for options: the story stops only at `END` or at a knot with choices, and
/// never where the fallback is the one option (that one is taken at once).
pub proof fn lemma_run_stops_at_options(story: SpecStory, st: SpecState, title: Seq<char>, fuel: nat)
    ensures
        run_knot_spec(story, st, title, fuel) matches Some((_, st2)) ==> spec_options(story, st2) matches Some(opts)
            && !(opts.len() == 1 && opts[0].len() == 0),
        run_choice_spec(story, st, title, fuel) matches Some((_, st2)) ==> spec_options(story, st2) matches Some(opts)
            && !(opts.len() == 1 && opts[0].len() == 0),
    decreases fuel,
{
    if fuel > 0 {
        let st1 = SpecState { current: title, visited: add_unique(st.visited, title), ..st };
        match knot_of(story, title) {
            Some(k) => match k.end {
                SpecKnotEnd::Divert(d) => {
                    lemma_run_stops_at_options(story, st1, d, (fuel - 1) as nat);
                },
                SpecKnotEnd::Choices(_) => {
                    lemma_run_stops_at_options(story, st1, Seq::empty(), (fuel - 1) as nat);
                },
            },
            None => {},
        }
        let st2 = SpecState { chosen: add_unique(st.chosen, (st.current, title)), ..st };
        match knot_of(story, st.current) {
            Some(k) => match k.end {
                SpecKnotEnd::Choices(cs) => match choice_named(cs, title) {
                    Some(c) => {
                        lemma_run_stops_at_options(story, st2, c.divert, (fuel - 1) as nat);
                    },
                    None => {},
                },
                SpecKnotEnd::Divert(_) => {},
            },
            None => {},
        }
    }
}

/// `add_unique` keeps what the sequence held and adds `x`.
proof fn lemma_add_unique<T>(s: Seq<T>, x: T)
    ensures
        add_unique(s, x).contains(x),
        forall|y: T| #[trigger] s.contains(y) ==> add_unique(s, x).contains(y),
{
    if !s.contains(x) {
        assert(s.push(x)[s.len() as int] == x);
        assert forall|y: T| #[trigger] s.contains(y) implies s.push(x).contains(y) by {
            let k = choose|k: int| 0 <= k < s.len() && s[k] == y;
            assert(s.push(x)[k] == y);
        }
    }
}

/// Playing only adds to what was seen and chosen: going to a knot (or taking
/// a choice) keeps every knot visited and every choice taken before, and the
/// variables; the knot gone to is then visited, and the choice taken is
/// recorded with the knot it was taken in.
pub proof fn lemma_run_state_grows(story: SpecStory, st: SpecState, title: Seq<char>, fuel: nat)
    ensures
        run_knot_spec(story, st, title, fuel) matches Some((_, st2)) ==> {
            &&& st2.visited.contains(title)
            &&& st2.variables == st.variables
            &&& forall|v: Seq<char>| #[trigger] st.visited.contains(v) ==> st2.visited.contains(v)
            &&& forall|c: (Seq<char>, Seq<char>)| #[trigger] st.chosen.contains(c) ==> st2.chosen.contains(c)
        },
        run_choice_spec(story, st, title, fuel) matches Some((_, st2)) ==> {
            &&& st2.chosen.contains((st.current, title))
            &&& st2.variables == st.variables
            &&& forall|v: Seq<char>| #[trigger] st.visited.contains(v) ==> st2.visited.contains(v)
            &&& forall|c: (Seq<char>, Seq<char>)| #[trigger] st.chosen.contains(c) ==> st2.chosen.contains(c)
        },
    decreases fuel,
{
    if fuel > 0 {
        let st1 = SpecState { current: title, visited: add_unique(st.visited, title), ..st };
        lemma_add_unique(st.visited, title);
        match knot_of(story, title) {
            Some(k) => match k.end {
                SpecKnotEnd::Divert(d) => {
                    lemma_run_state_grows(story, st1, d, (fuel - 1) as nat);
                },
                SpecKnotEnd::Choices(_) => {
                    lemma_run_state_grows(story, st1, Seq::empty(), (fuel - 1) as nat);
                },
            },
            None => {},
        }
        let st2 = SpecState { chosen: add_unique(st.chosen, (st.current, title)), ..st };
        lemma_add_unique(st.chosen, (st.current, title));
        match knot_of(story, st.current) {
            Some(k) => match k.end {
                SpecKnotEnd::Choices(cs) => match choice_named(cs, title) {
                    Some(c) => {
                        lemma_run_state_grows(story, st2, c.divert, (fuel - 1) as nat);
                    },
                    None => {},
                },
                SpecKnotEnd::Divert(_) => {},
            },
            None => {},
        }
    }
}

/// What `available` offers comes from a choice whose condition holds and
/// that is sticky or not yet chosen in that knot.
proof fn lemma_available_from(
    cs: Seq<SpecChoice>,
    current: Seq<char>,
    chosen: Seq<(Seq<char>, Seq<char>)>,
    visited: Seq<Seq<char>>,
    t: Seq<char>,
)
    ensures
        available(cs, current, chosen, visited).contains(t) ==> exists|j: int| 0 <= j < cs.len() && (#[trigger] cs[j]).text == t && (cs[j].sticky || !chosen.contains((current, t)))
            && condition_holds(cs[j].condition, visited),
    decreases cs.len(),
{
    if cs.len() > 0 {
        lemma_available_from(cs.drop_last(), current, chosen, visited, t);
        let rest = available(cs.drop_last(), current, chosen, visited);
        if available(cs, current, chosen, visited).contains(t) && !rest.contains(t) {
            let k = available(cs, current, chosen, visited).len() - 1;
            assert(available(cs, current, chosen, visited)[k] == cs.last().text) by {
                assert(available(cs, current, chosen, visited) == rest.push(cs.last().text));
            }
            assert(cs[cs.len() - 1] == cs.last());
        }
        if rest.contains(t) {
            let j = choose|j: int| 0 <= j < cs.drop_last().len() && (#[trigger] cs.drop_last()[j]).text == t && (cs.drop_last()[j].sticky || !chosen.contains((current, t)))
                && condition_holds(cs.drop_last()[j].condition, visited);
            assert(cs[j] == cs.drop_last()[j]);
        }
    }
}

/// A sticky choice whose condition holds is always available.
proof fn lemma_sticky_available(
    cs: Seq<SpecChoice>,
    current: Seq<char>,
    chosen: Seq<(Seq<char>, Seq<char>)>,
    visited: Seq<Seq<char>>,
    j: int,
)
    requires
        0 <= j < cs.len(),
        cs[j].sticky,
        condition_holds(cs[j].condition, visited),
    ensures
        available(cs, current, chosen, visited).contains(cs[j].text),
    decreases cs.len(),
{
    if j == cs.len() - 1 {
        assert(available(cs, current, chosen, visited).last() == cs[j].text);
    } else {
        lemma_sticky_available(cs.drop_last(), current, chosen, visited, j);
        let rest = available(cs.drop_last(), current, chosen, visited);
        let k = choose|k: int| 0 <= k < rest.len() && rest[k] == cs[j].text;
        assert(available(cs, current, chosen, visited)[k] == cs[j].text);
    }
}

/// A choice whose condition holds, and that is sticky or was not yet taken
/// in knot `current`, is available, whatever was taken elsewhere.
proof fn lemma_untaken_available(
    cs: Seq<SpecChoice>,
    current: Seq<char>,
    chosen: Seq<(Seq<char>, Seq<char>)>,
    visited: Seq<Seq<char>>,
    j: int,
)
    requires
        0 <= j < cs.len(),
        cs[j].sticky || !chosen.contains((current, cs[j].text)),
        condition_holds(cs[j].condition, visited),
    ensures
        available(cs, current, chosen, visited).contains(cs[j].text),
    decreases cs.len(),
{
    if j == cs.len() - 1 {
        assert(available(cs, current, chosen, visited).last() == cs[j].text);
    } else {
        assert(cs.drop_last()[j] == cs[j]);
        lemma_untaken_available(cs.drop_last(), current, chosen, visited, j);
        let rest = available(cs.drop_last(), current, chosen, visited);
        let k = choose|k: int| 0 <= k < rest.len() && rest[k] == cs[j].text;
        assert(available(cs, current, chosen, visited)[k] == cs[j].text);
    }
}

/// `without_empty` keeps exactly the texts that are not empty.
proof fn lemma_without_empty(s: Seq<Seq<char>>, t: Seq<char>)
    ensures
        without_empty(s).contains(t) <==> (s.contains(t) && t.len() > 0),
    decreases s.len(),
{
    if s.len() > 0 {
        lemma_without_empty(s.drop_last(), t);
        assert(s.drop_last().contains(t) ==> s.contains(t)) by {
            if s.drop_last().contains(t) {
                let k = choose|k: int| 0 <= k < s.drop_last().len() && s.drop_last()[k] == t;
                assert(s[k] == t);
            }
        }
        assert(s.contains(t) && !s.drop_last().contains(t) ==> s.last() == t) by {
            if s.contains(t) && !s.drop_last().contains(t) {
                let k = choose|k: int| 0 <= k < s.len() && s[k] == t;
                if k < s.len() - 1 {
                    assert(s.drop_last()[k] == t);
                }
            }
        }
        if s.last().len() > 0 {
            let w = without_empty(s.drop_last());
            assert(w.push(s.last()).contains(t) <==> (w.contains(t) || s.last() == t)) by {
                if w.push(s.last()).contains(t) {
                    let k = choose|k: int| 0 <= k < w.push(s.last()).len() && w.push(s.last())[k] == t;
                    if k < w.len() {
                        assert(w[k] == t);
                    }
                }
                if w.contains(t) {
                    let k = choose|k: int| 0 <= k < w.len() && w[k] == t;
                    assert(w.push(s.last())[k] == t);
                }
                if s.last() == t {
                    assert(w.push(s.last())[w.len() as int] == t);
                }
            }
        }
    }
}

/// The fallback (the choice without text) is offered only alone: where the
/// options hold an empty text, it is the one option.
pub proof fn lemma_fallback_offered_alone(story: SpecStory, st: SpecState)
    requires
        spec_options(story, st) is Some,
    ensures
        spec_options(story, st).unwrap().contains(Seq::empty()) ==> spec_options(story, st).unwrap().len() == 1,
{
    if st.current != end_title() {
        let k = knot_of(story, st.current).unwrap();
        match k.end {
            SpecKnotEnd::Choices(cs) => {
                let a = available(cs, st.current, st.chosen, st.visited);
                lemma_without_empty(a, Seq::empty());
            },
            SpecKnotEnd::Divert(_) => {},
        }
    }
}

/// Where a run stops, the current knot is among the visited ones.
pub proof fn law_current_knot_visited(story: SpecStory, st: SpecState, title: Seq<char>, fuel: nat)
    ensures
        run_knot_spec(story, st, title, fuel) matches Some((_, st2)) ==> st2.visited.contains(st2.current),
        run_choice_spec(story, st, title, fuel) matches Some((_, st2)) ==> st2.visited.contains(st2.current),
    decreases fuel,
{
    if fuel > 0 {
        let st1 = SpecState { current: title, visited: add_unique(st.visited, title), ..st };
        lemma_add_unique(st.visited, title);
        match knot_of(story, title) {
            Some(k) => match k.end {
                SpecKnotEnd::Divert(d) => {
                    law_current_knot_visited(story, st1, d, (fuel - 1) as nat);
                },
                SpecKnotEnd::Choices(_) => {
                    law_current_knot_visited(story, st1, Seq::empty(), (fuel - 1) as nat);
                },
            },
            None => {},
        }
        let st2 = SpecState { chosen: add_unique(st.chosen, (st.current, title)), ..st };
        match knot_of(story, st.current) {
            Some(k) => match k.end {
                SpecKnotEnd::Choices(cs) => match choice_named(cs, title) {
                    Some(c) => {
                        law_current_knot_visited(story, st2, c.divert, (fuel - 1) as nat);
                    },
                    None => {},
                },
                SpecKnotEnd::Divert(_) => {},
            },
            None => {},
        }
    }
}

/// Every option offered where a run stops has text: the fallback is never
/// offered to the reader.
pub proof fn law_options_after_run_have_text(story: SpecStory, st: SpecState, title: Seq<char>, fuel: nat)
    ensures
        run_knot_spec(story, st, title, fuel) matches Some((_, st2)) ==> forall|i: int|
            0 <= i < spec_options(story, st2).unwrap().len() ==> (#[trigger] spec_options(story, st2).unwrap()[i]).len() > 0,
        run_choice_spec(story, st, title, fuel) matches Some((_, st2)) ==> forall|i: int|
            0 <= i < spec_options(story, st2).unwrap().len() ==> (#[trigger] spec_options(story, st2).unwrap()[i]).len() > 0,
{
    lemma_run_stops_at_options(story, st, title, fuel);
    if let Some((_, st2)) = run_knot_spec(story, st, title, fuel) {
        lemma_no_empty_option(story, st2);
    }
    if let Some((_, st2)) = run_choice_spec(story, st, title, fuel) {
        lemma_no_empty_option(story, st2);
    }
}

/// Options that are not the fallback alone hold no empty text.
proof fn lemma_no_empty_option(story: SpecStory, st: SpecState)
    requires
        spec_options(story, st) matches Some(opts) && !(opts.len() == 1 && opts[0].len() == 0),
    ensures
        forall|i: int| 0 <= i < spec_options(story, st).unwrap().len() ==> (#[trigger] spec_options(story, st).unwrap()[i]).len() > 0,
{
    let opts = spec_options(story, st).unwrap();
    lemma_fallback_offered_alone(story, st);
    assert forall|i: int| 0 <= i < opts.len() implies (#[trigger] opts[i]).len() > 0 by {
        if opts[i].len() == 0 {
            assert(opts[i] =~= Seq::<char>::empty());
            assert(opts.contains(Seq::<char>::empty()));
        }
    }
}

/// A choice that can be taken once is not offered again in a knot where it
/// was taken: where every choice of the current knot with text `t` is not
/// sticky and `t` was chosen there, the options do not hold `t`.
pub proof fn lemma_chosen_not_offered(story: SpecStory, st: SpecState, t: Seq<char>)
    requires
        spec_options(story, st) is Some,
        st.chosen.contains((st.current, t)),
        knot_of(story, st.current) matches Some(k) && (k.end matches SpecKnotEnd::Choices(cs) && forall|j: int| 0 <= j < cs.len() && (#[trigger] cs[j]).text == t ==> !cs[j].sticky),
    ensures
        !spec_options(story, st).unwrap().contains(t),
{
    if st.current != end_title() {
        let k = knot_of(story, st.current).unwrap();
        match k.end {
            SpecKnotEnd::Choices(cs) => {
                let a = available(cs, st.current, st.chosen, st.visited);
                lemma_available_from(cs, st.current, st.chosen, st.visited, t);
                lemma_without_empty(a, t);
            },
            SpecKnotEnd::Divert(_) => {},
        }
    }
}

/// A choice whose condition does not hold is not offered: where every
/// choice of the current knot with text `t` names a knot that was not seen,
/// the options do not hold `t`.
pub proof fn law_unmet_condition_not_offered(story: SpecStory, st: SpecState, t: Seq<char>)
    requires
        spec_options(story, st) is Some,
        knot_of(story, st.current) matches Some(k) && (k.end matches SpecKnotEnd::Choices(cs) && forall|j: int|
            0 <= j < cs.len() && (#[trigger] cs[j]).text == t ==> !condition_holds(cs[j].condition, st.visited)),
    ensures
        !spec_options(story, st).unwrap().contains(t),
{
    if st.current != end_title() {
        let k = knot_of(story, st.current).unwrap();
        match k.end {
            SpecKnotEnd::Choices(cs) => {
                let a = available(cs, st.current, st.chosen, st.visited);
                lemma_available_from(cs, st.current, st.chosen, st.visited, t);
                lemma_without_empty(a, t);
            },
            SpecKnotEnd::Divert(_) => {},
        }
    }
}

/// A once-only choice is hidden only in the knot where it was taken: a
/// choice with text of the current knot whose condition holds, and that was
/// not taken in this knot, is offered, whatever was taken in other knots.
pub proof fn law_untaken_choice_offered(story: SpecStory, st: SpecState, j: int)
    requires
        st.current != end_title(),
        knot_of(story, st.current) matches Some(k) && (k.end matches SpecKnotEnd::Choices(cs) && 0 <= j < cs.len()
            && cs[j].text.len() > 0 && condition_holds(cs[j].condition, st.visited)
            && !st.chosen.contains((st.current, cs[j].text))),
    ensures
        spec_options(story, st) matches Some(opts) && opts.contains(
            knot_of(story, st.current).unwrap().end->Choices_0[j].text,
        ),
{
    let k = knot_of(story, st.current).unwrap();
    match k.end {
        SpecKnotEnd::Choices(cs) => {
            let a = available(cs, st.current, st.chosen, st.visited);
            lemma_untaken_available(cs, st.current, st.chosen, st.visited, j);
            lemma_without_empty(a, cs[j].text);
            if a.len() == 1 && a[0].len() == 0 {
                let m = choose|m: int| 0 <= m < a.len() && a[m] == cs[j].text;
                assert(m == 0);
            }
        },
        SpecKnotEnd::Divert(_) => {},
    }
}

/// A sticky choice with text whose condition holds is always offered in its
/// knot, whatever was chosen before.
pub proof fn lemma_sticky_offered(story: SpecStory, st: SpecState, j: int)
    requires
        spec_options(story, st) is Some,
        st.current != end_title(),
        knot_of(story, st.current) matches Some(k) && (k.end matches SpecKnotEnd::Choices(cs) && 0 <= j < cs.len() && cs[j].sticky && cs[j].text.len() > 0
            && condition_holds(cs[j].condition, st.visited)),
    ensures
        spec_options(story, st).unwrap().contains(
            knot_of(story, st.current).unwrap().end->Choices_0[j].text,
        ),
{
    let k = knot_of(story, st.current).unwrap();
    match k.end {
        SpecKnotEnd::Choices(cs) => {
            let a = available(cs, st.current, st.chosen, st.visited);
            lemma_sticky_available(cs, st.current, st.chosen, st.visited, j);
            lemma_without_empty(a, cs[j].text);
            if a.len() == 1 && a[0].len() == 0 {
                let m = choose|m: int| 0 <= m < a.len() && a[m] == cs[j].text;
                assert(m == 0);
            }
        },
        SpecKnotEnd::Divert(_) => {},
    }
}

// ---------------------------------------------------------------------------
// The runner
// ---------------------------------------------------------------------------

/// Something to show the reader.
pub enum Output {
    Dialog(String),
    Tag(String),
}

/// Where a story being played stands: the current knot, the knots visited
/// and the choices taken (each with the knot where it was taken), each at
/// most once, in the order they came.
#[derive(Debug, PartialEq, Clone)]
pub struct StoryState {
    pub current_knot_title: String,
    pub variables: Vec<(String, VariableValue)>,
    pub visited_knots: Vec<String>,
    pub chosen_choices: Vec<(String, String)>,
}

pub open spec fn texts_view(s: Seq<String>) -> Seq<Seq<char>> {
    s.map_values(|t: String| t@)
}

pub open spec fn pairs_view(s: Seq<(String, String)>) -> Seq<(Seq<char>, Seq<char>)> {
    s.map_values(|p: (String, String)| (p.0@, p.1@))
}

pub open spec fn owned_variables_view(s: Seq<(String, VariableValue)>) -> Seq<(Seq<char>, SpecValue)> {
    s.map_values(|p: (String, VariableValue)| (p.0@, p.1@))
}

impl View for StoryState {
    type V = SpecState;

    open spec fn view(&self) -> SpecState {
        SpecState {
            current: self.current_knot_title@,
            variables: owned_variables_view(self.variables@),
            visited: texts_view(self.visited_knots@),
            chosen: pairs_view(self.chosen_choices@),
        }
    }
}

impl Default for StoryState {
    fn default() -> (r: Self)
        ensures
            r@ == initial_state(),
    {
        let r = StoryState {
            current_knot_title: intro_string(),
            variables: Vec::new(),
            visited_knots: Vec::new(),
            chosen_choices: Vec::new(),
        };
        assert(owned_variables_view(r.variables@) == Seq::<(Seq<char>, SpecValue)>::empty());
        assert(texts_view(r.visited_knots@) == Seq::<Seq<char>>::empty());
        assert(pairs_view(r.chosen_choices@) == Seq::<(Seq<char>, Seq<char>)>::empty());
        r
    }
}

/// Plays a story.
pub struct StoryRunner<'a> {
    pub state: StoryState,
    pub story: InkStory<'a>,
}

pub open spec fn dialog_view<'a>(s: Seq<DialogLine<'a>>) -> Seq<SpecDialogLine> {
    s.map_values(|d: DialogLine<'a>| d@)
}

/// The index of the first knot titled `title`.
fn find_knot<'a>(story: &InkStory<'a>, title: &str) -> (r: Option<usize>)
    ensures
        match r {
            Some(j) => knot_index(story@.knots, title@) == Some(j as int) && j < story.knots.len(),
            None => knot_index(story@.knots, title@) is None,
        },
{
    let ghost ks = story@.knots;
    proof {
        crate::ink_parser::lemma_knot_index(ks, title@);
    }
    let mut i: usize = 0;
    while i < story.knots.len()
        invariant
            0 <= i <= story.knots.len(),
            ks == story@.knots,
            forall|j: int| 0 <= j < i ==> #[trigger] ks[j].title != title@,
            match knot_index(ks, title@) {
                Some(j) => 0 <= j < ks.len() && ks[j].title == title@ && forall|i: int| 0 <= i < j ==> #[trigger] ks[i].title != title@,
                None => forall|i: int| 0 <= i < ks.len() ==> #[trigger] ks[i].title != title@,
            },
        decreases story.knots.len() - i,
    {
        if str_equal(story.knots[i].title.as_str(), title) {
            assert(ks[i as int].title == title@);
            assert(knot_index(ks, title@) == Some(i as int)) by {
                if knot_index(ks, title@) != Some(i as int) {
                    let j = knot_index(ks, title@).unwrap();
                    assert(j < i || j > i);
                }
            }
            return Some(i);
        }
        i = i + 1;
    }
    None
}

/// `v` holds `s`.
fn texts_contain(v: &Vec<String>, s: &String) -> (r: bool)
    ensures
        r == texts_view(v@).contains(s@),
{
    let mut i: usize = 0;
    while i < v.len()
        invariant
            0 <= i <= v.len(),
            forall|j: int| 0 <= j < i ==> (#[trigger] v@[j])@ != s@,
        decreases v.len() - i,
    {
        if v[i] == *s {
            assert(texts_view(v@)[i as int] == s@);
            return true;
        }
        i = i + 1;
    }
    assert forall|j: int| 0 <= j < texts_view(v@).len() implies texts_view(v@)[j] != s@ by {
        assert(v@[j]@ != s@);
    }
    false
}

/// `v` holds the pair `(a, b)`.
fn pairs_contain(v: &Vec<(String, String)>, a: &String, b: &String) -> (r: bool)
    ensures
        r == pairs_view(v@).contains((a@, b@)),
{
    let mut i: usize = 0;
    while i < v.len()
        invariant
            0 <= i <= v.len(),
            forall|j: int| 0 <= j < i ==> (#[trigger] v@[j]).0@ != a@ || v@[j].1@ != b@,
        decreases v.len() - i,
    {
        if v[i].0 == *a && v[i].1 == *b {
            assert(pairs_view(v@)[i as int] == (a@, b@));
            return true;
        }
        i = i + 1;
    }
    assert forall|j: int| 0 <= j < pairs_view(v@).len() implies pairs_view(v@)[j] != (a@, b@) by {
        assert(v@[j].0@ != a@ || v@[j].1@ != b@);
    }
    false
}

/// Adds `s` to `v` unless it is there.
fn add_text(v: &mut Vec<String>, s: String)
    ensures
        texts_view(final(v)@) == add_unique(texts_view(old(v)@), s@),
{
    if !texts_contain(v, &s) {
        let ghost sv = s@;
        v.push(s);
        assert(texts_view(v@) =~= texts_view(old(v)@).push(sv));
    }
}

/// Adds `(a, b)` to `v` unless it is there.
fn add_pair(v: &mut Vec<(String, String)>, a: String, b: String)
    ensures
        pairs_view(final(v)@) == add_unique(pairs_view(old(v)@), (a@, b@)),
{
    if !pairs_contain(v, &a, &b) {
        let ghost p = (a@, b@);
        v.push((a, b));
        assert(pairs_view(v@) =~= pairs_view(old(v)@).push(p));
    }
}

/// Every prefix of lines without operations is without operations.
proof fn lemma_dialog_of_prefix(s: Seq<SpecLine>, k: int)
    requires
        dialog_of(s) is Some,
        0 <= k <= s.len(),
    ensures
        dialog_of(s.take(k)) is Some,
    decreases s.len(),
{
    if k == s.len() {
        assert(s.take(k) == s);
    } else {
        assert(s.drop_last().take(k) == s.take(k));
        lemma_dialog_of_prefix(s.drop_last(), k);
    }
}

/// A copy of a dialog line.
fn copy_dialog_line<'a>(d: &DialogLine<'a>) -> (r: DialogLine<'a>)
    ensures
        r@ == d@,
{
    DialogLine { text: d.text, tags: copy_strs(&d.tags) }
}

/// The dialog of a list of lines; `None` where one of them is an operation.
fn dialog_lines_of<'a>(lines: &Vec<Line<'a>>) -> (r: Option<Vec<DialogLine<'a>>>)
    ensures
        match r {
            Some(ds) => dialog_of(lines_view(lines@)) == Some(dialog_view(ds@)),
            None => dialog_of(lines_view(lines@)) is None,
        },
{
    let ghost lv = lines_view(lines@);
    let mut r: Vec<DialogLine<'a>> = Vec::new();
    let mut i: usize = 0;
    assert(lv.take(0) == Seq::<SpecLine>::empty());
    while i < lines.len()
        invariant
            0 <= i <= lines.len(),
            lv == lines_view(lines@),
            dialog_of(lv.take(i as int)) == Some(dialog_view(r@)),
        decreases lines.len() - i,
    {
        assert(lv.take(i + 1).drop_last() == lv.take(i as int));
        assert(lv.take(i + 1).last() == lines@[i as int]@);
        match &lines[i] {
            Line::Dialog(d) => {
                let ghost r0 = r@;
                r.push(copy_dialog_line(d));
                assert(dialog_view(r@) =~= dialog_view(r0).push(d@));
            },
            Line::Operation(_) => {
                proof {
                    if dialog_of(lv) is Some {
                        lemma_dialog_of_prefix(lv, i + 1);
                    }
                }
                return None;
            },
        }
        i = i + 1;
    }
    assert(lv.take(lines.len() as int) == lv);
    Some(r)
}

/// The knot `name` was seen (see `knot_seen`).
fn seen_knot(visited: &Vec<String>, name: &str) -> (r: bool)
    ensures
        r == knot_seen(texts_view(visited@), name@),
{
    let ghost vv = texts_view(visited@);
    let mut p = chars_of(name);
    p.push('.');
    let mut i: usize = 0;
    while i < visited.len()
        invariant
            0 <= i <= visited.len(),
            vv == texts_view(visited@),
            p@ == name@.push('.'),
            forall|j: int| 0 <= j < i ==> !(#[trigger] vv[j] == name@ || starts_with(vv[j], name@.push('.'))),
        decreases visited.len() - i,
    {
        assert(vv[i as int] == visited@[i as int]@);
        let v = chars_of(visited[i].as_str());
        assert(v@.subrange(0, v.len() as int) == v@);
        if str_equal(visited[i].as_str(), name) || range_starts_with(&v, 0, v.len(), &p) {
            return true;
        }
        i = i + 1;
    }
    false
}

/// The condition of a choice holds (see `condition_holds`).
fn condition_met(condition: Option<&str>, visited: &Vec<String>) -> (r: bool)
    ensures
        r == condition_holds(
            match condition {
                Some(c) => Some(c@),
                None => None,
            },
            texts_view(visited@),
        ),
{
    match condition {
        Some(name) => seen_knot(visited, name),
        None => true,
    }
}

/// The texts of the choices that can still be taken.
fn available_texts<'a>(cs: &Vec<Choice<'a>>, current: &String, chosen: &Vec<(String, String)>, visited: &Vec<String>) -> (r: Vec<String>)
    ensures
        texts_view(r@) == available(choices_view(cs@), current@, pairs_view(chosen@), texts_view(visited@)),
{
    let ghost cv = choices_view(cs@);
    let mut r: Vec<String> = Vec::new();
    let mut i: usize = 0;
    assert(cv.take(0) == Seq::<SpecChoice>::empty());
    while i < cs.len()
        invariant
            0 <= i <= cs.len(),
            cv == choices_view(cs@),
            texts_view(r@) == available(cv.take(i as int), current@, pairs_view(chosen@), texts_view(visited@)),
        decreases cs.len() - i,
    {
        assert(cv.take(i + 1).drop_last() == cv.take(i as int));
        assert(cv.take(i + 1).last() == cs@[i as int]@);
        let text = string_of_str(cs[i].text);
        if condition_met(cs[i].condition, visited) && (cs[i].sticky || !pairs_contain(chosen, current, &text)) {
            let ghost r0 = r@;
            let ghost tv = text@;
            r.push(text);
            assert(texts_view(r@) =~= texts_view(r0).push(tv));
        }
        i = i + 1;
    }
    assert(cv.take(cs.len() as int) == cv);
    r
}

/// The texts that are not empty, in order.
fn non_empty_texts(v: Vec<String>) -> (r: Vec<String>)
    ensures
        texts_view(r@) == without_empty(texts_view(v@)),
{
    let ghost tv = texts_view(v@);
    let mut r: Vec<String> = Vec::new();
    let mut i: usize = 0;
    assert(tv.take(0) == Seq::<Seq<char>>::empty());
    while i < v.len()
        invariant
            0 <= i <= v.len(),
            tv == texts_view(v@),
            texts_view(r@) == without_empty(tv.take(i as int)),
        decreases v.len() - i,
    {
        assert(tv.take(i + 1).drop_last() == tv.take(i as int));
        assert(tv.take(i + 1).last() == v@[i as int]@);
        if !v[i].as_str().is_empty() {
            let ghost r0 = r@;
            let t = v[i].clone();
            r.push(t);
            assert(texts_view(r@) =~= texts_view(r0).push(v@[i as int]@));
        }
        i = i + 1;
    }
    assert(tv.take(v.len() as int) == tv);
    r
}

/// Moves the lines of `more` to the end of `out`, keeping the values in step.
fn append_dialog<'a>(out: &mut Vec<DialogLine<'a>>, more: Vec<DialogLine<'a>>)
    ensures
        dialog_view(final(out)@) == dialog_view(old(out)@) + dialog_view(more@),
{
    let mut more = more;
    let ghost m = more@;
    out.append(&mut more);
    assert(dialog_view(out@) =~= dialog_view(old(out)@) + dialog_view(m));
}

/// The index of the first choice with text `text`.
fn choice_index<'a>(cs: &Vec<Choice<'a>>, text: &str) -> (r: Option<usize>)
    ensures
        match r {
            Some(k) => k < cs.len() && choice_named(choices_view(cs@), text@) == Some(cs@[k as int]@),
            None => choice_named(choices_view(cs@), text@) is None,
        },
{
    let ghost cv = choices_view(cs@);
    let mut i: usize = 0;
    assert(cv.take(0) == Seq::<SpecChoice>::empty());
    while i < cs.len()
        invariant
            0 <= i <= cs.len(),
            cv == choices_view(cs@),
            choice_named(cv.take(i as int), text@) is None,
        decreases cs.len() - i,
    {
        assert(cv.take(i + 1).drop_last() == cv.take(i as int));
        assert(cv.take(i + 1).last() == cs@[i as int]@);
        if str_equal(cs[i].text, text) {
            proof {
                lemma_choice_named_prefix(cv, i + 1, text@);
            }
            return Some(i);
        }
        i = i + 1;
    }
    assert(cv.take(cs.len() as int) == cv);
    None
}

/// A choice found among the first choices is the one found among all.
proof fn lemma_choice_named_prefix(cs: Seq<SpecChoice>, k: int, text: Seq<char>)
    requires
        0 <= k <= cs.len(),
        choice_named(cs.take(k), text) is Some,
    ensures
        choice_named(cs, text) == choice_named(cs.take(k), text),
    decreases cs.len(),
{
    if k == cs.len() {
        assert(cs.take(k) == cs);
    } else {
        assert(cs.drop_last().take(k) == cs.take(k));
        lemma_choice_named_prefix(cs.drop_last(), k, text);
    }
}

impl<'a> StoryRunner<'a> {
    /// The options offered to the reader now (see `spec_options`).
    pub fn get_options(&self) -> (r: Vec<String>)
        requires
            spec_options(self.story@, self.state@) is Some,
        ensures
            texts_view(r@) == spec_options(self.story@, self.state@).unwrap(),
    {
        self.options_now().unwrap()
    }

    /// The options offered now; `None` where the current knot does not exist
    /// or ends with a divert.
    fn options_now(&self) -> (r: Option<Vec<String>>)
        ensures
            match r {
                Some(os) => spec_options(self.story@, self.state@) == Some(texts_view(os@)),
                None => spec_options(self.story@, self.state@) is None,
            },
    {
        let end = end_string();
        if self.state.current_knot_title == end {
            let r: Vec<String> = Vec::new();
            assert(texts_view(r@) =~= Seq::<Seq<char>>::empty());
            return Some(r);
        }
        let j = match find_knot(&self.story, self.state.current_knot_title.as_str()) {
            Some(j) => j,
            None => {
                return None;
            },
        };
        assert(self.story@.knots[j as int] == self.story.knots@[j as int]@);
        match &self.story.knots[j].end {
            KnotEnd::Divert(_) => None,
            KnotEnd::Choices(cs) => {
                let avail = available_texts(cs, &self.state.current_knot_title, &self.state.chosen_choices, &self.state.visited_knots);
                if avail.len() == 1 && avail[0].as_str().is_empty() {
                    assert(texts_view(avail@)[0] == avail@[0]@);
                    Some(avail)
                } else {
                    proof {
                        if avail.len() == 1 {
                            assert(texts_view(avail@)[0] == avail@[0]@);
                        }
                    }
                    Some(non_empty_texts(avail))
                }
            },
        }
    }

    /// Goes to knot `knot_title`, with at most `fuel` steps; `None` where
    /// `run_knot_spec` gives none.
    fn run_knot(&mut self, knot_title: &str, fuel: u64) -> (r: Option<Vec<DialogLine<'a>>>)
        ensures
            match r {
                Some(out) => run_knot_spec(old(self).story@, old(self).state@, knot_title@, fuel as nat) == Some(
                    (dialog_view(out@), final(self).state@),
                ),
                None => run_knot_spec(old(self).story@, old(self).state@, knot_title@, fuel as nat) is None,
            },
            final(self).story == old(self).story,
        decreases fuel,
    {
        if fuel == 0 {
            return None;
        }
        self.state.current_knot_title = string_of_str(knot_title);
        add_text(&mut self.state.visited_knots, string_of_str(knot_title));
        let end = end_string();
        if str_equal(knot_title, end.as_str()) {
            let r: Vec<DialogLine<'a>> = Vec::new();
            assert(dialog_view(r@) == Seq::<SpecDialogLine>::empty());
            return Some(r);
        }
        let ghost st1 = SpecState {
            current: knot_title@,
            visited: add_unique(old(self).state@.visited, knot_title@),
            ..old(self).state@
        };
        assert(self.state@ == st1);
        let j = match find_knot(&self.story, knot_title) {
            Some(j) => j,
            None => {
                return None;
            },
        };
        assert(self.story@.knots[j as int] == self.story.knots@[j as int]@);
        let mut output = match dialog_lines_of(&self.story.knots[j].lines) {
            Some(ds) => ds,
            None => {
                return None;
            },
        };
        let next: Option<String> = match &self.story.knots[j].end {
            KnotEnd::Divert(d) => Some(d.knot_title.clone()),
            KnotEnd::Choices(_) => None,
        };
        match next {
            Some(t) => {
                let more = match self.run_knot(t.as_str(), fuel - 1) {
                    Some(more) => more,
                    None => {
                        return None;
                    },
                };
                append_dialog(&mut output, more);
            },
            None => {
                let options = match self.options_now() {
                    Some(os) => os,
                    None => {
                        return None;
                    },
                };
                if options.len() == 1 && options[0].as_str().is_empty() {
                    assert(texts_view(options@)[0] == options@[0]@);
                    proof {
                        reveal_strlit("");
                    }
                    assert(""@ =~= Seq::<char>::empty());
                    let more = match self.run_choice("", fuel - 1) {
                        Some(more) => more,
                        None => {
                            return None;
                        },
                    };
                    append_dialog(&mut output, more);
                } else {
                    proof {
                        if options.len() == 1 {
                            assert(texts_view(options@)[0] == options@[0]@);
                        }
                    }
                }
            },
        }
        Some(output)
    }

    /// Takes the choice `choice_str` of the current knot, with at most `fuel`
    /// steps; `None` where `run_choice_spec` gives none.
    fn run_choice(&mut self, choice_str: &str, fuel: u64) -> (r: Option<Vec<DialogLine<'a>>>)
        ensures
            match r {
                Some(out) => run_choice_spec(old(self).story@, old(self).state@, choice_str@, fuel as nat) == Some(
                    (dialog_view(out@), final(self).state@),
                ),
                None => run_choice_spec(old(self).story@, old(self).state@, choice_str@, fuel as nat) is None,
            },
            final(self).story == old(self).story,
        decreases fuel,
    {
        if fuel == 0 {
            return None;
        }
        let current = self.state.current_knot_title.clone();
        add_pair(&mut self.state.chosen_choices, current.clone(), string_of_str(choice_str));
        let j = match find_knot(&self.story, current.as_str()) {
            Some(j) => j,
            None => {
                return None;
            },
        };
        assert(self.story@.knots[j as int] == self.story.knots@[j as int]@);
        let mut output: Vec<DialogLine<'a>> = Vec::new();
        let divert;
        match &self.story.knots[j].end {
            KnotEnd::Choices(cs) => {
                let k = match choice_index(cs, choice_str) {
                    Some(k) => k,
                    None => {
                        return None;
                    },
                };
                let c = &cs[k];
                if !c.output.is_empty() {
                    let d = DialogLine { text: c.output, tags: Vec::new() };
                    assert(strs_view(d.tags@) == Seq::<Seq<char>>::empty());
                    output.push(d);
                    assert(dialog_view(output@) =~= seq![SpecDialogLine { text: c.output@, tags: Seq::empty() }]);
                } else {
                    assert(dialog_view(output@) =~= Seq::<SpecDialogLine>::empty());
                }
                let ls = match dialog_lines_of(&c.lines) {
                    Some(ls) => ls,
                    None => {
                        return None;
                    },
                };
                append_dialog(&mut output, ls);
                divert = c.divert.knot_title.clone();
            },
            KnotEnd::Divert(_) => {
                return None;
            },
        }
        let more = match self.run_knot(divert.as_str(), fuel - 1) {
            Some(more) => more,
            None => {
                return None;
            },
        };
        append_dialog(&mut output, more);
        Some(output)
    }

    /// Starts the story at the current knot (the beginning, unless `set_knot`
    /// chose another); gives the lines to show.
    pub fn start(&mut self) -> (r: Vec<DialogLine<'a>>)
        requires
            knot_runs(old(self).story@, old(self).state@, old(self).state@.current),
        ensures
            (dialog_view(r@), final(self).state@) == knot_result(old(self).story@, old(self).state@, old(self).state@.current),
            final(self).story == old(self).story,
            spec_options(final(self).story@, final(self).state@) is Some,
            final(self).state@.visited.contains(final(self).state@.current),
            forall|c: (Seq<char>, Seq<char>)| #[trigger] old(self).state@.chosen.contains(c) ==> final(self).state@.chosen.contains(c),
            forall|v: Seq<char>| #[trigger] old(self).state@.visited.contains(v) ==> final(self).state@.visited.contains(v),
    {
        proof {
            lemma_run_state_grows(self.story@, self.state@, self.state@.current, step_limit());
        }
        self.try_start().unwrap()
    }

    /// Starts the story at the current knot, as `start` does; `None` where
    /// going there does not end without error (the state is then left as the
    /// run left it).
    pub fn try_start(&mut self) -> (r: Option<Vec<DialogLine<'a>>>)
        ensures
            match r {
                Some(out) => knot_runs(old(self).story@, old(self).state@, old(self).state@.current)
                    && (dialog_view(out@), final(self).state@) == knot_result(old(self).story@, old(self).state@, old(self).state@.current)
                    && spec_options(final(self).story@, final(self).state@) is Some
                    && final(self).state@.visited.contains(final(self).state@.current),
                None => !knot_runs(old(self).story@, old(self).state@, old(self).state@.current),
            },
            final(self).story == old(self).story,
    {
        proof {
            lemma_run_stops_at_options(self.story@, self.state@, self.state@.current, step_limit());
            law_current_knot_visited(self.story@, self.state@, self.state@.current, step_limit());
        }
        let title = self.state.current_knot_title.clone();
        self.run_knot(title.as_str(), u64::MAX)
    }

    /// Takes the choice `choice` of the current knot; gives the lines to show.
    pub fn step(&mut self, choice: &str) -> (r: Vec<DialogLine<'a>>)
        requires
            choice_runs(old(self).story@, old(self).state@, choice@),
        ensures
            (dialog_view(r@), final(self).state@) == choice_result(old(self).story@, old(self).state@, choice@),
            final(self).story == old(self).story,
            spec_options(final(self).story@, final(self).state@) is Some,
            final(self).state@.visited.contains(final(self).state@.current),
            final(self).state@.chosen.contains((old(self).state@.current, choice@)),
            forall|c: (Seq<char>, Seq<char>)| #[trigger] old(self).state@.chosen.contains(c) ==> final(self).state@.chosen.contains(c),
            forall|v: Seq<char>| #[trigger] old(self).state@.visited.contains(v) ==> final(self).state@.visited.contains(v),
    {
        proof {
            lemma_run_state_grows(self.story@, self.state@, choice@, step_limit());
        }
        self.try_step(choice).unwrap()
    }

    /// Takes the choice `choice`, as `step` does; `None` where taking it does
    /// not end without error (the state is then left as the run left it).
    pub fn try_step(&mut self, choice: &str) -> (r: Option<Vec<DialogLine<'a>>>)
        ensures
            match r {
                Some(out) => choice_runs(old(self).story@, old(self).state@, choice@)
                    && (dialog_view(out@), final(self).state@) == choice_result(old(self).story@, old(self).state@, choice@)
                    && spec_options(final(self).story@, final(self).state@) is Some
                    && final(self).state@.visited.contains(final(self).state@.current),
                None => !choice_runs(old(self).story@, old(self).state@, choice@),
            },
            final(self).story == old(self).story,
    {
        proof {
            lemma_run_stops_at_options(self.story@, self.state@, choice@, step_limit());
            law_current_knot_visited(self.story@, self.state@, choice@, step_limit());
        }
        self.run_choice(choice, u64::MAX)
    }

    /// A runner for the story that `text` holds, at its beginning.
    pub fn build_from_str(text: &str) -> (r: Self)
        requires
            spec_import(text@) is Some,
        ensures
            r.story@ == spec_import(text@).unwrap(),
            r.state@ == initial_state(),
    {
        StoryRunner { state: StoryState::default(), story: import_story(text) }
    }

    /// Replaces the story with the one that `text` holds; the state stays.
    /// (The text is kept for the rest of the program.)
    pub fn import_story(&mut self, text: &str)
        requires
            spec_import(text@) is Some,
        ensures
            final(self).story@ == spec_import(text@).unwrap(),
            final(self).state == old(self).state,
    {
        self.story = import_story(text);
    }

    /// Replaces the story, and starts over from its beginning.
    pub fn replace_story(&mut self, story: InkStory<'a>)
        ensures
            final(self).story == story,
            final(self).state@ == initial_state(),
    {
        self.story = story;
        self.state = StoryState::default();
    }

    /// Makes `knot` the current knot.
    pub fn set_knot(&mut self, knot: &str)
        ensures
            final(self).state@ == (SpecState { current: knot@, ..old(self).state@ }),
            final(self).story == old(self).story,
    {
        self.state.current_knot_title = string_of_str(knot);
    }
}

/// The story that ink source text holds: comments are removed, the rest is
/// lexed and parsed. (The text is kept for the rest of the program.)
pub fn import_story<'a>(text: &str) -> (r: InkStory<'a>)
    requires
        spec_import(text@) is Some,
    ensures
        r@ == spec_import(text@).unwrap(),
{
    try_import_story(text).unwrap()
}

/// The story that ink source text holds, as `import_story` reads it; `None`
/// for a text that holds none (see `spec_import`).
pub fn try_import_story<'a>(text: &str) -> (r: Option<InkStory<'a>>)
    ensures
        match r {
            Some(story) => spec_import(text@) == Some(story@),
            None => spec_import(text@) is None,
        },
{
    let stripped = match try_strip_comments(text) {
        Some(s) => s,
        None => {
            return None;
        },
    };
    let stripped: &'static str = leak_text(stripped);
    match try_lex(stripped) {
        Some(tokens) => try_lexed_to_parsed(tokens.as_slice()),
        None => None,
    }
}

} // verus!
