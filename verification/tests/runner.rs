use ink_runner::ink_parser::DialogLine;
use ink_runner::ink_runner::{try_import_story, StoryRunner};

#[test]
fn run_story() {
    let mut runner = StoryRunner::build_from_str(
        r"VAR cool = 100
        -> town
        == town
        you are in town
        -> END",
    );

    assert_eq!(runner.start(), vec!["you are in town".into()]);
}

#[test]
fn run_story_with_choices() {
    let story = r"Which way to go?
        * to town
          let's go to town
        -> END
        * to the moon
          let's go do the moon
        -> END";
    let mut runner = StoryRunner::build_from_str(story);

    let start_lines = runner.start();
    assert_eq!(start_lines, vec!["Which way to go?".into()]);

    let options = runner.get_options();
    assert_eq!(options, vec!["to town", "to the moon"]);

    let stepped = runner.step("to town");
    assert_eq!(stepped, vec!["to town".into(), "let's go to town".into()]);
}

#[test]
fn run_story_with_choices_longer() {
    let story = r"Which way to go?
        * to town
          let's go to town
        -> town
        * to the moon
          let's go to the moon
        -> moon
        == town
        town is cool
        -> END
        == moon
        moon is great
        -> END";
    let mut runner = StoryRunner::build_from_str(story);

    let start_lines = runner.start();
    assert_eq!(start_lines, vec!["Which way to go?".into()]);

    let options = runner.get_options();
    assert_eq!(options, vec!["to town", "to the moon"]);

    let stepped = runner.step("to town");
    assert_eq!(
        stepped,
        vec![
            "to town".into(),
            "let's go to town".into(),
            "town is cool".into()
        ]
    );

    let mut runner = StoryRunner::build_from_str(story);

    runner.start();
    runner.get_options();
    let stepped = runner.step("to the moon");
    assert_eq!(
        stepped,
        vec![
            "to the moon".into(),
            "let's go to the moon".into(),
            "moon is great".into()
        ]
    );
}

#[test]
fn dialog_line_with_tags_compares_by_fields() {
    let a: DialogLine<'_> = "x".into();
    assert_eq!(a, DialogLine { text: "x", tags: vec![] });
}

#[test]
fn main_basic_story() {
    let mut runner = StoryRunner::build_from_str("Hello\n* go\n  went\n  -> END");
    assert_eq!(runner.start(), vec!["Hello".into()]);
    assert_eq!(runner.get_options(), vec!["go"]);
    assert_eq!(runner.step("go"), vec!["go".into(), "went".into()]);
    assert_eq!(runner.get_options(), Vec::<String>::new());
}

const STORY1: &str = "VAR health = 100
LONDON, 1872
Residence of Monsieur Phileas Fogg.
-> downtown

=== downtown
It was cool downtown.
-> suburbs

=== suburbs
Suburbs were cool too.
~ health -= 2
-> london

=== london ===
Monsieur Phileas Fogg returned home early from the Reform Club, and in a new-fangled steam-carriage, besides!
health: \"{health}\"
\"Passepartout,\" said he. \"We are going around the world!\"
* \u{2764}
  I was utterly astonished.
  -> astonished
* \u{1f642} -> nod

=== astonished ===
whoa!
* \u{1f641}
-> ending

=== nod ===
I nodded curtly, not believing a word of it.
-> ending

=== ending
It's the ending!
-> END
";

const BOT: &str = "VAR health = 100
LONDON, 1872
Residence of Monsieur Phileas Fogg. -> downtown

=== downtown ===
It was cool downtown. # downtown tag
-> suburbs

=== suburbs ===
# suburbs tag
Suburbs were cool too.
~ health -= 2
-> london

=== london ===
Monsieur Phileas Fogg returned home early from the Reform Club, and in a new-fangled steam-carriage, besides! # health +1
# tag1
health: \"{health}\" # tag2
\"Passepartout,\" said he. \"We are going around the world!\" # tag 4
+ \u{2764}
  I was utterly astonished.
  -> astonished
+ \u{1f642} -> nod

=== astonished ===
\"You are in jest!\" I told him in dignified affront. \"You make mock of me, Monsieur.\"
\"I am quite serious.\"
+ \u{1f641}
-> ending

=== nod ===
I nodded curtly, not believing a word of it.
-> ending

=== ending ===
\"We shall circumnavigate the globe within eighty days.\" He was quite calm as he proposed this wild scheme. \"We leave for Paris on the 8:25. In an hour.\"
-> END
";

const RECURSIVE: &str = "start
-> place_a

== place_a
At place A.
+ stick.
  stuck
  -> place_a
+ also stick.
  so stuck
  -> END
* once only.
  uno
  -> place_a
* also once only.
  uno two
  -> place_a
";

const FALLBACKS: &str = "hey -> fallback

== fallback
sup
* wut -> fallback
* wutwut
  text
  -> fallback
// the fallback choice has no text
*
  can I put things here?
  -> fallback2

== fallback2
sup2
* wut2 -> fallback2
* -> END // taken when nothing else is left
";

const STITCHES: &str = "=== train ===
// stitches of the train
= first_class
first class
-> missed_train
= second_class
second class
-> train.missed_train
= missed_train
you missed the train
-> END
";

const STITCHES_ADVANCED: &str = "Train time!
-> train

=== train ===
= first_class
first class
-> bus
= second_class
second class
-> missed_train
= missed_train
you missed the train
-> END

=== bus ===
bus time
-> back_on_the_train

=== back_on_the_train ===
train was better
-> train.second_class
";

const STITCHES_WITH_CHOICES: &str = "=== train ===
= first_class
first class
* be late
  -> missed_train
* be early
  -> second_class
= second_class
second class
-> missed_train
= missed_train
you missed the train
* cool
  -> END
* uncool
  -> missed_train
";

#[test]
fn ink_runner_tests_test_strip_comments() {
    assert_eq!(true, true);
}

#[test]
fn run_story1() {
    let story = STORY1;
    let mut runner = StoryRunner::build_from_str(story);

    let start_lines = runner.start();
    assert_eq!(
        start_lines,
        vec![
            "LONDON, 1872".into(),
            "Residence of Monsieur Phileas Fogg.".into(),
            "It was cool downtown.".into(),
            "Suburbs were cool too.".into(),
            "Monsieur Phileas Fogg returned home early from the Reform Club, and in a new-fangled steam-carriage, besides!".into(),
            "health: \"{health}\"".into(),
            "\"Passepartout,\" said he. \"We are going around the world!\"".into(),
        ]
    );

    let options = runner.get_options();
    assert_eq!(options, vec!["\u{2764}", "\u{1f642}"]);

    let stepped = runner.step("\u{2764}");
    assert_eq!(
        stepped,
        vec![
            "\u{2764}".into(),
            "I was utterly astonished.".into(),
            "whoa!".into()
        ]
    );

    let options = runner.get_options();
    assert_eq!(options, vec!["\u{1f641}"]);

    let mut runner = StoryRunner::build_from_str(story);

    runner.start();
    runner.get_options();
    let stepped = runner.step("\u{1f642}");
    assert_eq!(
        stepped,
        vec![
            "\u{1f642}".into(),
            "I nodded curtly, not believing a word of it.".into(),
            "It's the ending!".into()
        ]
    );
}

#[test]
fn run_bot_story() {
    let story = BOT;
    let mut runner = StoryRunner::build_from_str(story);

    let start_lines = runner.start();
    assert_eq!(
        start_lines,
        vec![
            "LONDON, 1872".into(),
            "Residence of Monsieur Phileas Fogg.".into(),
            DialogLine {
                text: "It was cool downtown.",
                tags: vec!["downtown tag"],
            },
            DialogLine {
                text: "Suburbs were cool too.",
                tags: vec!["suburbs tag"],
            },
            DialogLine {
                text: "Monsieur Phileas Fogg returned home early from the Reform Club, and in a new-fangled steam-carriage, besides!",
                tags: vec!["health +1"],
            },
            DialogLine {
                text: "health: \"{health}\"",
                tags: vec!["tag1", "tag2"]
            },
            DialogLine {
                text: "\"Passepartout,\" said he. \"We are going around the world!\"",
                tags: vec!["tag 4"],
            },
        ]
    );

    let options = runner.get_options();
    assert_eq!(options, vec!["\u{2764}", "\u{1f642}"]);

    let stepped = runner.step("\u{2764}");
    assert_eq!(
        stepped,
        vec!["\u{2764}".into(), "I was utterly astonished.".into(), "\"You are in jest!\" I told him in dignified affront. \"You make mock of me, Monsieur.\"".into(), "\"I am quite serious.\"".into()]
    );

    let options = runner.get_options();
    assert_eq!(options, vec!["\u{1f641}"]);

    let mut runner = StoryRunner::build_from_str(story);

    runner.start();
    runner.get_options();
    let stepped = runner.step("\u{1f642}");
    assert_eq!(
        stepped,
        vec![
            "\u{1f642}".into(),
            "I nodded curtly, not believing a word of it.".into(),
            "\"We shall circumnavigate the globe within eighty days.\" He was quite calm as he proposed this wild scheme. \"We leave for Paris on the 8:25. In an hour.\"".into()
        ]
    );

    assert_eq!(runner.get_options(), Vec::<String>::new());
}

#[test]
fn run_recursive() {
    let story = RECURSIVE;
    let mut runner = StoryRunner::build_from_str(story);

    let start_lines = runner.start();
    assert_eq!(start_lines, vec!["start".into(), "At place A.".into()]);

    let options = runner.get_options();
    assert_eq!(
        options,
        vec!["stick.", "also stick.", "once only.", "also once only."]
    );

    let stepped = runner.step("stick.");
    assert_eq!(
        stepped,
        vec!["stick.".into(), "stuck".into(), "At place A.".into()]
    );
    let options = runner.get_options();
    assert_eq!(
        options,
        vec!["stick.", "also stick.", "once only.", "also once only."]
    );

    let stepped = runner.step("once only.");
    assert_eq!(
        stepped,
        vec!["once only.".into(), "uno".into(), "At place A.".into()]
    );
    let options = runner.get_options();
    assert_eq!(options, vec!["stick.", "also stick.", "also once only."]);

    let stepped = runner.step("also once only.");
    assert_eq!(
        stepped,
        vec![
            "also once only.".into(),
            "uno two".into(),
            "At place A.".into()
        ]
    );
    let options = runner.get_options();
    assert_eq!(options, vec!["stick.", "also stick."]);

    let stepped = runner.step("also stick.");
    assert_eq!(stepped, vec!["also stick.".into(), "so stuck".into()]);
    let options = runner.get_options();
    let empty: Vec<String> = vec![];
    assert_eq!(options, empty);
}

#[test]
fn run_fallbacks() {
    let story = FALLBACKS;
    let mut runner = StoryRunner::build_from_str(story);

    let start_lines = runner.start();
    assert_eq!(start_lines, vec!["hey".into(), "sup".into()]);

    let options = runner.get_options();
    assert_eq!(options, vec!["wut", "wutwut"]);

    assert_eq!(runner.step("wut"), vec!["wut".into(), "sup".into()]);
    assert_eq!(runner.get_options(), vec!["wutwut"]);

    assert_eq!(
        runner.step("wutwut"),
        vec![
            "wutwut".into(),
            "text".into(),
            "sup".into(),
            "can I put things here?".into(),
            "sup2".into()
        ]
    );
    assert_eq!(runner.get_options(), vec!["wut2"]);

    assert_eq!(runner.step("wut2"), vec!["wut2".into(), "sup2".into(),]);
    let empty: Vec<String> = vec![];
    assert_eq!(runner.get_options(), empty);
}

#[test]
fn run_stitches() {
    let story = STITCHES;
    let mut runner = StoryRunner::build_from_str(story);

    let start_lines = runner.start();
    assert_eq!(
        start_lines,
        vec!["first class".into(), "you missed the train".into()]
    );

    let empty: Vec<String> = vec![];
    assert_eq!(runner.get_options(), empty);
}

#[test]
fn run_stitches_advanced() {
    let story = STITCHES_ADVANCED;
    let mut runner = StoryRunner::build_from_str(story);

    let start_lines = runner.start();
    assert_eq!(
        start_lines,
        vec![
            "Train time!".into(),
            "first class".into(),
            "bus time".into(),
            "train was better".into(),
            "second class".into(),
            "you missed the train".into(),
        ]
    );

    let empty: Vec<String> = vec![];
    assert_eq!(runner.get_options(), empty);
}

#[test]
fn run_stitches_with_choices() {
    let story = STITCHES_WITH_CHOICES;
    let mut runner = StoryRunner::build_from_str(story);

    let start_lines = runner.start();
    assert_eq!(start_lines, vec!["first class".into(),]);

    assert_eq!(runner.get_options(), vec!["be late", "be early"]);

    assert_eq!(
        runner.step("be early"),
        vec![
            "be early".into(),
            "second class".into(),
            "you missed the train".into()
        ]
    );

    assert_eq!(runner.get_options(), vec!["cool", "uncool"]);

    assert_eq!(
        runner.step("uncool"),
        vec!["uncool".into(), "you missed the train".into()]
    );

    assert_eq!(runner.get_options(), vec!["cool"]);

    assert_eq!(runner.step("cool"), vec!["cool".into()]);

    let empty: Vec<String> = vec![];
    assert_eq!(runner.get_options(), empty);
}

#[test]
fn playing_records_visits_and_choices() {
    let story = r"start
        * one
          -> next
        + two
          -> next
        == next
        more
        * back -> END";
    let mut runner = StoryRunner::build_from_str(story);
    runner.start();
    assert_eq!(runner.state.visited_knots, vec!["__INTRO__".to_string()]);
    assert!(runner.state.chosen_choices.is_empty());

    runner.step("one");
    assert_eq!(runner.state.current_knot_title, "next");
    assert_eq!(runner.state.visited_knots, vec!["__INTRO__".to_string(), "next".to_string()]);
    assert_eq!(runner.state.chosen_choices, vec![("__INTRO__".to_string(), "one".to_string())]);

    runner.step("back");
    assert_eq!(runner.state.current_knot_title, "END");
    assert_eq!(
        runner.state.visited_knots,
        vec!["__INTRO__".to_string(), "next".to_string(), "END".to_string()]
    );
    assert_eq!(
        runner.state.chosen_choices,
        vec![("__INTRO__".to_string(), "one".to_string()), ("next".to_string(), "back".to_string())]
    );
    let empty: Vec<String> = vec![];
    assert_eq!(runner.get_options(), empty);
}

#[test]
fn chosen_once_only_choice_is_not_offered_again() {
    let story = r"== hub
        pick
        * once -> hub
        + always -> hub
        * also -> hub";
    let mut runner = StoryRunner::build_from_str(story);
    runner.start();
    assert_eq!(runner.get_options(), vec!["once", "always", "also"]);
    runner.step("once");
    assert_eq!(runner.get_options(), vec!["always", "also"]);
    runner.step("always");
    assert_eq!(runner.get_options(), vec!["always", "also"]);
    runner.step("also");
    assert_eq!(runner.get_options(), vec!["always"]);
}

#[test]
fn import_refuses_what_cannot_be_read() {
    assert!(try_import_story("dialog /* open").is_none());
    assert!(try_import_story("dialog /*").is_none());
    assert!(try_import_story("=====").is_none());
    assert!(try_import_story("~ x = 1").is_none());
    assert!(try_import_story("VAR x").is_none());
    assert!(try_import_story("VAR x = what").is_none());
    assert!(try_import_story("= stitch\nline").is_none());
    assert!(try_import_story("== knot\nVAR x = 1").is_none());
    assert!(try_import_story("* a\n= s").is_none());
    assert!(try_import_story("VAR x = 1\n== knot ==\nline /* c */ -> END").is_some());
}

#[test]
fn start_and_step_refuse_what_cannot_run() {
    let mut runner = StoryRunner::build_from_str("-> missing");
    assert!(runner.try_start().is_none());

    let mut runner = StoryRunner::build_from_str("pick\n* a -> gone\n* b -> END");
    assert_eq!(runner.try_start(), Some(vec!["pick".into()]));
    assert!(runner.try_step("c").is_none());
    let mut runner = StoryRunner::build_from_str("pick\n* a -> gone\n* b -> END");
    runner.start();
    assert!(runner.try_step("a").is_none());
    let mut runner = StoryRunner::build_from_str("pick\n* a -> gone\n* b -> END");
    runner.start();
    assert_eq!(runner.try_step("b"), Some(vec!["b".into()]));
}

#[test]
fn bracketed_choice_text() {
    let mut r = StoryRunner::build_from_str("Hi\n* Hello[.], world\n-> END");
    assert_eq!(r.start(), vec!["Hi".into()]);
    assert_eq!(r.get_options(), vec!["Hello."]);
    assert_eq!(r.step("Hello."), vec!["Hello, world".into()]);
}

#[test]
fn conditional_choices() {
    let mut r = StoryRunner::build_from_str("-> a\n== a\n* {b} go\n-> END\n* stay\n-> END\n== b\nx\n-> END");
    r.start();
    assert_eq!(r.get_options(), vec!["stay"]);

    let mut r = StoryRunner::build_from_str("-> b\n== b\nx\n-> a\n== a\n* {b} go\n-> END\n* stay\n-> END");
    assert_eq!(r.start(), vec!["x".into()]);
    assert_eq!(r.get_options(), vec!["go", "stay"]);

    let mut r = StoryRunner::build_from_str("-> b.s\n== b\n= s\nin s\n-> a\n== a\n* {b} go -> END\n* stay -> END");
    assert_eq!(r.start(), vec!["in s".into()]);
    assert_eq!(r.get_options(), vec!["go", "stay"]);
}
