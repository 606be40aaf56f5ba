use ink_runner::ink_lexer::{lex, strip_comments, try_lex, try_strip_comments, InkToken};
use InkToken::{Choice, Dialog, Divert, KnotTitle, Operation, StickyChoice, StitchTitle, Tag, VariableDeclaration};

const COMMENTS: &str = "\"What do you make of this?\" she asked.

// Something unprintable...

\"I couldn't possibly comment,\" I replied.

/*
\t... or an unlimited block of text
*/
";

const STORY_WITH_VARIABLES: &str = "VAR health = 100
LONDON, 1872
Residence of Monsieur Phileas Fogg. -> paris_downtown

=== paris_downtown ===
It was cool downtown. # downtown tag # tag ya
-> paris_suburbs

=== paris_suburbs ===
# suburbs tag
# tag too
Suburbs were cool too.
~ health -= 2
-> london

=== london ===
# tag1 # tag2
Monsieur Phileas Fogg returned home early from the Reform Club, and in a new-fangled steam-carriage, besides!
health: \"{health}\"
# tag 4 # tag 5
\"Passepartout,\" said he. \"We are going around the world!\" # tag 3
+ \u{2764}
  I was utterly astonished.
  -> astonished
+ \u{1f642} -> nod # tag_nod # tag_nod2

=== astonished ===
\"You are in jest!\" I told him in dignified affront. \"You make mock of me, Monsieur.\"
\"I am quite serious.\"
+ \u{1f641}
-> ending

=== nod ===
* one -> ending # tagend1 # tagend2
* two
  I nodded curtly, not believing a word of it.
  -> ending

=== ending ===
\"We shall circumnavigate the globe within eighty days.\" He was quite calm as he proposed this wild scheme. \"We leave for Paris on the 8:25. In an hour.\"
-> END
";

pub const STORY1: &str = "VAR health = 100
LONDON, 1872
Residence of Monsieur Phileas Fogg.
-> downtown

=== downtown
It was cool downtown.
-> suburbs

=== suburbs
Suburbs were cool too.
~ health -= 2
-> london

=== london ===
Monsieur Phileas Fogg returned home early from the Reform Club, and in a new-fangled steam-carriage, besides!
health: \"{health}\"
\"Passepartout,\" said he. \"We are going around the world!\"
* \u{2764}
  I was utterly astonished.
  -> astonished
* \u{1f642} -> nod

=== astonished ===
whoa!
* \u{1f641}
-> ending

=== nod ===
I nodded curtly, not believing a word of it.
-> ending

=== ending
It's the ending!
-> END
";

const FALLBACKS: &str = "hey -> fallback

== fallback
sup
* wut -> fallback
* wutwut
  text
  -> fallback
// the fallback choice has no text
*
  can I put things here?
  -> fallback2

== fallback2
sup2
* wut2 -> fallback2
* -> END // taken when nothing else is left
";

const STITCHES: &str = "=== train ===
// stitches of the train
= first_class
first class
-> missed_train
= second_class
second class
-> train.missed_train
= missed_train
you missed the train
-> END
";

const CHOICES: &str = "What do you want to say?
* Hey
  I'm Bruce.
  -> END
* [sup]
  What is up?
  -> END // the end
";

const CHOICES_WITH_HIDDEN_TEXT: &str = "What do you want to say?
* [\"Hey\"] \"Sup, my dude?\"
  He stared at me in disbelief.
  -> END
* \"Why[?\"] not!\"
  So we left, right there.
  -> END
";

const CONSTANTS: &str = "// a constant
VAR GRAVITY = 9.81
Gravity is an acceleration of {GRAVITY} m/s^2.
-> END
";

const HIDDEN_CHOICE_TEXT: &str = "# hidden
what to do?
* [\u{1f60a}] You smile, a grin as big as the sun.
  -> END
* \u{1f600} [- time to smile]- you fight the need to frown, eyes watering.
  -> END
* [\u{1f60e} - be cool] You are being very cool. -> END
";

#[test]
fn ink_lexer_tests_test_strip_comments() {
    assert_eq!(strip_comments("dialog"), "dialog".to_string());
    assert_eq!(strip_comments("// comment"), "".to_string());
    assert_eq!(strip_comments("dialog // comment"), "dialog".to_string());
    assert_eq!(
        strip_comments("dialog // comment\ndialog 2"),
        "dialog\ndialog 2".to_string()
    );
    assert_eq!(
        strip_comments("dialog\ndialog 2 // comment"),
        "dialog\ndialog 2".to_string()
    );
    assert_eq!(
        strip_comments("// comment\ndialog\ndialog 2 // comment"),
        "\ndialog\ndialog 2".to_string()
    );
    assert_eq!(
        strip_comments("/* comment*/\ndialog\ndialog 2 // comment"),
        "dialog\ndialog 2".to_string()
    );
    assert_eq!(
        strip_comments("/* comment\n*/dialog\ndialog 2 // comment"),
        "dialog\ndialog 2".to_string()
    );
    assert_eq!(
        strip_comments("/* comment\ndialog*/\ndialog 2 // comment"),
        "dialog 2".to_string()
    );
    assert_eq!(
        strip_comments("/* comment\n*/ dialog\ndialog 2 /* comment */"),
        "dialog\ndialog 2".to_string()
    );
    assert_eq!(
        strip_comments(COMMENTS),
        "\"What do you make of this?\" she asked.\n\n\"I couldn't possibly comment,\" I replied."
    );
}

#[test]
fn test_lex() {
    assert_eq!(
        lex(STORY_WITH_VARIABLES),
        vec![
            VariableDeclaration("health = 100"),
            Dialog(("LONDON, 1872", true)),
            Dialog(("Residence of Monsieur Phileas Fogg.", false)),
            Divert("paris_downtown"),
            KnotTitle("paris_downtown"),
            Tag("downtown tag"),
            Tag("tag ya"),
            Dialog(("It was cool downtown.", true)),
            Divert("paris_suburbs"),
            KnotTitle("paris_suburbs"),
            Tag("suburbs tag"),
            Tag("tag too"),
            Dialog(("Suburbs were cool too.", true)),
            Operation("health -= 2"),
            Divert("london"),
            KnotTitle("london"),
            Tag("tag1"),
            Tag("tag2"),
            Dialog(("Monsieur Phileas Fogg returned home early from the Reform Club, and in a new-fangled steam-carriage, besides!", true)),
            Dialog(("health: \"{health}\"", true)),
            Tag("tag 4"),
            Tag("tag 5"),
            Tag("tag 3"),
            Dialog(("\"Passepartout,\" said he. \"We are going around the world!\"", true)),
            StickyChoice(("\u{2764}", true)),
            Dialog(("I was utterly astonished.", true)),
            Divert("astonished"),
            StickyChoice(("\u{1f642}", false)),
            Tag("tag_nod"),
            Tag("tag_nod2"),
            Divert("nod"),
            KnotTitle("astonished"),
            Dialog(("\"You are in jest!\" I told him in dignified affront. \"You make mock of me, Monsieur.\"", true)),
            Dialog(("\"I am quite serious.\"", true)),
            StickyChoice(("\u{1f641}", true)),
            Divert("ending"),
            KnotTitle("nod"),
            Choice(("one", false)),
            Tag("tagend1"),
            Tag("tagend2"),
            Divert("ending"),
            Choice(("two", true)),
            Dialog(("I nodded curtly, not believing a word of it.", true)),
            Divert("ending"),
            KnotTitle("ending"),
            Dialog(("\"We shall circumnavigate the globe within eighty days.\" He was quite calm as he proposed this wild scheme. \"We leave for Paris on the 8:25. In an hour.\"", true)),
            Divert("END"),
        ]
    );
}

#[test]
fn test_lex_story1() {
    assert_eq!(
        lex(STORY1),
        vec![
            VariableDeclaration("health = 100"),
            Dialog(("LONDON, 1872", true)),
            Dialog(("Residence of Monsieur Phileas Fogg.", true)),
            Divert("downtown"),
            KnotTitle("downtown"),
            Dialog(("It was cool downtown.", true)),
            Divert("suburbs"),
            KnotTitle("suburbs"),
            Dialog(("Suburbs were cool too.", true)),
            Operation("health -= 2"),
            Divert("london"),
            KnotTitle("london"),
            Dialog(("Monsieur Phileas Fogg returned home early from the Reform Club, and in a new-fangled steam-carriage, besides!", true)),
            Dialog(("health: \"{health}\"", true)),
            Dialog(("\"Passepartout,\" said he. \"We are going around the world!\"", true)),
            Choice(("\u{2764}", true)),
            Dialog(("I was utterly astonished.", true)),
            Divert("astonished"),
            Choice(("\u{1f642}", false)),
            Divert("nod"),
            KnotTitle("astonished"),
            Dialog(("whoa!", true)),
            Choice(("\u{1f641}", true)),
            Divert("ending"),
            KnotTitle("nod"),
            Dialog(("I nodded curtly, not believing a word of it.", true)),
            Divert("ending"),
            KnotTitle("ending"),
            Dialog(("It's the ending!", true)),
            Divert("END"),
        ]
    );
}

#[test]
fn test_lex_trailind_equals() {
    assert_eq!(
        lex("=== knot title ===\n-> END"),
        vec![KnotTitle("knot title"), Divert("END"),]
    );
    assert_eq!(
        lex("=== knot title\n-> END"),
        vec![KnotTitle("knot title"), Divert("END"),]
    );
}

#[test]
fn test_lex_fallbacks() {
    assert_eq!(
        lex(&strip_comments(FALLBACKS)),
        vec![
            Dialog(("hey", false)),
            Divert("fallback"),
            KnotTitle("fallback"),
            Dialog(("sup", true)),
            Choice(("wut", false)),
            Divert("fallback"),
            Choice(("wutwut", true)),
            Dialog(("text", true)),
            Divert("fallback"),
            StickyChoice(("", true)),
            Dialog(("can I put things here?", true)),
            Divert("fallback2"),
            KnotTitle("fallback2"),
            Dialog(("sup2", true)),
            Choice(("wut2", false)),
            Divert("fallback2"),
            StickyChoice(("", false)),
            Divert("END"),
        ]
    );
}

#[test]
fn test_lex_stitches() {
    assert_eq!(
        lex(&strip_comments(STITCHES)),
        vec![
            KnotTitle("train"),
            StitchTitle("first_class"),
            Dialog(("first class", true)),
            Divert("missed_train"),
            StitchTitle("second_class"),
            Dialog(("second class", true)),
            Divert("train.missed_train"),
            StitchTitle("missed_train"),
            Dialog(("you missed the train", true)),
            Divert("END"),
        ]
    );
}

#[test]
fn test_lex_choices() {
    assert_eq!(
        lex(&strip_comments(CHOICES)),
        vec![
            Dialog(("What do you want to say?", true)),
            Choice(("Hey", true)),
            Dialog(("I'm Bruce.", true)),
            Divert("END"),
            Choice(("[sup]", true)),
            Dialog(("What is up?", true)),
            Divert("END"),
        ]
    );
}

#[test]
fn test_lex_choices_with_hidden_choice_text() {
    assert_eq!(
        lex(&strip_comments(CHOICES_WITH_HIDDEN_TEXT)),
        vec![
            Dialog(("What do you want to say?", true)),
            Choice(("[\"Hey\"] \"Sup, my dude?\"", true)),
            Dialog(("He stared at me in disbelief.", true)),
            Divert("END"),
            Choice(("\"Why[?\"] not!\"", true)),
            Dialog(("So we left, right there.", true)),
            Divert("END"),
        ]
    );
}

#[test]
fn test_lex_const() {
    assert_eq!(
        lex(&strip_comments(CONSTANTS)),
        vec![
            VariableDeclaration("GRAVITY = 9.81"),
            Dialog(("Gravity is an acceleration of {GRAVITY} m/s^2.", true)),
            Divert("END"),
        ]
    );
}

#[test]
fn test_newlines() {
    assert_eq!(
        lex(r"
        this has a newline
        -> next
        == next
        but this does not -> next2
        == next2
        , right?
        -> END"),
        vec![
            Dialog(("this has a newline", true)),
            Divert("next"),
            KnotTitle("next"),
            Dialog(("but this does not", false)),
            Divert("next2"),
            KnotTitle("next2"),
            Dialog((", right?", true)),
            Divert("END"),
        ]
    );
}

#[test]
fn test_lex_newlines() {
    assert_eq!(
        lex(&strip_comments(HIDDEN_CHOICE_TEXT)),
        vec![
            Tag("hidden"),
            Dialog(("what to do?", true)),
            Choice(("[\u{1f60a}] You smile, a grin as big as the sun.", true)),
            Divert("END"),
            Choice((
                "\u{1f600} [- time to smile]- you fight the need to frown, eyes watering.",
                true
            )),
            Divert("END"),
            Choice(("[\u{1f60e} - be cool] You are being very cool.", false)),
            Divert("END"),
        ]
    );
}

#[test]
fn fallback_choices_are_sticky() {
    assert_eq!(
        lex("* -> a\n*\n+ b\n* c"),
        vec![
            StickyChoice(("", false)),
            Divert("a"),
            StickyChoice(("", true)),
            StickyChoice(("b", true)),
            Choice(("c", true)),
        ]
    );
}

#[test]
fn checked_lexing_and_comment_removal() {
    assert_eq!(try_lex("==="), None);
    assert_eq!(try_lex("== é=="), None);
    assert_eq!(try_lex("== a =="), Some(vec![KnotTitle("a")]));
    assert_eq!(try_strip_comments("a /* b"), None);
    assert_eq!(try_strip_comments("a /*"), None);
    assert_eq!(try_strip_comments("a /*é */ b"), None);
    assert_eq!(try_strip_comments("a /* b */ c"), Some("ac".to_string()));
}

#[test]
fn token_texts_are_trimmed() {
    assert_eq!(
        lex("   hello there   -> next  \n*   pick me   #  tag  \n  ~   x = 1  \n VAR   y = 2 \n==  knot  =="),
        vec![
            Dialog(("hello there", false)),
            Divert("next"),
            Choice(("pick me", true)),
            Tag("tag"),
            Operation("x = 1"),
            VariableDeclaration("y = 2"),
            KnotTitle("knot"),
        ]
    );
}

const GLUE: &str = "What do you want to say?
* [\"Hey\"] \"Sup, my dude?\"
  He stared at me in disbelief.
  -> END
* \"Why[?\"] not!\"
  So we left, right there.
  -> END
";

#[test]
fn test_glue() {
    assert_eq!(
        lex(&strip_comments(GLUE)),
        vec![
            Dialog(("What do you want to say?", true)),
            Choice(("[\"Hey\"] \"Sup, my dude?\"", true)),
            Dialog(("He stared at me in disbelief.", true)),
            Divert("END"),
            Choice(("\"Why[?\"] not!\"", true)),
            Dialog(("So we left, right there.", true)),
            Divert("END"),
        ]
    );
}

#[test]
fn lines_are_lexed_apart_and_blank_text_is_empty() {
    let a = "== knot\nhello # t";
    let b = "* go -> knot\n~ x = 1";
    let joined = format!("{}\n{}", a, b);
    let mut both = lex(a);
    both.extend(lex(b));
    assert_eq!(lex(&joined), both);
    assert_eq!(lex(""), vec![]);
    assert_eq!(lex(" \n\t\n "), vec![]);
}
