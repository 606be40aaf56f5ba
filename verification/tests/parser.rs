use ink_runner::ink_lexer::InkToken::{Choice, Dialog, Divert as DivertToken, KnotTitle, Operation, StickyChoice, StitchTitle, Tag, VariableDeclaration};
use ink_runner::ink_parser::try_lexed_to_parsed;
use ink_runner::ink_runner::import_story;
use ink_runner::ink_parser::{
    get_author_from_tag, get_title_from_tag, lexed_to_parsed, DialogLine, Divert, Knot, KnotEnd, Line, VariableValue,
};

fn titles(knots: &[Knot]) -> Vec<String> {
    knots.iter().map(|k| k.title.clone()).collect()
}

#[test]
fn repeated_names_are_kept_once() {
    let tokens = vec![
        VariableDeclaration("x = 1"),
        VariableDeclaration("y = \"text\""),
        VariableDeclaration("x = 2"),
        KnotTitle("a"),
        Dialog(("one", true)),
        KnotTitle("a"),
        Dialog(("two", true)),
    ];
    let story = lexed_to_parsed(&tokens);
    assert_eq!(
        story.global_variables_and_constants,
        vec![("x", VariableValue::Int(2)), ("y", VariableValue::Content("text".to_string()))]
    );
    assert_eq!(titles(&story.knots), vec!["a".to_string(), "__INTRO__".to_string()]);
    assert_eq!(story.knots[0].lines, vec![Line::Dialog(DialogLine { text: "two", tags: vec![] })]);
    assert_eq!(story.knots[0].end, KnotEnd::Divert(Divert { knot_title: "END".to_string() }));
}

#[test]
fn intro_knot_diverts_to_first_knot() {
    let tokens = vec![Tag("author: Me"), Dialog(("hello", true)), KnotTitle("first"), Dialog(("there", true))];
    let story = lexed_to_parsed(&tokens);
    let intro = story.knots.iter().find(|k| k.title == "__INTRO__").unwrap();
    assert_eq!(intro.lines, vec![Line::Dialog(DialogLine { text: "hello", tags: vec!["author: Me"] })]);
    assert_eq!(intro.end, KnotEnd::Divert(Divert { knot_title: "first".to_string() }));
    assert_eq!(intro.knot_tags, vec!["author: Me"]);
    assert_eq!(story.global_tags, vec!["author: Me"]);
    assert_eq!(story.get_author(), Some("Me".to_string()));
    assert_eq!(story.get_title(), None);
}

#[test]
fn empty_story_has_only_intro() {
    let story = lexed_to_parsed(&[]);
    assert_eq!(titles(&story.knots), vec!["__INTRO__".to_string()]);
    assert_eq!(story.knots[0].end, KnotEnd::Divert(Divert { knot_title: "END".to_string() }));
}

#[test]
fn intro_choices() {
    let tokens = vec![
        Dialog(("pick", true)),
        Choice(("[Left]", false)),
        DivertToken("left"),
        StickyChoice(("Right", true)),
        Dialog(("you went right", true)),
    ];
    let story = lexed_to_parsed(&tokens);
    let intro = &story.knots[0];
    match &intro.end {
        KnotEnd::Choices(cs) => {
            assert_eq!(cs.len(), 2);
            assert_eq!(cs[0].text, "Left");
            assert_eq!(cs[0].output, "");
            assert_eq!(cs[0].condition, None);
            assert!(!cs[0].sticky);
            assert_eq!(cs[0].divert, Divert { knot_title: "left".to_string() });
            assert_eq!(cs[1].text, "Right");
            assert_eq!(cs[1].output, "Right");
            assert!(cs[1].sticky);
            assert_eq!(cs[1].lines, vec![Line::Dialog(DialogLine { text: "you went right", tags: vec![] })]);
            assert_eq!(cs[1].divert, Divert { knot_title: "END".to_string() });
        }
        other => panic!("expected choices, got {:?}", other),
    }
}

#[test]
fn variable_values() {
    let tokens = vec![
        VariableDeclaration("a = -12"),
        VariableDeclaration("b = 1.5"),
        VariableDeclaration("c = -> knot"),
        VariableDeclaration("d = \"hi there\""),
        VariableDeclaration("e = 1e3"),
    ];
    let story = lexed_to_parsed(&tokens);
    assert_eq!(
        story.global_variables_and_constants,
        vec![
            ("a", VariableValue::Int(-12)),
            ("b", VariableValue::Float("1.5".to_string())),
            ("c", VariableValue::Address("knot".to_string())),
            ("d", VariableValue::Content("hi there".to_string())),
            ("e", VariableValue::Float("1e3".to_string())),
        ]
    );
}

#[test]
fn author_and_title_tags() {
    assert_eq!(get_author_from_tag("author: Jane Doe"), Some("Jane Doe".to_string()));
    assert_eq!(get_author_from_tag("title: A Story"), None);
    assert_eq!(get_title_from_tag("title:   A Story  "), Some("A Story".to_string()));
    assert_eq!(get_title_from_tag("author: Jane"), None);
}

#[test]
fn checked_parsing() {
    assert!(try_lexed_to_parsed(&[VariableDeclaration("x")]).is_none());
    assert!(try_lexed_to_parsed(&[VariableDeclaration("x = nope")]).is_none());
    assert!(try_lexed_to_parsed(&[VariableDeclaration("x = \"")]).is_none());
    assert!(try_lexed_to_parsed(&[StitchTitle("s")]).is_none());
    assert!(try_lexed_to_parsed(&[Operation("x = 1")]).is_none());
    assert!(try_lexed_to_parsed(&[KnotTitle("k"), VariableDeclaration("x = 1")]).is_none());
    assert!(try_lexed_to_parsed(&[Choice(("c", true)), KnotTitle("k")]).is_none());
    assert!(try_lexed_to_parsed(&[KnotTitle("k"), Operation("x = 1"), Dialog(("d", true))]).is_some());
}

#[test]
fn knot_tags_are_tags_of_first_line() {
    let story = import_story("# g1\nintro line # it\n== k\n# kt\nfirst line # end\nsecond # s2\n-> END");
    let k = story.knots.iter().find(|k| k.title == "k").unwrap();
    assert_eq!(k.knot_tags, vec!["kt", "end"]);
    assert_eq!(k.lines[0], Line::Dialog(DialogLine { text: "first line", tags: vec!["kt", "end"] }));
    assert_eq!(k.lines[1], Line::Dialog(DialogLine { text: "second", tags: vec!["s2"] }));
    let intro = story.knots.iter().find(|k| k.title == "__INTRO__").unwrap();
    assert_eq!(intro.knot_tags, vec!["g1", "it"]);
    assert_eq!(intro.lines, vec![Line::Dialog(DialogLine { text: "intro line", tags: vec!["g1", "it"] })]);
    assert_eq!(intro.end, KnotEnd::Divert(Divert { knot_title: "k".to_string() }));
    assert_eq!(story.global_tags, vec!["g1", "it"]);
}

#[test]
fn choice_text_parts_and_conditions() {
    let tokens = vec![
        Choice(("Hello[.], world", true)),
        Choice(("{b} go", true)),
        Choice(("{ seen.knot }  [x] rest", true)),
        Choice(("no brackets", true)),
        Choice(("[only inside]", true)),
    ];
    let story = lexed_to_parsed(&tokens);
    match &story.knots[0].end {
        KnotEnd::Choices(cs) => {
            assert_eq!((cs[0].text, cs[0].output, cs[0].condition), ("Hello.", "Hello, world", None));
            assert_eq!((cs[1].text, cs[1].output, cs[1].condition), ("go", "go", Some("b")));
            assert_eq!((cs[2].text, cs[2].output, cs[2].condition), ("x", "rest", Some("seen.knot")));
            assert_eq!((cs[3].text, cs[3].output, cs[3].condition), ("no brackets", "no brackets", None));
            assert_eq!((cs[4].text, cs[4].output, cs[4].condition), ("only inside", "", None));
        }
        other => panic!("expected choices, got {:?}", other),
    }
}

#[test]
fn knot_titles_and_variable_names_come_from_tokens() {
    let tokens = vec![
        VariableDeclaration("  speed  = 3"),
        KnotTitle("train"),
        Dialog(("all aboard", true)),
        StitchTitle("first"),
        Dialog(("first class", true)),
        StitchTitle("second"),
        Dialog(("second class", true)),
    ];
    let story = lexed_to_parsed(&tokens);
    assert_eq!(
        titles(&story.knots),
        vec!["train".to_string(), "train.first".to_string(), "train.second".to_string(), "__INTRO__".to_string()]
    );
    assert_eq!(story.global_variables_and_constants, vec![("speed", VariableValue::Int(3))]);
}
