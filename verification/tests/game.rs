use ink_runner::game::{get_img_tag_image, story_has_hidden_tag, Game};
use ink_runner::ink_runner::import_story;

const BASIC_STORY: &str = "# title: Basic Story
# author: Someone
You are in the city.
* downtown?
  You walk downtown.
  -> END
* uptown?
  -> END
";

#[test]
fn lib_basic_story() {
    let mut game = Game::new(BASIC_STORY, None);
    assert_eq!(game.lines_as_text(), "You are in the city.");
    assert_eq!(game.choices_as_strings(), vec!["downtown?", "uptown?"]);
    assert_eq!(false, game.is_over());

    game.choose_option("downtown?");
    assert_eq!(game.lines_as_text(), "downtown?\nYou walk downtown.");
    assert_eq!(game.choices_as_strings(), Vec::<String>::new());

    assert_eq!(true, game.is_over());
}

#[test]
fn game_title_author_and_tags() {
    let game = Game::new(BASIC_STORY, None);
    assert_eq!(game.get_title(), Some("Basic Story".to_string()));
    assert_eq!(game.get_author(), Some("Someone".to_string()));
    assert!(!game.should_hide_choices());
    assert_eq!(
        game.lines_and_tags(),
        vec![(
            "You are in the city.".to_string(),
            vec!["title: Basic Story".to_string(), "author: Someone".to_string()]
        )]
    );
}

#[test]
fn game_images_from_tags() {
    let story = "# hide_choices\nLook! # img: cat.png # other\nAnd here. # img:dog.jpg\n-> END";
    let game = Game::new(story, None);
    assert_eq!(game.images(), vec!["img/cat.png".to_string(), "img/dog.jpg".to_string()]);
    assert!(game.should_hide_choices());
    assert!(game.is_over());
    assert_eq!(game.lines_as_text(), "Look!\nAnd here.");
}

#[test]
fn game_starts_at_given_knot() {
    let story = "start\n-> END\n== later\nlater on\n-> END";
    let game = Game::new(story, Some("later".to_string()));
    assert_eq!(game.lines_as_text(), "later on");
    assert!(game.is_over());
}

#[test]
fn img_tags() {
    assert_eq!(get_img_tag_image("img: a.png "), Some("img/a.png".to_string()));
    assert_eq!(get_img_tag_image("img:b"), Some("img/b".to_string()));
    assert_eq!(get_img_tag_image("image: a.png"), None);
    assert_eq!(get_img_tag_image(" img: a.png"), None);
}

#[test]
fn hidden_stories() {
    assert!(story_has_hidden_tag(&import_story("# hidden\nhi\n-> END")));
    // a tag at the end of the first line comes before it, so it is global too
    assert!(story_has_hidden_tag(&import_story("hi # hidden\n-> END")));
    assert!(!story_has_hidden_tag(&import_story("hi\n# hidden\n-> END")));
}

#[test]
fn game_refuses_broken_stories() {
    assert!(Game::try_new("-> nowhere", None).is_none());
    assert!(Game::try_new("/* never closed", None).is_none());
    assert!(Game::try_new(BASIC_STORY, Some("missing".to_string())).is_none());
    assert!(Game::try_new(BASIC_STORY, None).is_some());
}

#[test]
fn game_keeps_beat_when_choice_fails() {
    let mut game = Game::new(BASIC_STORY, None);
    assert!(!game.try_choose_option("sideways?"));
    assert_eq!(game.lines_as_text(), "You are in the city.");
    assert_eq!(game.choices_as_strings(), vec!["downtown?", "uptown?"]);
    assert!(game.try_choose_option("uptown?"));
    assert_eq!(game.lines_as_text(), "uptown?");
    assert!(game.is_over());
}
