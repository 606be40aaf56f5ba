use ink_runner::bot::{session_step, Session, SessionAction, SessionEvent};
use ink_runner::bot::{
    approved_emoji, beat_message, beat_text, choice_for_emoji, countdown_step, final_text,
    format_remaining_time, formatted_title_and_author, help_text, join_strings, parse_command,
    play_help_text, prefix_help_text, prefix_set_text, story_entry, winning_emoji, Command,
};

#[test]
fn format_remaining_time_tests() {
    let minute = 60;
    let hour = minute * 60;
    let day = hour * 24;
    assert_eq!(format_remaining_time(0), "0 seconds remaining".to_string());
    assert_eq!(format_remaining_time(1), "1 second remaining".to_string());
    assert_eq!(format_remaining_time(2), "2 seconds remaining".to_string());
    assert_eq!(
        format_remaining_time(59),
        "59 seconds remaining".to_string()
    );
    assert_eq!(
        format_remaining_time(minute),
        "1 minute remaining".to_string()
    );
    assert_eq!(
        format_remaining_time(minute + 5),
        "1 minute remaining".to_string()
    );
    assert_eq!(
        format_remaining_time(minute + 59),
        "1 minute remaining".to_string()
    );
    assert_eq!(
        format_remaining_time(2 * minute),
        "2 minutes remaining".to_string()
    );
    assert_eq!(
        format_remaining_time(2 * minute + 59),
        "2 minutes remaining".to_string()
    );
    assert_eq!(format_remaining_time(hour), "1 hour remaining".to_string());
    assert_eq!(
        format_remaining_time(hour + 1),
        "1 hour remaining".to_string()
    );
    assert_eq!(
        format_remaining_time(2 * hour + 1),
        "2 hours remaining".to_string()
    );
    assert_eq!(
        format_remaining_time(23 * hour + 59),
        "23 hours remaining".to_string()
    );
    assert_eq!(format_remaining_time(day), "1 day remaining".to_string());
    assert_eq!(
        format_remaining_time(day + hour),
        "1 day remaining".to_string()
    );
    assert_eq!(
        format_remaining_time(2 * day + hour),
        "2 days remaining".to_string()
    );
}

#[test]
fn remaining_time_large_values() {
    assert_eq!(format_remaining_time(4294967295), "49710 days remaining");
    assert_eq!(format_remaining_time(3599), "59 minutes remaining");
    assert_eq!(format_remaining_time(86399), "23 hours remaining");
}

#[test]
fn beat_messages() {
    assert_eq!(beat_message("Hi", 65), "Hi\n\n(1 minute remaining)");
    assert_eq!(final_text("bye"), "bye\nEND.");
    assert_eq!(
        beat_text("", "a\nb", &vec!["x".to_string(), "y".to_string()], false),
        "a\nb\n\nx\ny"
    );
    assert_eq!(beat_text("H", "a", &vec!["x".to_string()], true), "Ha");
}

#[test]
fn countdown_steps() {
    assert_eq!(countdown_step(60), (5, 55));
    assert_eq!(countdown_step(3), (3, 0));
    assert_eq!(countdown_step(0), (0, 0));
}

#[test]
fn headings() {
    assert_eq!(
        formatted_title_and_author(Some("T".to_string()), Some("A".to_string())),
        "__**T**__ by _A_\n\n"
    );
    assert_eq!(formatted_title_and_author(Some("T".to_string()), None), "__**T**__\n\n");
    assert_eq!(formatted_title_and_author(None, Some("A".to_string())), "");
}

#[test]
fn winning_reactions() {
    let approved = vec!["\u{1f642}".to_string(), "\u{2764}".to_string()];
    let reactions = vec![
        ("\u{1f642}".to_string(), 3),
        ("\u{2764}".to_string(), 2),
        ("\u{1f44d}".to_string(), 9),
    ];
    assert_eq!(winning_emoji(&reactions, &approved), Some("\u{1f642}".to_string()));
    // a tie goes to the emoji that is last in string order
    let tie = vec![("\u{1f642}".to_string(), 2), ("\u{2764}".to_string(), 2)];
    assert_eq!(winning_emoji(&tie, &approved), Some("\u{1f642}".to_string()));
    let tie = vec![("b".to_string(), 2), ("a".to_string(), 2)];
    assert_eq!(
        winning_emoji(&tie, &vec!["a".to_string(), "b".to_string()]),
        Some("b".to_string())
    );
    // a later reaction with the same emoji replaces the count
    let again = vec![("a".to_string(), 5), ("b".to_string(), 3), ("a".to_string(), 1)];
    assert_eq!(
        winning_emoji(&again, &vec!["a".to_string(), "b".to_string()]),
        Some("b".to_string())
    );
    assert_eq!(winning_emoji(&vec![("x".to_string(), 1)], &approved), None);
}

#[test]
fn choices_for_emoji() {
    let choices = vec!["\u{1f642} smile".to_string(), "\u{2764} love".to_string()];
    assert_eq!(
        choice_for_emoji(&choices, "\u{2764}"),
        Some("\u{2764} love".to_string())
    );
    assert_eq!(choice_for_emoji(&choices, "x"), None);
    assert_eq!(
        approved_emoji(&choices),
        vec!["\u{1f642}".to_string(), "\u{2764}".to_string()]
    );
    // a flag is one grapheme made of two characters
    assert_eq!(
        approved_emoji(&vec!["\u{1f1f7}\u{1f1fa}ab".to_string()]),
        vec!["\u{1f1f7}\u{1f1fa}".to_string()]
    );
}

#[test]
fn commands() {
    assert_eq!(parse_command("!help", "!"), Command::Help);
    assert_eq!(parse_command("!helpme", "!"), Command::Help);
    assert_eq!(parse_command("!prefix", "!"), Command::PrefixHelp);
    assert_eq!(parse_command("!prefix +", "!"), Command::SetPrefix("+".to_string()));
    assert_eq!(parse_command("!prefix a b", "!"), Command::SetPrefix("a b".to_string()));
    assert_eq!(parse_command("!play", "!"), Command::ListStories);
    assert_eq!(parse_command("!play story1", "!"), Command::Play("story1".to_string(), 60));
    assert_eq!(parse_command("!play story1 30", "!"), Command::Play("story1".to_string(), 30));
    assert_eq!(parse_command("!play story1 abc", "!"), Command::Play("story1".to_string(), 60));
    assert_eq!(parse_command("!play story1 +7 x", "!"), Command::Play("story1".to_string(), 7));
    assert_eq!(parse_command("!play story1 -7", "!"), Command::Play("story1".to_string(), 60));
    assert_eq!(parse_command("!play story1 99999999999", "!"), Command::Play("story1".to_string(), 60));
    assert_eq!(parse_command("!stop", "!"), Command::Stop);
    assert_eq!(parse_command("!stop now", "!"), Command::Ignore);
    assert_eq!(parse_command("!pause", "!"), Command::Pause);
    assert_eq!(parse_command("!continue", "!"), Command::Continue);
    assert_eq!(parse_command("hello", "!"), Command::Ignore);
    assert_eq!(parse_command("??help", "??"), Command::Help);
}

#[test]
fn help_texts() {
    assert!(help_text("!").starts_with("To start a story type something like `!play story1"));
    assert_eq!(prefix_set_text("+"), "prefix has been set to: +");
    assert_eq!(
        prefix_help_text("!"),
        "To set a different prefix, type something like `!prefix +`, where `+` is the new prefix to use, instead of `!`."
    );
    assert_eq!(story_entry("s", Some("me".to_string())), "`s` by me");
    assert_eq!(story_entry("s", None), "`s`");
    assert!(play_help_text("!", &vec!["`a`".to_string(), "`b`".to_string()]).ends_with(":\n\n- `a`\n- `b`"));
    assert_eq!(join_strings(&vec![], ", "), "");
}

#[test]
fn one_game_at_a_time_and_stop() {
    let idle = Session { active: false, stopped: false };
    let (playing, a) = session_step(idle, SessionEvent::Play);
    assert_eq!(a, SessionAction::Start);
    assert_eq!(playing, Session { active: true, stopped: false });
    assert_eq!(session_step(playing, SessionEvent::Play), (playing, SessionAction::AlreadyInProgress));
    assert_eq!(session_step(playing, SessionEvent::Tick), (playing, SessionAction::Continue));
    assert_eq!(session_step(playing, SessionEvent::Vote), (playing, SessionAction::Continue));
    assert_eq!(session_step(playing, SessionEvent::BeatEnd), (playing, SessionAction::Continue));
    let (stopped, a) = session_step(playing, SessionEvent::Stop);
    assert_eq!((stopped, a), (Session { active: false, stopped: true }, SessionAction::Continue));
    assert_eq!(session_step(stopped, SessionEvent::Tick), (stopped, SessionAction::EndCountdown));
    assert_eq!(session_step(stopped, SessionEvent::Vote), (stopped, SessionAction::TakeFirstEmoji));
    assert_eq!(session_step(stopped, SessionEvent::BeatEnd), (idle, SessionAction::AnnounceStopped));
    assert_eq!(session_step(playing, SessionEvent::Finish), (idle, SessionAction::Continue));
}
