# ink_runner

A verified player for stories written in a subset of the ink narrative
language, and a Discord bot that plays them: readers vote on each choice with
emoji reactions.

- `src/` is the library, verified with Verus:
  - `text.rs`: character-level helpers (trimming, searching, copying) with
    their specifications;
  - `ink_lexer.rs`: comment removal and line-by-line tokenizing;
  - `ink_parser.rs`: turning tokens into a story of knots, stitches, choices
    and global variables;
  - `ink_runner.rs`: playing a story (following diverts, offering and taking
    choices), with the laws that playing obeys;
  - `game.rs`: a game as the bot plays it (the latest beat, its images and
    options);
  - `bot.rs`: the bot's decisions: commands, message texts, countdowns and
    the vote on reactions.
- `tests/` runs the library on concrete stories.
- `app/` is the bot program: files, command-line options, saved states in
  RON, and the Discord connection.
