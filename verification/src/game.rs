//! A game: a story being played, with the lines and choices of its latest beat.

use vstd::prelude::*;
use crate::ink_parser::{
    first_tag_value, intro_string, intro_title, opt_text, strs_view, DialogLine, InkStory, SpecDialogLine,
};
use crate::text::str_equal;
use crate::ink_runner::{
    choice_result, choice_runs, dialog_view, knot_result, knot_runs, spec_import, spec_options,
    texts_view, try_import_story, SpecState, StoryRunner, StoryState,
};
use crate::text::{push_char, push_str, starts_with, string_of_str, chars_of, range_starts_with, trim, trim_at};

verus! {

/// A line of text with its tags.
pub open spec fn line_and_tags_view(p: (String, Vec<String>)) -> (Seq<char>, Seq<Seq<char>>) {
    (p.0@, texts_view(p.1@))
}

pub open spec fn lines_and_tags_view(s: Seq<(String, Vec<String>)>) -> Seq<(Seq<char>, Seq<Seq<char>>)> {
    s.map_values(|p: (String, Vec<String>)| line_and_tags_view(p))
}

/// Dialog lines as texts with their tags.
pub open spec fn as_lines_and_tags(ds: Seq<SpecDialogLine>) -> Seq<(Seq<char>, Seq<Seq<char>>)> {
    ds.map_values(|d: SpecDialogLine| (d.text, d.tags))
}

/// The texts joined with line breaks between them.
pub open spec fn join_lines(ts: Seq<Seq<char>>) -> Seq<char>
    decreases ts.len(),
{
    if ts.len() == 0 {
        Seq::empty()
    } else if ts.len() == 1 {
        ts[0]
    } else {
        join_lines(ts.drop_last()) + seq!['\n'] + ts.last()
    }
}

/// The image that a tag `img: file` names: `img/file`.
pub open spec fn img_path(tag: Seq<char>) -> Option<Seq<char>> {
    if starts_with(tag, seq!['i', 'm', 'g', ':']) {
        Some(seq!['i', 'm', 'g', '/'] + trim(tag.skip(4)))
    } else {
        None
    }
}

/// The images that a list of tags names, in order.
pub open spec fn images_of_tags(tags: Seq<Seq<char>>) -> Seq<Seq<char>>
    decreases tags.len(),
{
    if tags.len() == 0 {
        Seq::empty()
    } else {
        let rest = images_of_tags(tags.drop_last());
        match img_path(tags.last()) {
            Some(p) => rest.push(p),
            None => rest,
        }
    }
}

/// The images that the tags of the lines name, line by line.
pub open spec fn images_of_lines(ls: Seq<(Seq<char>, Seq<Seq<char>>)>) -> Seq<Seq<char>>
    decreases ls.len(),
{
    if ls.len() == 0 {
        Seq::empty()
    } else {
        images_of_lines(ls.drop_last()) + images_of_tags(ls.last().1)
    }
}

/// The image that a tag `img: file` names.
pub fn get_img_tag_image(tag: &str) -> (r: Option<String>)
    ensures
        opt_text(r) == img_path(tag@),
{
    let v = chars_of(tag);
    let key = vec!['i', 'm', 'g', ':'];
    assert(key@ == seq!['i', 'm', 'g', ':']);
    assert(v@.subrange(0, v.len() as int) == v@);
    if range_starts_with(&v, 0, v.len(), &key) {
        let (a, b) = trim_at(&v, 4, v.len());
        assert(v@.skip(4) == v@.subrange(4, v.len() as int));
        let mut p = String::new();
        push_char(&mut p, 'i');
        push_char(&mut p, 'm');
        push_char(&mut p, 'g');
        push_char(&mut p, '/');
        let mut i = a;
        while i < b
            invariant
                a <= i <= b <= v.len(),
                p@ == seq!['i', 'm', 'g', '/'] + v@.subrange(a as int, i as int),
            decreases b - i,
        {
            push_char(&mut p, v[i]);
            assert(v@.subrange(a as int, i + 1) == v@.subrange(a as int, i as int).push(v@[i as int]));
            i = i + 1;
        }
        Some(p)
    } else {
        None
    }
}

/// A game: a story being played, the lines of its latest beat (with their
/// tags) and the options offered now.
pub struct Game<'a> {
    runner: StoryRunner<'a>,
    lines_with_tags: Vec<(String, Vec<String>)>,
    choices: Vec<String>,
}

/// Strings for string slices.
fn owned_strs(v: &Vec<&str>) -> (r: Vec<String>)
    ensures
        texts_view(r@) == strs_view(v@),
{
    let mut r: Vec<String> = Vec::new();
    let mut i: usize = 0;
    while i < v.len()
        invariant
            0 <= i <= v.len(),
            texts_view(r@) == strs_view(v@.take(i as int)),
        decreases v.len() - i,
    {
        let ghost r0 = r@;
        let s = string_of_str(v[i]);
        r.push(s);
        assert(texts_view(r@) =~= texts_view(r0).push(v@[i as int]@));
        assert(strs_view(v@.take(i + 1)) =~= strs_view(v@.take(i as int)).push(v@[i as int]@));
        i = i + 1;
    }
    assert(v@.take(v.len() as int) == v@);
    r
}

/// Copies of strings.
fn copy_texts(v: &Vec<String>) -> (r: Vec<String>)
    ensures
        texts_view(r@) == texts_view(v@),
{
    let mut r: Vec<String> = Vec::new();
    let mut i: usize = 0;
    while i < v.len()
        invariant
            0 <= i <= v.len(),
            texts_view(r@) == texts_view(v@.take(i as int)),
        decreases v.len() - i,
    {
        let ghost r0 = r@;
        let s = v[i].clone();
        r.push(s);
        assert(texts_view(r@) =~= texts_view(r0).push(v@[i as int]@));
        assert(texts_view(v@.take(i + 1)) =~= texts_view(v@.take(i as int)).push(v@[i as int]@));
        i = i + 1;
    }
    assert(v@.take(v.len() as int) == v@);
    r
}

/// The lines as texts with their tags.
fn owned_lines(ds: Vec<DialogLine<'_>>) -> (r: Vec<(String, Vec<String>)>)
    ensures
        lines_and_tags_view(r@) == as_lines_and_tags(dialog_view(ds@)),
{
    let mut r: Vec<(String, Vec<String>)> = Vec::new();
    let mut i: usize = 0;
    while i < ds.len()
        invariant
            0 <= i <= ds.len(),
            lines_and_tags_view(r@) == as_lines_and_tags(dialog_view(ds@.take(i as int))),
        decreases ds.len() - i,
    {
        let ghost r0 = r@;
        let p = (string_of_str(ds[i].text), owned_strs(&ds[i].tags));
        let ghost pv = line_and_tags_view(p);
        r.push(p);
        assert(lines_and_tags_view(r@) =~= lines_and_tags_view(r0).push(pv));
        assert(as_lines_and_tags(dialog_view(ds@.take(i + 1))) =~= as_lines_and_tags(dialog_view(ds@.take(i as int))).push(pv));
        i = i + 1;
    }
    assert(ds@.take(ds.len() as int) == ds@);
    r
}

impl<'a> Game<'a> {
    pub closed spec fn story_value(&self) -> crate::ink_parser::SpecStory {
        self.runner.story@
    }

    pub closed spec fn state_value(&self) -> SpecState {
        self.runner.state@
    }

    /// The lines of the latest beat, with their tags.
    pub closed spec fn beat(&self) -> Seq<(Seq<char>, Seq<Seq<char>>)> {
        lines_and_tags_view(self.lines_with_tags@)
    }

    /// The options offered now.
    pub closed spec fn options(&self) -> Seq<Seq<char>> {
        texts_view(self.choices@)
    }

    /// A game of the story that `content` holds, started at knot `knot`
    /// (the beginning if none is given).
    pub fn new(content: &str, knot: Option<String>) -> (r: Self)
        requires
            spec_import(content@) is Some,
            knot_runs(
                spec_import(content@).unwrap(),
                SpecState { current: start_title(knot), ..crate::ink_runner::initial_state() },
                start_title(knot),
            ),
        ensures
            r.story_value() == spec_import(content@).unwrap(),
            r.state_value() == knot_result(
                spec_import(content@).unwrap(),
                SpecState { current: start_title(knot), ..crate::ink_runner::initial_state() },
                start_title(knot),
            ).1,
            r.beat() == as_lines_and_tags(knot_result(
                spec_import(content@).unwrap(),
                SpecState { current: start_title(knot), ..crate::ink_runner::initial_state() },
                start_title(knot),
            ).0),
            r.options() == spec_options(r.story_value(), r.state_value()).unwrap(),
    {
        Self::try_new(content, knot).unwrap()
    }

    /// A game as `new` makes it; `None` where `content` holds no story, or
    /// where starting it at `knot` does not end without error.
    pub fn try_new(content: &str, knot: Option<String>) -> (r: Option<Self>)
        ensures
            match r {
                Some(g) => {
                    &&& spec_import(content@) is Some
                    &&& knot_runs(
                        spec_import(content@).unwrap(),
                        SpecState { current: start_title(knot), ..crate::ink_runner::initial_state() },
                        start_title(knot),
                    )
                    &&& g.story_value() == spec_import(content@).unwrap()
                    &&& g.state_value() == knot_result(
                        spec_import(content@).unwrap(),
                        SpecState { current: start_title(knot), ..crate::ink_runner::initial_state() },
                        start_title(knot),
                    ).1
                    &&& g.beat() == as_lines_and_tags(knot_result(
                        spec_import(content@).unwrap(),
                        SpecState { current: start_title(knot), ..crate::ink_runner::initial_state() },
                        start_title(knot),
                    ).0)
                    &&& g.options() == spec_options(g.story_value(), g.state_value()).unwrap()
                },
                None => spec_import(content@) is None || !knot_runs(
                    spec_import(content@).unwrap(),
                    SpecState { current: start_title(knot), ..crate::ink_runner::initial_state() },
                    start_title(knot),
                ),
            },
    {
        let story = match try_import_story(content) {
            Some(story) => story,
            None => {
                return None;
            },
        };
        let mut runner = StoryRunner { state: StoryState::default(), story };
        let title = match knot {
            Some(title) => title,
            None => intro_string(),
        };
        runner.set_knot(title.as_str());
        let lines = match runner.try_start() {
            Some(lines) => lines,
            None => {
                return None;
            },
        };
        let lines_with_tags = owned_lines(lines);
        let choices = runner.get_options();
        Some(Game { runner, lines_with_tags, choices })
    }

    /// Takes the choice `emoji`; the game then holds the lines of the new beat
    /// and the options offered after it.
    pub fn choose_option(&mut self, emoji: &str)
        requires
            choice_runs(old(self).story_value(), old(self).state_value(), emoji@),
        ensures
            final(self).story_value() == old(self).story_value(),
            final(self).state_value() == choice_result(old(self).story_value(), old(self).state_value(), emoji@).1,
            final(self).beat() == as_lines_and_tags(choice_result(old(self).story_value(), old(self).state_value(), emoji@).0),
            final(self).options() == spec_options(final(self).story_value(), final(self).state_value()).unwrap(),
    {
        self.try_choose_option(emoji);
    }

    /// Takes the choice `emoji`, as `choose_option` does; `false` where taking
    /// it does not end without error (the lines and options then stay).
    pub fn try_choose_option(&mut self, emoji: &str) -> (ok: bool)
        ensures
            ok == choice_runs(old(self).story_value(), old(self).state_value(), emoji@),
            final(self).story_value() == old(self).story_value(),
            ok ==> final(self).state_value() == choice_result(old(self).story_value(), old(self).state_value(), emoji@).1,
            ok ==> final(self).beat() == as_lines_and_tags(choice_result(old(self).story_value(), old(self).state_value(), emoji@).0),
            ok ==> final(self).options() == spec_options(final(self).story_value(), final(self).state_value()).unwrap(),
            !ok ==> final(self).beat() == old(self).beat() && final(self).options() == old(self).options(),
    {
        match self.runner.try_step(emoji) {
            Some(lines) => {
                self.lines_with_tags = owned_lines(lines);
                self.choices = self.runner.get_options();
                true
            },
            None => false,
        }
    }

    /// The texts of the lines of the latest beat, one per line.
    pub fn lines_as_text(&self) -> (r: String)
        ensures
            r@ == join_lines(self.beat().map_values(|p: (Seq<char>, Seq<Seq<char>>)| p.0)),
    {
        let ghost ts = self.beat().map_values(|p: (Seq<char>, Seq<Seq<char>>)| p.0);
        let mut r = String::new();
        let mut i: usize = 0;
        while i < self.lines_with_tags.len()
            invariant
                0 <= i <= self.lines_with_tags.len(),
                ts == self.beat().map_values(|p: (Seq<char>, Seq<Seq<char>>)| p.0),
                ts.len() == self.lines_with_tags.len(),
                r@ == join_lines(ts.take(i as int)),
            decreases self.lines_with_tags.len() - i,
        {
            assert(ts[i as int] == self.lines_with_tags@[i as int].0@);
            assert(ts.take(i + 1).drop_last() == ts.take(i as int));
            if i > 0 {
                push_char(&mut r, '\n');
            }
            push_str(&mut r, self.lines_with_tags[i].0.as_str());
            proof {
                if i == 0 {
                    assert(ts.take(1) == seq![ts[0]]);
                }
            }
            i = i + 1;
        }
        assert(ts.take(ts.len() as int) == ts);
        r
    }

    /// The options offered now.
    pub fn choices_as_strings(&self) -> (r: Vec<String>)
        ensures
            texts_view(r@) == self.options(),
    {
        copy_texts(&self.choices)
    }

    /// The story is over when no option is offered.
    pub fn is_over(&self) -> (r: bool)
        ensures
            r == (self.options().len() == 0),
    {
        self.choices.len() == 0
    }

    /// The lines of the latest beat, with their tags.
    pub fn lines_and_tags(&self) -> (r: Vec<(String, Vec<String>)>)
        ensures
            lines_and_tags_view(r@) == self.beat(),
    {
        let mut r: Vec<(String, Vec<String>)> = Vec::new();
        let mut i: usize = 0;
        while i < self.lines_with_tags.len()
            invariant
                0 <= i <= self.lines_with_tags.len(),
                lines_and_tags_view(r@) == lines_and_tags_view(self.lines_with_tags@.take(i as int)),
            decreases self.lines_with_tags.len() - i,
        {
            let ghost r0 = r@;
            let p = (self.lines_with_tags[i].0.clone(), copy_texts(&self.lines_with_tags[i].1));
            let ghost pv = line_and_tags_view(p);
            r.push(p);
            assert(lines_and_tags_view(r@) =~= lines_and_tags_view(r0).push(pv));
            assert(lines_and_tags_view(self.lines_with_tags@.take(i + 1)) =~= lines_and_tags_view(self.lines_with_tags@.take(i as int)).push(pv));
            i = i + 1;
        }
        assert(self.lines_with_tags@.take(self.lines_with_tags.len() as int) == self.lines_with_tags@);
        r
    }

    /// The images that the tags of the latest beat name (`img: file` gives
    /// `img/file`), in order.
    pub fn images(&self) -> (r: Vec<String>)
        ensures
            texts_view(r@) == images_of_lines(self.beat()),
    {
        let ghost b = self.beat();
        let mut r: Vec<String> = Vec::new();
        let mut i: usize = 0;
        while i < self.lines_with_tags.len()
            invariant
                0 <= i <= self.lines_with_tags.len(),
                b == self.beat(),
                b.len() == self.lines_with_tags.len(),
                texts_view(r@) == images_of_lines(b.take(i as int)),
            decreases self.lines_with_tags.len() - i,
        {
            assert(b.take(i + 1).drop_last() == b.take(i as int));
            assert(b.take(i + 1).last() == line_and_tags_view(self.lines_with_tags@[i as int]));
            let tags = &self.lines_with_tags[i].1;
            let ghost r1 = texts_view(r@);
            let mut j: usize = 0;
            while j < tags.len()
                invariant
                    0 <= j <= tags.len(),
                    texts_view(r@) == r1 + images_of_tags(texts_view(tags@).take(j as int)),
                decreases tags.len() - j,
            {
                assert(texts_view(tags@).take(j + 1).drop_last() == texts_view(tags@).take(j as int));
                assert(texts_view(tags@).take(j + 1).last() == tags@[j as int]@);
                match get_img_tag_image(tags[j].as_str()) {
                    Some(p) => {
                        let ghost r0 = r@;
                        let ghost pv = p@;
                        r.push(p);
                        assert(texts_view(r@) =~= texts_view(r0).push(pv));
                    },
                    None => {},
                }
                j = j + 1;
            }
            assert(texts_view(tags@).take(tags.len() as int) == texts_view(tags@));
            i = i + 1;
        }
        assert(b.take(b.len() as int) == b);
        r
    }

    /// The title named by the story's first global tag `title: name`.
    pub fn get_title(&self) -> (r: Option<String>)
        ensures
            opt_text(r) == first_tag_value(self.story_value().global_tags, seq!['t', 'i', 't', 'l', 'e', ':']),
    {
        self.runner.story.get_title()
    }

    /// The author named by the story's first global tag `author: name`.
    pub fn get_author(&self) -> (r: Option<String>)
        ensures
            opt_text(r) == first_tag_value(self.story_value().global_tags, seq!['a', 'u', 't', 'h', 'o', 'r', ':']),
    {
        self.runner.story.get_author()
    }

    /// The story asks (with the global tag `hide_choices`) that its options
    /// are not listed.
    pub fn should_hide_choices(&self) -> (r: bool)
        ensures
            r == self.story_value().global_tags.contains("hide_choices"@),
    {
        has_global_tag(&self.runner.story, "hide_choices")
    }

    /// Makes `knot` the current knot of the story.
    pub fn set_knot(&mut self, knot: &str)
        ensures
            final(self).story_value() == old(self).story_value(),
            final(self).state_value() == (SpecState { current: knot@, ..old(self).state_value() }),
            final(self).beat() == old(self).beat(),
            final(self).options() == old(self).options(),
    {
        self.runner.set_knot(knot);
    }
}

/// The story has the global tag `tag`.
fn has_global_tag(story: &InkStory<'_>, tag: &str) -> (r: bool)
    ensures
        r == story@.global_tags.contains(tag@),
{
    let mut i: usize = 0;
    while i < story.global_tags.len()
        invariant
            0 <= i <= story.global_tags.len(),
            forall|j: int| 0 <= j < i ==> (#[trigger] story.global_tags@[j])@ != tag@,
        decreases story.global_tags.len() - i,
    {
        if str_equal(story.global_tags[i], tag) {
            assert(story@.global_tags[i as int] == tag@);
            return true;
        }
        i = i + 1;
    }
    assert forall|j: int| 0 <= j < story@.global_tags.len() implies story@.global_tags[j] != tag@ by {
        assert(story.global_tags@[j]@ != tag@);
    }
    false
}

/// The story asks (with the global tag `hidden`) not to be listed.
pub fn story_has_hidden_tag(story: &InkStory<'_>) -> (r: bool)
    ensures
        r == story@.global_tags.contains("hidden"@),
{
    has_global_tag(story, "hidden")
}

/// The knot a game starts at: the one given, or `__INTRO__`.
pub open spec fn start_title(knot: Option<String>) -> Seq<char> {
    match knot {
        Some(t) => t@,
        None => intro_title(),
    }
}

} // verus!
