//! When each word of a script was spoken.

use vstd::prelude::*;

use crate::number::{Number, NumberView};
use crate::text::text_eq;

verus! {

/// The point `step / steps` of the way from one time to another, in seconds.
#[derive(Debug, PartialEq)]
pub struct Moment {
    pub from: Number,
    pub to: Number,
    pub step: usize,
    pub steps: usize,
}

pub struct MomentView {
    pub from: NumberView,
    pub to: NumberView,
    pub step: nat,
    pub steps: nat,
}

impl View for Moment {
    type V = MomentView;

    open spec fn view(&self) -> MomentView {
        MomentView {
            from: self.from@,
            to: self.to@,
            step: self.step as nat,
            steps: self.steps as nat,
        }
    }
}

/// A measured time.
pub open spec fn instant(t: NumberView) -> MomentView {
    MomentView { from: t, to: t, step: 0, steps: 1 }
}

#[derive(Debug, PartialEq)]
pub struct Word {
    pub text: String,
    pub start_s: Moment,
    pub end_s: Moment,
}

pub struct WordView {
    pub text: Seq<char>,
    pub start_s: MomentView,
    pub end_s: MomentView,
}

impl View for Word {
    type V = WordView;

    open spec fn view(&self) -> WordView {
        WordView { text: self.text@, start_s: self.start_s@, end_s: self.end_s@ }
    }
}

pub open spec fn word_views(s: Seq<Word>) -> Seq<WordView> {
    Seq::new(s.len(), |i: int| s[i]@)
}

/// The words of one script line with their times.
#[derive(Debug, PartialEq)]
pub struct AlignedLine {
    pub cue: String,
    pub words: Vec<Word>,
}

pub struct AlignedLineView {
    pub cue: Seq<char>,
    pub words: Seq<WordView>,
}

impl View for AlignedLine {
    type V = AlignedLineView;

    open spec fn view(&self) -> AlignedLineView {
        AlignedLineView { cue: self.cue@, words: word_views(self.words@) }
    }
}

pub open spec fn aligned_views(s: Seq<AlignedLine>) -> Seq<AlignedLineView> {
    Seq::new(s.len(), |i: int| s[i]@)
}

/// The measured lines of one timing source.
#[derive(Debug, PartialEq)]
pub struct TimingSource {
    pub lines: Vec<AlignedLine>,
}

impl View for TimingSource {
    type V = Seq<AlignedLineView>;

    open spec fn view(&self) -> Seq<AlignedLineView> {
        aligned_views(self.lines@)
    }
}

/// The first line of a cue, from `i` on.
pub open spec fn find_line(lines: Seq<AlignedLineView>, cue: Seq<char>, i: int) -> Option<
    AlignedLineView,
>
    decreases lines.len() - i,
{
    if i < 0 || i >= lines.len() {
        None
    } else if lines[i].cue == cue {
        Some(lines[i])
    } else {
        find_line(lines, cue, i + 1)
    }
}

impl TimingSource {
    /// The measured line of a cue.
    pub fn line(&self, cue: &str) -> (r: Option<&AlignedLine>)
        ensures
            match r {
                Some(l) => find_line(self@, cue@, 0) == Some(l@),
                None => find_line(self@, cue@, 0) is None,
            },
    {
        let mut i: usize = 0;
        while i < self.lines.len()
            invariant
                i <= self.lines@.len(),
                find_line(self@, cue@, 0) == find_line(self@, cue@, i as int),
            decreases self.lines@.len() - i,
        {
            assert(self@[i as int] == self.lines@[i as int]@);
            if text_eq(self.lines[i].cue.as_str(), cue) {
                return Some(&self.lines[i]);
            }
            i = i + 1;
        }
        None
    }
}

/// Timing sources by track name, with the fingerprint of the script that they
/// were measured for.
#[derive(Debug, PartialEq)]
pub struct TimingMap {
    pub sources: Vec<(String, TimingSource)>,
    pub script_hash: Option<String>,
}

} // verus!
