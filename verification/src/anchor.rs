//! Symbolic time anchors.
//!
//! Elements never store seconds. They store references into the script
//! (`during="hook..payoff"`, `during="beat+2w"`), which become frame
//! positions once aligned audio exists. Literal anchors (`during="1.5s..4s"`,
//! `during="0f..90f"`) are the escape hatch.
//!
//! Grammar:
//! ```text
//! range      := anchor (".." anchor)?
//! anchor     := cue | literal
//! cue        := ident ("." edge)? offset?
//! edge       := "start" | "end"
//! offset     := ("+" | "-") number ("s" | "f" | "w")
//! literal    := number ("s" | "f")
//! ident      := [a-zA-Z] [a-zA-Z0-9_]* ("-" [a-zA-Z_] [a-zA-Z0-9_]*)*
//! ```
//! A hyphen inside an identifier must precede a letter or an underscore; that
//! keeps `hook-6f` unambiguous (cue `hook`, offset `-6f`) while `my-cue` is
//! one identifier.

use vstd::prelude::*;
use vstd::slice::slice_subrange;

use crate::number::{Number, NumberView};
use crate::text::{
    at, cat3, cat5, chars_of, digit, ends_with, find, find_char, letter, spells, string_of, trim,
};

verus! {

#[derive(Debug, PartialEq)]
pub struct Offset {
    /// Signed value; the leading sign is folded in.
    pub value: Number,
    pub unit: OffsetUnit,
}

#[derive(Debug, Clone, Copy, PartialEq, Eq, Structural)]
pub enum OffsetUnit {
    Seconds,
    Frames,
    /// Words relative to the cue's first word. `hook+2w` is two words in.
    Words,
}

#[derive(Debug, Clone, Copy, PartialEq, Eq, Structural)]
pub enum Edge {
    Start,
    End,
}

/// One edge of a timing expression.
#[derive(Debug, PartialEq)]
pub enum Anchor {
    /// Reference to a `<line id>` in the script.
    Cue { cue: String, edge: Edge, offset: Option<Offset> },
    /// Explicit program position, the authored escape hatch.
    Literal { value: Number, unit: OffsetUnit },
}

/// `during="a..b"`: start edge of `a` through end edge of `b`.
/// `during="a"`: the whole span of `a`.
#[derive(Debug, PartialEq)]
pub struct AnchorRange {
    pub start: Anchor,
    pub end: Anchor,
}

/// What a track or caption source anchors to: a named timing source
/// (`voice`), optionally at word granularity (`voice.words`).
#[derive(Debug, PartialEq)]
pub struct AnchorRef {
    pub source: String,
    pub granularity: Granularity,
}

#[derive(Debug, Clone, Copy, PartialEq, Eq, Structural)]
pub enum Granularity {
    Line,
    Word,
}

/// `bind="payoff.text"`: pull a property off a script line.
#[derive(Debug, PartialEq)]
pub struct BindPath {
    pub line: String,
    pub property: BindProp,
}

#[derive(Debug, Clone, Copy, PartialEq, Eq, Structural)]
pub enum BindProp {
    Text,
}

pub struct OffsetView {
    pub value: NumberView,
    pub unit: OffsetUnit,
}

pub enum AnchorView {
    Cue { cue: Seq<char>, edge: Edge, offset: Option<OffsetView> },
    Literal { value: NumberView, unit: OffsetUnit },
}

pub struct AnchorRangeView {
    pub start: AnchorView,
    pub end: AnchorView,
}

pub struct AnchorRefView {
    pub source: Seq<char>,
    pub granularity: Granularity,
}

pub struct BindPathView {
    pub line: Seq<char>,
    pub property: BindProp,
}

impl View for Offset {
    type V = OffsetView;

    open spec fn view(&self) -> OffsetView {
        OffsetView { value: self.value@, unit: self.unit }
    }
}

pub open spec fn offset_view(o: Option<Offset>) -> Option<OffsetView> {
    match o {
        Some(v) => Some(v@),
        None => None,
    }
}

impl View for Anchor {
    type V = AnchorView;

    open spec fn view(&self) -> AnchorView {
        match self {
            Anchor::Cue { cue, edge, offset } => AnchorView::Cue {
                cue: cue@,
                edge: *edge,
                offset: offset_view(*offset),
            },
            Anchor::Literal { value, unit } => AnchorView::Literal { value: value@, unit: *unit },
        }
    }
}

impl View for AnchorRange {
    type V = AnchorRangeView;

    open spec fn view(&self) -> AnchorRangeView {
        AnchorRangeView { start: self.start@, end: self.end@ }
    }
}

impl View for AnchorRef {
    type V = AnchorRefView;

    open spec fn view(&self) -> AnchorRefView {
        AnchorRefView { source: self.source@, granularity: self.granularity }
    }
}

impl View for BindPath {
    type V = BindPathView;

    open spec fn view(&self) -> BindPathView {
        BindPathView { line: self.line@, property: self.property }
    }
}

impl Clone for Offset {
    fn clone(&self) -> (r: Self)
        ensures
            r@ == self@,
    {
        Offset { value: self.value.clone(), unit: self.unit }
    }
}

fn copy_offset(o: &Option<Offset>) -> (r: Option<Offset>)
    ensures
        offset_view(r) == offset_view(*o),
{
    match o {
        Some(v) => Some(v.clone()),
        None => None,
    }
}

impl Clone for Anchor {
    fn clone(&self) -> (r: Self)
        ensures
            r@ == self@,
    {
        match self {
            Anchor::Cue { cue, edge, offset } => Anchor::Cue {
                cue: cue.clone(),
                edge: *edge,
                offset: copy_offset(offset),
            },
            Anchor::Literal { value, unit } => Anchor::Literal {
                value: value.clone(),
                unit: *unit,
            },
        }
    }
}

impl Clone for AnchorRange {
    fn clone(&self) -> (r: Self)
        ensures
            r@ == self@,
    {
        AnchorRange { start: self.start.clone(), end: self.end.clone() }
    }
}

impl Clone for AnchorRef {
    fn clone(&self) -> (r: Self)
        ensures
            r@ == self@,
    {
        AnchorRef { source: self.source.clone(), granularity: self.granularity }
    }
}

impl Clone for BindPath {
    fn clone(&self) -> (r: Self)
        ensures
            r@ == self@,
    {
        BindPath { line: self.line.clone(), property: self.property }
    }
}

// Identifiers.

pub open spec fn ident_start(c: char) -> bool {
    crate::text::is_letter(c)
}

pub open spec fn ident_char(c: char) -> bool {
    crate::text::is_letter(c) || crate::text::is_digit(c) || c == '_'
}

/// How far an identifier reaches that is under way at `i`.
pub open spec fn ident_tail(s: Seq<char>, i: int) -> int
    decreases s.len() - i,
{
    if i < 0 || i >= s.len() {
        i
    } else if ident_char(s[i]) {
        ident_tail(s, i + 1)
    } else if s[i] == '-' && i + 1 < s.len() && (crate::text::is_letter(s[i + 1]) || s[i + 1]
        == '_') {
        ident_tail(s, i + 1)
    } else {
        i
    }
}

/// The length of the identifier that a text starts with; 0 if there is none.
pub open spec fn ident_prefix(s: Seq<char>) -> int {
    if s.len() > 0 && ident_start(s[0]) {
        ident_tail(s, 1)
    } else {
        0
    }
}

/// Whether a whole text is one identifier.
pub open spec fn is_ident(s: Seq<char>) -> bool {
    s.len() > 0 && ident_prefix(s) == s.len()
}

proof fn lemma_ident_tail(s: Seq<char>, i: int)
    requires
        0 <= i <= s.len(),
    ensures
        i <= ident_tail(s, i) <= s.len(),
        forall|k: int|
            i <= k < ident_tail(s, i) ==> ident_char(#[trigger] s[k]) || (s[k] == '-' && k + 1
                < ident_tail(s, i) && (crate::text::is_letter(s[k + 1]) || s[k + 1] == '_')),
    decreases s.len() - i,
{
    if i < s.len() {
        if ident_char(s[i]) || (s[i] == '-' && i + 1 < s.len() && (crate::text::is_letter(s[i + 1])
            || s[i + 1] == '_')) {
            lemma_ident_tail(s, i + 1);
            if s[i] == '-' {
                assert(ident_char(s[i + 1]));
                assert(ident_tail(s, i + 1) == ident_tail(s, i + 2));
                lemma_ident_tail(s, i + 2);
            }
        }
    }
}

/// An identifier starts with a letter, and each hyphen in it stands before a
/// letter or an underscore of it: an offset such as `-6f` is never swallowed.
pub proof fn ident_shape(s: Seq<char>)
    ensures
        0 <= ident_prefix(s) <= s.len(),
        ident_prefix(s) > 0 ==> crate::text::is_letter(s[0]),
        forall|k: int|
            0 <= k < ident_prefix(s) ==> ident_char(#[trigger] s[k]) || (s[k] == '-' && k + 1
                < ident_prefix(s) && (crate::text::is_letter(s[k + 1]) || s[k + 1] == '_')),
{
    if s.len() > 0 && ident_start(s[0]) {
        lemma_ident_tail(s, 1);
    }
}

pub fn is_ident_start(c: char) -> (r: bool)
    ensures
        r == ident_start(c),
{
    letter(c)
}

pub fn is_ident_char(c: char) -> (r: bool)
    ensures
        r == ident_char(c),
{
    letter(c) || digit(c) || c == '_'
}

/// Length of the identifier at the start of `s`, or 0 if there is none.
pub fn ident_len(s: &[char]) -> (r: usize)
    ensures
        r == ident_prefix(s@),
        r <= s@.len(),
{
    if s.len() == 0 || !is_ident_start(s[0]) {
        return 0;
    }
    let mut i: usize = 1;
    while i < s.len() && (is_ident_char(s[i]) || (s[i] == '-' && i + 1 < s.len() && (letter(
        s[i + 1],
    ) || s[i + 1] == '_')))
        invariant
            1 <= i <= s@.len(),
            ident_tail(s@, 1) == ident_tail(s@, i as int),
        decreases s@.len() - i,
    {
        i = i + 1;
    }
    i
}

// Numbers with a unit.

/// The first position at or after `i` that holds neither a digit nor a point.
pub open spec fn decimal_run(s: Seq<char>, i: int) -> int
    decreases s.len() - i,
{
    if 0 <= i < s.len() && (crate::text::is_digit(s[i]) || s[i] == '.') {
        decimal_run(s, i + 1)
    } else {
        i
    }
}

pub open spec fn unit_of(c: char) -> Option<OffsetUnit> {
    if c == 's' {
        Some(OffsetUnit::Seconds)
    } else if c == 'f' {
        Some(OffsetUnit::Frames)
    } else if c == 'w' {
        Some(OffsetUnit::Words)
    } else {
        None
    }
}

/// A whole text that is a number followed by one unit letter.
pub open spec fn quantity(s: Seq<char>) -> Option<(NumberView, OffsetUnit)> {
    let i = decimal_run(s, 0);
    if i == 0 || i + 1 != s.len() {
        None
    } else {
        match (crate::number::number(s.take(i)), unit_of(s[i])) {
            (Some(v), Some(u)) => Some((v, u)),
            _ => None,
        }
    }
}

/// `number unit`, the whole of `s`.
fn parse_number_unit(s: &[char]) -> (r: Option<(Number, OffsetUnit)>)
    ensures
        match r {
            Some(q) => quantity(s@) == Some((q.0@, q.1)),
            None => quantity(s@) is None,
        },
{
    let mut i: usize = 0;
    while i < s.len() && (digit(s[i]) || s[i] == '.')
        invariant
            i <= s@.len(),
            decimal_run(s@, 0) == decimal_run(s@, i as int),
        decreases s@.len() - i,
    {
        i = i + 1;
    }
    if i == 0 || s.len() - i != 1 {
        return None;
    }
    let head = slice_subrange(s, 0, i);
    assert(head@ =~= s@.take(i as int));
    let unit = if s[i] == 's' {
        OffsetUnit::Seconds
    } else if s[i] == 'f' {
        OffsetUnit::Frames
    } else if s[i] == 'w' {
        OffsetUnit::Words
    } else {
        return None;
    };
    match Number::from_chars(head) {
        Some(v) => Some((v, unit)),
        None => None,
    }
}

// Anchors.

/// The edge named after a cue, and what follows it.
pub open spec fn edge_and_rest(s: Seq<char>) -> (Edge, Seq<char>) {
    if crate::text::stands_at(s, ".start"@, 0) {
        (Edge::Start, s.skip(".start"@.len() as int))
    } else if crate::text::stands_at(s, ".end"@, 0) {
        (Edge::End, s.skip(".end"@.len() as int))
    } else {
        (Edge::Start, s)
    }
}

pub open spec fn literal_anchor(s: Seq<char>) -> Result<AnchorView, Seq<char>> {
    match quantity(s) {
        Some((value, unit)) => if unit == OffsetUnit::Words {
            Err("literal anchors use s or f, not w"@)
        } else {
            Ok(AnchorView::Literal { value, unit })
        },
        None => Err("invalid literal anchor `"@ + s + "` (try `1.5s` or `90f`)"@),
    }
}

/// What follows the cue and its edge: nothing, or a signed quantity.
pub open spec fn anchor_offset(rest: Seq<char>, cue: Seq<char>) -> Result<
    Option<OffsetView>,
    Seq<char>,
> {
    if rest.len() == 0 {
        Ok(None)
    } else if rest[0] != '+' && rest[0] != '-' {
        Err("unexpected `"@ + rest + "` after cue `"@ + cue + "`"@)
    } else {
        match quantity(rest.drop_first()) {
            Some((value, unit)) => Ok(
                Some(OffsetView { value: value.with_sign(rest[0] == '-'), unit }),
            ),
            None => Err("invalid offset `"@ + rest + "` (try `+0.4s`, `-6f`, `+2w`)"@),
        }
    }
}

pub open spec fn cue_anchor(s: Seq<char>) -> Result<AnchorView, Seq<char>> {
    let n = ident_prefix(s);
    if n == 0 {
        Err("expected a cue name, found `"@ + s + "`"@)
    } else {
        let cue = s.take(n);
        let (edge, rest) = edge_and_rest(s.skip(n));
        match anchor_offset(rest, cue) {
            Ok(offset) => Ok(AnchorView::Cue { cue, edge, offset }),
            Err(e) => Err(e),
        }
    }
}

/// The anchor that a text spells, or the message that says why it is none.
pub open spec fn anchor(text: Seq<char>) -> Result<AnchorView, Seq<char>> {
    let s = crate::text::trimmed(text);
    if s.len() == 0 {
        Err("expected an anchor"@)
    } else if crate::text::is_digit(s[0]) {
        literal_anchor(s)
    } else {
        cue_anchor(s)
    }
}

pub open spec fn at_edge(a: AnchorView, e: Edge) -> AnchorView {
    match a {
        AnchorView::Cue { cue, offset, .. } => AnchorView::Cue { cue, edge: e, offset },
        literal => literal,
    }
}

/// `a..b` runs from the start edge of `a` to the end edge of `b`; a lone `a`
/// is the whole span of `a`.
pub open spec fn anchor_range(text: Seq<char>) -> Result<AnchorRangeView, Seq<char>> {
    let s = crate::text::trimmed(text);
    match crate::text::find_text(s, ".."@, 0) {
        Some(i) => match anchor(s.take(i)) {
            Err(e) => Err(e),
            Ok(start) => match anchor(s.skip(i + ".."@.len())) {
                Err(e) => Err(e),
                Ok(end) => Ok(
                    AnchorRangeView {
                        start: at_edge(start, Edge::Start),
                        end: at_edge(end, Edge::End),
                    },
                ),
            },
        },
        None => match anchor(s) {
            Err(e) => Err(e),
            Ok(a) => Ok(AnchorRangeView { start: a, end: at_edge(a, Edge::End) }),
        },
    }
}

pub open spec fn anchor_ref(text: Seq<char>) -> Result<AnchorRefView, Seq<char>> {
    let s = crate::text::trimmed(text);
    let n = ident_prefix(s);
    if crate::text::ends_in(s, ".words"@) {
        let base = s.take(s.len() - ".words"@.len());
        if is_ident(base) {
            Ok(AnchorRefView { source: base, granularity: Granularity::Word })
        } else {
            Err("invalid anchor source `"@ + s + "`"@)
        }
    } else if n == 0 {
        Err("expected a timing source name, found `"@ + s + "`"@)
    } else if n != s.len() {
        Err("unexpected `"@ + s.skip(n) + "` (only `.words` is supported)"@)
    } else {
        Ok(AnchorRefView { source: s, granularity: Granularity::Line })
    }
}

pub open spec fn bind_path(text: Seq<char>) -> Result<BindPathView, Seq<char>> {
    let s = crate::text::trimmed(text);
    let dot = crate::text::find_from(s, '.', 0);
    let line = s.take(dot);
    let prop = s.skip(dot + 1);
    if dot == s.len() {
        Err("expected `line.property`, found `"@ + s + "`"@)
    } else if !is_ident(line) {
        Err("invalid line reference `"@ + line + "`"@)
    } else if prop != "text"@ {
        Err("unsupported property `"@ + prop + "` (supported: text)"@)
    } else {
        Ok(BindPathView { line, property: BindProp::Text })
    }
}

fn whole_ident(s: &[char]) -> (r: bool)
    ensures
        r == is_ident(s@),
{
    s.len() > 0 && ident_len(s) == s.len()
}

fn parse_offset(rest: &[char], cue: &str) -> (r: Result<Option<Offset>, String>)
    ensures
        match r {
            Ok(o) => anchor_offset(rest@, cue@) == Ok::<Option<OffsetView>, Seq<char>>(
                offset_view(o),
            ),
            Err(e) => anchor_offset(rest@, cue@) == Err::<Option<OffsetView>, Seq<char>>(e@),
        },
{
    if rest.len() == 0 {
        return Ok(None);
    }
    let text = string_of(rest);
    if rest[0] != '+' && rest[0] != '-' {
        return Err(cat5("unexpected `", text.as_str(), "` after cue `", cue, "`"));
    }
    let digits = slice_subrange(rest, 1, rest.len());
    assert(digits@ =~= rest@.drop_first());
    match parse_number_unit(digits) {
        Some(q) => Ok(Some(Offset { value: q.0.with_sign(rest[0] == '-'), unit: q.1 })),
        None => Err(
            cat3("invalid offset `", text.as_str(), "` (try `+0.4s`, `-6f`, `+2w`)"),
        ),
    }
}

fn parse_anchor(text: &[char]) -> (r: Result<Anchor, String>)
    ensures
        match r {
            Ok(a) => anchor(text@) == Ok::<AnchorView, Seq<char>>(a@),
            Err(e) => anchor(text@) == Err::<AnchorView, Seq<char>>(e@),
        },
{
    let s = trim(text);
    if s.len() == 0 {
        return Err("expected an anchor".to_owned());
    }
    let whole = string_of(s);
    if digit(s[0]) {
        return match parse_number_unit(s) {
            Some(q) => match q.1 {
                OffsetUnit::Words => Err("literal anchors use s or f, not w".to_owned()),
                _ => Ok(Anchor::Literal { value: q.0, unit: q.1 }),
            },
            None => Err(
                cat3("invalid literal anchor `", whole.as_str(), "` (try `1.5s` or `90f`)"),
            ),
        };
    }
    let n = ident_len(s);
    if n == 0 {
        return Err(cat3("expected a cue name, found `", whole.as_str(), "`"));
    }
    let head = slice_subrange(s, 0, n);
    assert(head@ =~= s@.take(n as int));
    let cue = string_of(head);
    let after = slice_subrange(s, n, s.len());
    assert(after@ =~= s@.skip(n as int));
    let start_word = chars_of(".start");
    let end_word = chars_of(".end");
    let (edge, rest): (Edge, &[char]) = if at(after, start_word.as_slice(), 0) {
        (Edge::Start, slice_subrange(after, start_word.len(), after.len()))
    } else if at(after, end_word.as_slice(), 0) {
        (Edge::End, slice_subrange(after, end_word.len(), after.len()))
    } else {
        (Edge::Start, after)
    };
    assert((edge, rest@) == edge_and_rest(after@)) by {
        if crate::text::stands_at(after@, ".start"@, 0) {
            assert(rest@ =~= after@.skip(".start"@.len() as int));
        } else if crate::text::stands_at(after@, ".end"@, 0) {
            assert(rest@ =~= after@.skip(".end"@.len() as int));
        }
    }
    match parse_offset(rest, cue.as_str()) {
        Ok(offset) => Ok(Anchor::Cue { cue, edge, offset }),
        Err(e) => Err(e),
    }
}

fn with_edge(a: Anchor, e: Edge) -> (r: Anchor)
    ensures
        r@ == at_edge(a@, e),
{
    match a {
        Anchor::Cue { cue, offset, .. } => Anchor::Cue { cue, edge: e, offset },
        Anchor::Literal { value, unit } => Anchor::Literal { value, unit },
    }
}

impl Anchor {
    pub fn parse(s: &str) -> (r: Result<Anchor, String>)
        ensures
            match r {
                Ok(a) => anchor(s@) == Ok::<AnchorView, Seq<char>>(a@),
                Err(e) => anchor(s@) == Err::<AnchorView, Seq<char>>(e@),
            },
    {
        let cs = chars_of(s);
        parse_anchor(cs.as_slice())
    }
}

impl AnchorRange {
    /// `a..b` runs from the start edge of `a` to the end edge of `b`;
    /// a lone `a` is the whole span of `a`.
    pub fn parse(s: &str) -> (r: Result<AnchorRange, String>)
        ensures
            match r {
                Ok(a) => anchor_range(s@) == Ok::<AnchorRangeView, Seq<char>>(a@),
                Err(e) => anchor_range(s@) == Err::<AnchorRangeView, Seq<char>>(e@),
            },
    {
        let cs = chars_of(s);
        let t = trim(cs.as_slice());
        let dots = chars_of("..");
        match find(t, dots.as_slice(), 0) {
            Some(i) => {
                let end: usize = t.len();
                let left = slice_subrange(t, 0, i);
                let right = slice_subrange(t, i + dots.len(), end);
                assert(left@ =~= t@.take(i as int));
                assert(right@ =~= t@.skip(i + ".."@.len()));
                let start = match parse_anchor(left) {
                    Ok(a) => a,
                    Err(e) => {
                        return Err(e);
                    },
                };
                let end = match parse_anchor(right) {
                    Ok(a) => a,
                    Err(e) => {
                        return Err(e);
                    },
                };
                Ok(
                    AnchorRange {
                        start: with_edge(start, Edge::Start),
                        end: with_edge(end, Edge::End),
                    },
                )
            },
            None => match parse_anchor(t) {
                Ok(a) => {
                    let end = with_edge(a.clone(), Edge::End);
                    Ok(AnchorRange { start: a, end })
                },
                Err(e) => Err(e),
            },
        }
    }
}

impl AnchorRef {
    /// `voice` or `voice.words`.
    pub fn parse(s: &str) -> (r: Result<AnchorRef, String>)
        ensures
            match r {
                Ok(a) => anchor_ref(s@) == Ok::<AnchorRefView, Seq<char>>(a@),
                Err(e) => anchor_ref(s@) == Err::<AnchorRefView, Seq<char>>(e@),
            },
    {
        let cs = chars_of(s);
        let t = trim(cs.as_slice());
        let whole = string_of(t);
        let words = chars_of(".words");
        if ends_with(t, words.as_slice()) {
            let base = slice_subrange(t, 0, t.len() - words.len());
            assert(base@ =~= t@.take(t@.len() - ".words"@.len()));
            if !whole_ident(base) {
                return Err(cat3("invalid anchor source `", whole.as_str(), "`"));
            }
            return Ok(AnchorRef { source: string_of(base), granularity: Granularity::Word });
        }
        let n = ident_len(t);
        if n == 0 {
            return Err(cat3("expected a timing source name, found `", whole.as_str(), "`"));
        }
        if n != t.len() {
            let rest = slice_subrange(t, n, t.len());
            assert(rest@ =~= t@.skip(n as int));
            let rest_text = string_of(rest);
            return Err(
                cat3("unexpected `", rest_text.as_str(), "` (only `.words` is supported)"),
            );
        }
        Ok(AnchorRef { source: whole, granularity: Granularity::Line })
    }
}

impl BindPath {
    /// `line.property`; the one property is `text`.
    pub fn parse(s: &str) -> (r: Result<BindPath, String>)
        ensures
            match r {
                Ok(b) => bind_path(s@) == Ok::<BindPathView, Seq<char>>(b@),
                Err(e) => bind_path(s@) == Err::<BindPathView, Seq<char>>(e@),
            },
    {
        let cs = chars_of(s);
        let t = trim(cs.as_slice());
        let whole = string_of(t);
        let dot = find_char(t, '.', 0);
        if dot == t.len() {
            return Err(cat3("expected `line.property`, found `", whole.as_str(), "`"));
        }
        let line = slice_subrange(t, 0, dot);
        let prop = slice_subrange(t, dot + 1, t.len());
        assert(line@ =~= t@.take(dot as int));
        assert(prop@ =~= t@.skip(dot + 1));
        let line_text = string_of(line);
        if !whole_ident(line) {
            return Err(cat3("invalid line reference `", line_text.as_str(), "`"));
        }
        if !spells(prop, "text") {
            let prop_text = string_of(prop);
            return Err(
                cat3("unsupported property `", prop_text.as_str(), "` (supported: text)"),
            );
        }
        Ok(BindPath { line: line_text, property: BindProp::Text })
    }
}

} // verus!
