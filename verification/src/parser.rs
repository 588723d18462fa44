//! `.scene` syntax: an XML-flavored document with exactly one root element.
//! The parser is deliberately dumb: it produces [`RawNode`] trees with spans
//! and leaves all vocabulary decisions to the lowering stage.
//!
//! The grammar stands in the specification functions below, each on the
//! characters of the document and a position among them. Spans count bytes.

use vstd::prelude::*;
use vstd::slice::slice_subrange;

use crate::diagnostic::{Diagnostic, DiagnosticView};
use crate::raw::{RawAttr, RawAttrView, RawChild, RawChildView, RawNode, RawNodeView};
use crate::span::Span;
use crate::text::{
    byte_offsets, cat3, cat5, chars_of, digit, find, find_char, letter, space, string_of, text_eq,
};

verus! {

/// Deepest element nesting accepted. Real scenes nest a handful of levels;
/// the cap exists because every stage below the parser recurses over this
/// depth, so that uncapped input would exhaust the stack.
pub const MAX_DEPTH: usize = 128;

pub open spec fn span_of(src: Seq<char>, a: int, b: int) -> Span {
    Span {
        start: crate::text::offset(src, a) as usize,
        end: crate::text::offset(src, b) as usize,
    }
}

/// An error at one position.
pub open spec fn error_at(src: Seq<char>, i: int, message: Seq<char>) -> DiagnosticView {
    crate::diagnostic::error_view(message, Some(span_of(src, i, i)))
}

pub open spec fn at1(src: Seq<char>, i: int, a: char) -> bool {
    0 <= i < src.len() && src[i] == a
}

pub open spec fn at2(src: Seq<char>, i: int, a: char, b: char) -> bool {
    at1(src, i, a) && at1(src, i + 1, b)
}

/// `<!--` stands at `i`.
pub open spec fn at_comment(src: Seq<char>, i: int) -> bool {
    at2(src, i, '<', '!') && at2(src, i + 2, '-', '-')
}

/// The first position at or after `i` that holds no whitespace.
pub open spec fn skip_space(src: Seq<char>, i: int) -> int
    decreases src.len() - i,
{
    if 0 <= i < src.len() && crate::text::is_space(src[i]) {
        skip_space(src, i + 1)
    } else {
        i
    }
}

pub proof fn lemma_skip_space(src: Seq<char>, i: int)
    requires
        0 <= i <= src.len(),
    ensures
        i <= skip_space(src, i) <= src.len(),
    decreases src.len() - i,
{
    if i < src.len() && crate::text::is_space(src[i]) {
        lemma_skip_space(src, i + 1);
    }
}

pub open spec fn comment_end() -> Seq<char> {
    seq!['-', '-', '>']
}

pub open spec fn instruction_end() -> Seq<char> {
    seq!['?', '>']
}

/// The position after whitespace, `<!-- comments -->` and
/// `<? processing instructions ?>`.
pub open spec fn skip_misc(src: Seq<char>, i: int) -> Result<int, DiagnosticView>
    decreases src.len() - i,
{
    let j = skip_space(src, i);
    if i < 0 || i > src.len() {
        Ok(i)
    } else if at_comment(src, j) {
        match crate::text::find_text(src, comment_end(), j + 4) {
            Some(k) => {
                proof {
                    lemma_skip_space(src, i);
                    crate::text::lemma_find_text(src, comment_end(), j + 4);
                }
                skip_misc(src, k + 3)
            },
            None => Err(error_at(src, j, "unterminated comment"@)),
        }
    } else if at2(src, j, '<', '?') {
        match crate::text::find_text(src, instruction_end(), j + 2) {
            Some(k) => {
                proof {
                    lemma_skip_space(src, i);
                    crate::text::lemma_find_text(src, instruction_end(), j + 2);
                }
                skip_misc(src, k + 2)
            },
            None => Err(error_at(src, j, "unterminated processing instruction"@)),
        }
    } else {
        Ok(j)
    }
}

pub proof fn lemma_skip_misc(src: Seq<char>, i: int)
    requires
        0 <= i <= src.len(),
    ensures
        skip_misc(src, i) matches Ok(j) ==> skip_space(src, i) <= j <= src.len(),
        skip_misc(src, i) matches Ok(j) ==> (at_comment(src, skip_space(src, i)) ==> i < j),
    decreases src.len() - i,
{
    let j = skip_space(src, i);
    lemma_skip_space(src, i);
    if at_comment(src, j) {
        crate::text::lemma_find_text(src, comment_end(), j + 4);
        match crate::text::find_text(src, comment_end(), j + 4) {
            Some(k) => {
                lemma_skip_misc(src, k + 3);
                lemma_skip_space(src, k + 3);
            },
            None => {},
        }
    } else if at2(src, j, '<', '?') {
        crate::text::lemma_find_text(src, instruction_end(), j + 2);
        match crate::text::find_text(src, instruction_end(), j + 2) {
            Some(k) => {
                lemma_skip_misc(src, k + 2);
                lemma_skip_space(src, k + 2);
            },
            None => {},
        }
    }
}

pub open spec fn name_char(c: char) -> bool {
    crate::text::is_letter(c) || crate::text::is_digit(c) || c == '_' || c == '-'
}

/// The end of the name that is under way at `i`.
pub open spec fn name_end(src: Seq<char>, i: int) -> int
    decreases src.len() - i,
{
    if 0 <= i < src.len() && name_char(src[i]) {
        name_end(src, i + 1)
    } else {
        i
    }
}

pub proof fn lemma_name_end(src: Seq<char>, i: int)
    requires
        0 <= i <= src.len(),
    ensures
        i <= name_end(src, i) <= src.len(),
    decreases src.len() - i,
{
    if i < src.len() && name_char(src[i]) {
        lemma_name_end(src, i + 1);
    }
}

pub struct Name {
    pub text: Seq<char>,
    pub span: Span,
    pub end: int,
}

/// A nonempty run of name characters.
pub open spec fn name(src: Seq<char>, i: int) -> Result<Name, DiagnosticView> {
    let e = name_end(src, i);
    if e == i {
        Err(error_at(src, i, "expected a name"@))
    } else {
        Ok(Name { text: src.subrange(i, e), span: span_of(src, i, e), end: e })
    }
}

/// The character that an entity at `i` stands for, and the entity's length.
pub open spec fn entity(src: Seq<char>, i: int, end: int) -> Option<(char, int)> {
    if at2(src, i, '&', 'a') && at2(src, i + 2, 'm', 'p') && at1(src, i + 4, ';') && i + 5 <= end {
        Some(('&', 5))
    } else if at2(src, i, '&', 'l') && at2(src, i + 2, 't', ';') && i + 4 <= end {
        Some(('<', 4))
    } else if at2(src, i, '&', 'g') && at2(src, i + 2, 't', ';') && i + 4 <= end {
        Some(('>', 4))
    } else if at2(src, i, '&', 'q') && at2(src, i + 2, 'u', 'o') && at2(src, i + 4, 't', ';') && i
        + 6 <= end {
        Some(('"', 6))
    } else if at2(src, i, '&', 'a') && at2(src, i + 2, 'p', 'o') && at2(src, i + 4, 's', ';') && i
        + 6 <= end {
        Some(('\'', 6))
    } else {
        None
    }
}

/// `acc`, then the text from `i` to `end` with its entities replaced. An
/// ampersand that starts none of the five entities is an error.
pub open spec fn decoded_after(src: Seq<char>, i: int, end: int, acc: Seq<char>) -> Result<
    Seq<char>,
    DiagnosticView,
>
    decreases end - i,
{
    if i >= end {
        Ok(acc)
    } else if src[i] != '&' {
        decoded_after(src, i + 1, end, acc.push(src[i]))
    } else {
        match entity(src, i, end) {
            Some((c, n)) => decoded_after(src, i + n, end, acc.push(c)),
            None => Err(
                error_at(src, i, "unknown entity (supported: &amp; &lt; &gt; &quot; &apos;)"@),
            ),
        }
    }
}

/// The text from `i` to `end` with its entities replaced.
pub open spec fn decoded(src: Seq<char>, i: int, end: int) -> Result<Seq<char>, DiagnosticView> {
    decoded_after(src, i, end, Seq::empty())
}

pub struct Quoted {
    pub text: Seq<char>,
    pub span: Span,
    pub end: int,
}

/// A value between two quotes of one kind.
pub open spec fn quoted(src: Seq<char>, i: int) -> Result<Quoted, DiagnosticView> {
    if !at1(src, i, '"') && !at1(src, i, '\'') {
        Err(error_at(src, i, "expected a quoted value"@))
    } else {
        let k = crate::text::find_from(src, src[i], i + 1);
        if k >= src.len() {
            Err(error_at(src, i, "unterminated quoted value"@))
        } else {
            match decoded(src, i + 1, k) {
                Err(e) => Err(e),
                Ok(text) => Ok(Quoted { text, span: span_of(src, i + 1, k), end: k + 1 }),
            }
        }
    }
}

pub struct Attr {
    pub attr: RawAttrView,
    pub end: int,
}

/// `name = "value"`, with a name that is not among `attrs`.
pub open spec fn attribute(src: Seq<char>, i: int, attrs: Seq<RawAttrView>) -> Result<
    Attr,
    DiagnosticView,
> {
    match name(src, i) {
        Err(e) => Err(e),
        Ok(n) => {
            let eq = skip_space(src, n.end);
            if crate::raw::find_attr(attrs, n.text) is Some {
                Err(
                    crate::diagnostic::error_view(
                        "duplicate attribute `"@ + n.text + "`"@,
                        Some(n.span),
                    ),
                )
            } else if !at1(src, eq, '=') {
                Err(error_at(src, eq, "expected `=` after `"@ + n.text + "`"@))
            } else {
                match quoted(src, skip_space(src, eq + 1)) {
                    Err(e) => Err(e),
                    Ok(v) => Ok(
                        Attr {
                            attr: RawAttrView {
                                name: n.text,
                                name_span: n.span,
                                value: v.text,
                                value_span: v.span,
                            },
                            end: v.end,
                        },
                    ),
                }
            }
        },
    }
}

pub proof fn lemma_attribute(src: Seq<char>, i: int, attrs: Seq<RawAttrView>)
    requires
        0 <= i <= src.len(),
    ensures
        attribute(src, i, attrs) matches Ok(a) ==> i < a.end <= src.len(),
{
    lemma_name_end(src, i);
    let e = name_end(src, i);
    lemma_skip_space(src, e);
    let eq = skip_space(src, e);
    if at1(src, eq, '=') {
        lemma_skip_space(src, eq + 1);
        let q = skip_space(src, eq + 1);
        if q < src.len() {
            crate::text::lemma_find_from(src, src[q], q + 1);
        }
    }
}

pub struct Attrs {
    pub attrs: Seq<RawAttrView>,
    pub self_closing: bool,
    pub end: int,
}

pub open spec fn unterminated(src: Seq<char>, start: int, name: Seq<char>) -> DiagnosticView {
    error_at(src, start, "unterminated `<"@ + name + ">`"@)
}

/// The attributes of the tag that opened at `start`, from `i` on, up to `>`
/// or `/>`.
pub open spec fn attributes(
    src: Seq<char>,
    i: int,
    start: int,
    tag: Seq<char>,
    attrs: Seq<RawAttrView>,
) -> Result<Attrs, DiagnosticView>
    decreases src.len() - i,
{
    let j = skip_space(src, i);
    if i < 0 || i > src.len() {
        Err(unterminated(src, start, tag))
    } else if at2(src, j, '/', '>') {
        Ok(Attrs { attrs, self_closing: true, end: j + 2 })
    } else if at1(src, j, '>') {
        Ok(Attrs { attrs, self_closing: false, end: j + 1 })
    } else if j >= src.len() {
        Err(unterminated(src, start, tag))
    } else {
        match attribute(src, j, attrs) {
            Err(e) => Err(e),
            Ok(a) => {
                proof {
                    lemma_skip_space(src, i);
                    lemma_attribute(src, j, attrs);
                }
                attributes(src, a.end, start, tag, attrs.push(a.attr))
            },
        }
    }
}

pub proof fn lemma_attributes(
    src: Seq<char>,
    i: int,
    start: int,
    tag: Seq<char>,
    attrs: Seq<RawAttrView>,
)
    requires
        0 <= i <= src.len(),
    ensures
        attributes(src, i, start, tag, attrs) matches Ok(a) ==> i < a.end <= src.len(),
    decreases src.len() - i,
{
    lemma_skip_space(src, i);
    let j = skip_space(src, i);
    lemma_attribute(src, j, attrs);
    match attribute(src, j, attrs) {
        Ok(a) => {
            lemma_attributes(src, a.end, start, tag, attrs.push(a.attr));
        },
        Err(_) => {},
    }
}

/// An element whose start tag is read.
pub struct Open {
    pub start: int,
    pub name: Seq<char>,
    pub name_span: Span,
    pub attrs: Seq<RawAttrView>,
}

pub open spec fn closed_node(
    src: Seq<char>,
    open: Open,
    children: Seq<RawChildView>,
    end: int,
) -> RawNodeView {
    RawNodeView {
        name: open.name,
        name_span: open.name_span,
        attrs: open.attrs,
        children,
        span: span_of(src, open.start, end),
    }
}

pub struct Node {
    pub node: RawNodeView,
    pub end: int,
}

/// The closing tag `</name>` at `i`, for the element `open`.
pub open spec fn closing(
    src: Seq<char>,
    i: int,
    open: Open,
    children: Seq<RawChildView>,
) -> Result<Node, DiagnosticView> {
    match name(src, i + 2) {
        Err(e) => Err(e),
        Ok(n) => {
            let g = skip_space(src, n.end);
            if !at1(src, g, '>') {
                Err(error_at(src, g, "expected `>`"@))
            } else if n.text != open.name {
                Err(
                    crate::diagnostic::error_view(
                        "expected `</"@ + open.name + ">`, found `</"@ + n.text + ">`"@,
                        Some(span_of(src, i, n.end)),
                    ),
                )
            } else {
                Ok(Node { node: closed_node(src, open, children, g + 1), end: g + 1 })
            }
        },
    }
}

/// A start tag at `start`: its name and attributes.
pub struct Tag {
    pub open: Open,
    pub self_closing: bool,
    pub end: int,
}

pub open spec fn start_tag(src: Seq<char>, start: int) -> Result<Tag, DiagnosticView> {
    if !at1(src, start, '<') {
        Err(error_at(src, start, "expected `<`"@))
    } else if at2(src, start, '<', '/') {
        Err(error_at(src, start, "unexpected closing tag"@))
    } else {
        match name(src, start + 1) {
            Err(e) => Err(e),
            Ok(n) => if !crate::text::is_letter(n.text[0]) {
                Err(
                    crate::diagnostic::error_view(
                        "invalid element name `"@ + n.text + "`"@,
                        Some(n.span),
                    ),
                )
            } else {
                match attributes(src, n.end, start, n.text, Seq::empty()) {
                    Err(e) => Err(e),
                    Ok(a) => Ok(
                        Tag {
                            open: Open { start, name: n.text, name_span: n.span, attrs: a.attrs },
                            self_closing: a.self_closing,
                            end: a.end,
                        },
                    ),
                }
            },
        }
    }
}

pub proof fn lemma_start_tag(src: Seq<char>, start: int)
    requires
        0 <= start <= src.len(),
    ensures
        start_tag(src, start) matches Ok(t) ==> start + 1 < t.end <= src.len(),
{
    if at1(src, start, '<') {
        lemma_name_end(src, start + 1);
        let e = name_end(src, start + 1);
        lemma_attributes(src, e, start, src.subrange(start + 1, e), Seq::empty());
    }
}

/// The element at `start`, with at most `levels` levels of elements.
pub open spec fn node(src: Seq<char>, start: int, levels: nat) -> Result<Node, DiagnosticView>
    decreases levels, 0int, 0int,
{
    if levels == 0 {
        Err(error_at(src, start, "document nested too deeply (max 128 levels)"@))
    } else {
        match start_tag(src, start) {
            Err(e) => Err(e),
            Ok(t) => if t.self_closing {
                Ok(Node { node: closed_node(src, t.open, Seq::empty(), t.end), end: t.end })
            } else {
                content(src, t.end, (levels - 1) as nat, t.open, Seq::empty())
            },
        }
    }
}

/// The rest of the element `open` from `i` on, after `children`; elements
/// below it take at most `levels` levels.
pub open spec fn content(
    src: Seq<char>,
    i: int,
    levels: nat,
    open: Open,
    children: Seq<RawChildView>,
) -> Result<Node, DiagnosticView>
    decreases levels, 1int, src.len() - i,
{
    if i < 0 || i >= src.len() {
        Err(unterminated(src, open.start, open.name))
    } else if at_comment(src, i) {
        match skip_misc(src, i) {
            Err(e) => Err(e),
            Ok(j) => {
                proof {
                    lemma_skip_misc(src, i);
                }
                content(src, j, levels, open, children)
            },
        }
    } else if at2(src, i, '<', '/') {
        closing(src, i, open, children)
    } else if at1(src, i, '<') {
        match node(src, i, levels) {
            Err(e) => Err(e),
            // An element takes up room, so the position always advances.
            Ok(n) => if !(i < n.end <= src.len()) {
                Err(unterminated(src, open.start, open.name))
            } else {
                content(src, n.end, levels, open, children.push(RawChildView::Node(n.node)))
            },
        }
    } else {
        let k = crate::text::find_from(src, '<', i);
        match decoded(src, i, k) {
            Err(e) => Err(e),
            Ok(text) => {
                proof {
                    crate::text::lemma_find_from(src, '<', i);
                }
                content(
                    src,
                    k,
                    levels,
                    open,
                    children.push(RawChildView::Text { text, span: span_of(src, i, k) }),
                )
            },
        }
    }
}

/// A whole document: one root element, with nothing but whitespace, comments
/// and processing instructions around it.
pub open spec fn document(src: Seq<char>) -> Result<RawNodeView, DiagnosticView> {
    match skip_misc(src, 0) {
        Err(e) => Err(e),
        Ok(i) => match node(src, i, MAX_DEPTH as nat) {
            Err(e) => Err(e),
            Ok(n) => match skip_misc(src, n.end) {
                Err(e) => Err(e),
                Ok(j) => if j < src.len() {
                    Err(error_at(src, j, "unexpected content after the root element"@))
                } else {
                    Ok(n.node)
                },
            },
        },
    }
}

/// An element ends after it starts, inside the document.
pub proof fn lemma_node_end(src: Seq<char>, start: int, levels: nat)
    requires
        0 <= start <= src.len(),
    ensures
        node(src, start, levels) matches Ok(n) ==> start < n.end <= src.len(),
    decreases levels, 0int, 0int,
{
    if levels > 0 {
        lemma_start_tag(src, start);
        match start_tag(src, start) {
            Ok(t) => {
                if !t.self_closing {
                    lemma_content_end(src, t.end, (levels - 1) as nat, t.open, Seq::empty());
                }
            },
            Err(_) => {},
        }
    }
}

pub proof fn lemma_content_end(
    src: Seq<char>,
    i: int,
    levels: nat,
    open: Open,
    children: Seq<RawChildView>,
)
    requires
        0 <= i <= src.len(),
    ensures
        content(src, i, levels, open, children) matches Ok(n) ==> i < n.end <= src.len(),
    decreases levels, 1int, src.len() - i,
{
    if i >= src.len() {
    } else if at_comment(src, i) {
        lemma_skip_misc(src, i);
        match skip_misc(src, i) {
            Ok(j) => lemma_content_end(src, j, levels, open, children),
            Err(_) => {},
        }
    } else if at2(src, i, '<', '/') {
        lemma_name_end(src, i + 2);
        lemma_skip_space(src, name_end(src, i + 2));
    } else if at1(src, i, '<') {
        lemma_node_end(src, i, levels);
        match node(src, i, levels) {
            Ok(n) => lemma_content_end(
                src,
                n.end,
                levels,
                open,
                children.push(RawChildView::Node(n.node)),
            ),
            Err(_) => {},
        }
    } else {
        crate::text::lemma_find_from(src, '<', i);
        let k = crate::text::find_from(src, '<', i);
        match decoded(src, i, k) {
            Ok(text) => lemma_content_end(
                src,
                k,
                levels,
                open,
                children.push(RawChildView::Text { text, span: span_of(src, i, k) }),
            ),
            Err(_) => {},
        }
    }
}

/// The characters of a document, with the byte offset of each.
struct Source {
    cs: Vec<char>,
    offs: Vec<usize>,
}

impl Source {
    spec fn wf(&self) -> bool {
        &&& self.offs@.len() == self.cs@.len() + 1
        &&& self.cs@.len() < usize::MAX
        &&& forall|i: int|
            0 <= i <= self.cs@.len() ==> #[trigger] self.offs@[i] == crate::text::offset(
                self.cs@,
                i,
            )
    }

    fn new(src: &str) -> (r: Source)
        ensures
            r.wf(),
            r.cs@ == src@,
    {
        let cs = chars_of(src);
        let offs = byte_offsets(src);
        let count: usize = offs.len();
        Source { cs, offs }
    }

    fn span(&self, a: usize, b: usize) -> (r: Span)
        requires
            self.wf(),
            a <= self.cs@.len(),
            b <= self.cs@.len(),
        ensures
            r == span_of(self.cs@, a as int, b as int),
    {
        Span::new(self.offs[a], self.offs[b])
    }

    fn err_at(&self, i: usize, message: String) -> (r: Diagnostic)
        requires
            self.wf(),
            i <= self.cs@.len(),
        ensures
            r@ == error_at(self.cs@, i as int, message@),
    {
        Diagnostic::error(message, Some(self.span(i, i)))
    }

    fn at(&self, i: usize, a: char) -> (r: bool)
        requires
            self.wf(),
        ensures
            r == at1(self.cs@, i as int, a),
    {
        i < self.cs.len() && self.cs[i] == a
    }

    fn at_pair(&self, i: usize, a: char, b: char) -> (r: bool)
        requires
            self.wf(),
        ensures
            r == at2(self.cs@, i as int, a, b),
    {
        i < self.cs.len() && self.cs.len() - i > 1 && self.cs[i] == a && self.cs[i + 1] == b
    }

    fn at_comment(&self, i: usize) -> (r: bool)
        requires
            self.wf(),
        ensures
            r == at_comment(self.cs@, i as int),
    {
        self.at_pair(i, '<', '!') && self.at_pair(i + 2, '-', '-')
    }

    fn skip_ws(&self, i: usize) -> (r: usize)
        requires
            i <= self.cs@.len(),
        ensures
            r == skip_space(self.cs@, i as int),
            i <= r <= self.cs@.len(),
    {
        let mut j: usize = i;
        while j < self.cs.len() && space(self.cs[j])
            invariant
                i <= j <= self.cs@.len(),
                skip_space(self.cs@, i as int) == skip_space(self.cs@, j as int),
            decreases self.cs@.len() - j,
        {
            j = j + 1;
        }
        j
    }

    fn skip_misc(&self, i: usize) -> (r: Result<usize, Diagnostic>)
        requires
            self.wf(),
            i <= self.cs@.len(),
        ensures
            match r {
                Ok(j) => skip_misc(self.cs@, i as int) == Ok::<int, DiagnosticView>(j as int) && j
                    <= self.cs@.len(),
                Err(e) => skip_misc(self.cs@, i as int) == Err::<int, DiagnosticView>(e@),
            },
    {
        let comment = vec!['-', '-', '>'];
        let instruction = vec!['?', '>'];
        assert(comment@ =~= comment_end());
        assert(instruction@ =~= instruction_end());
        let mut pos: usize = i;
        loop
            invariant
                self.wf(),
                pos <= self.cs@.len(),
                comment@ == comment_end(),
                instruction@ == instruction_end(),
                skip_misc(self.cs@, i as int) == skip_misc(self.cs@, pos as int),
            decreases self.cs@.len() - pos,
        {
            let j = self.skip_ws(pos);
            if self.at_comment(j) {
                match find(self.cs.as_slice(), comment.as_slice(), j + 4) {
                    Some(k) => {
                        pos = k + 3;
                    },
                    None => {
                        return Err(self.err_at(j, "unterminated comment".to_owned()));
                    },
                }
            } else if self.at_pair(j, '<', '?') {
                match find(self.cs.as_slice(), instruction.as_slice(), j + 2) {
                    Some(k) => {
                        pos = k + 2;
                    },
                    None => {
                        return Err(
                            self.err_at(j, "unterminated processing instruction".to_owned()),
                        );
                    },
                }
            } else {
                return Ok(j);
            }
        }
    }

    fn text(&self, a: usize, b: usize) -> (r: String)
        requires
            a <= b <= self.cs@.len(),
        ensures
            r@ == self.cs@.subrange(a as int, b as int),
    {
        string_of(slice_subrange(self.cs.as_slice(), a, b))
    }

    /// A name, its span and the position after it.
    fn parse_name(&self, i: usize) -> (r: Result<(String, Span, usize), Diagnostic>)
        requires
            self.wf(),
            i <= self.cs@.len(),
        ensures
            match r {
                Ok(n) => name(self.cs@, i as int) == Ok::<Name, DiagnosticView>(
                    Name { text: n.0@, span: n.1, end: n.2 as int },
                ) && i < n.2 <= self.cs@.len(),
                Err(e) => name(self.cs@, i as int) == Err::<Name, DiagnosticView>(e@),
            },
    {
        let mut e: usize = i;
        while e < self.cs.len() && (letter(self.cs[e]) || digit(self.cs[e]) || self.cs[e] == '_'
            || self.cs[e] == '-')
            invariant
                i <= e <= self.cs@.len(),
                name_end(self.cs@, i as int) == name_end(self.cs@, e as int),
            decreases self.cs@.len() - e,
        {
            e = e + 1;
        }
        if e == i {
            return Err(self.err_at(i, "expected a name".to_owned()));
        }
        Ok((self.text(i, e), self.span(i, e), e))
    }

    fn entity(&self, i: usize, end: usize) -> (r: Option<(char, usize)>)
        requires
            self.wf(),
            i < end <= self.cs@.len(),
        ensures
            match r {
                Some(x) => entity(self.cs@, i as int, end as int) == Some((x.0, x.1 as int)) && 0
                    < x.1 <= end - i,
                None => entity(self.cs@, i as int, end as int) is None,
            },
    {
        let room: usize = end - i;
        if room >= 5 && self.at_pair(i, '&', 'a') && self.at_pair(i + 2, 'm', 'p') && self.at(
            i + 4,
            ';',
        ) {
            Some(('&', 5))
        } else if room >= 4 && self.at_pair(i, '&', 'l') && self.at_pair(i + 2, 't', ';') {
            Some(('<', 4))
        } else if room >= 4 && self.at_pair(i, '&', 'g') && self.at_pair(i + 2, 't', ';') {
            Some(('>', 4))
        } else if room >= 6 && self.at_pair(i, '&', 'q') && self.at_pair(i + 2, 'u', 'o')
            && self.at_pair(i + 4, 't', ';') {
            Some(('"', 6))
        } else if room >= 6 && self.at_pair(i, '&', 'a') && self.at_pair(i + 2, 'p', 'o')
            && self.at_pair(i + 4, 's', ';') {
            Some(('\'', 6))
        } else {
            None
        }
    }

    /// Decode the five XML entities. An unknown or bare `&` is an error that
    /// points at the ampersand.
    fn decode_entities(&self, start: usize, end: usize) -> (r: Result<String, Diagnostic>)
        requires
            self.wf(),
            start <= end <= self.cs@.len(),
        ensures
            match r {
                Ok(t) => decoded(self.cs@, start as int, end as int) == Ok::<
                    Seq<char>,
                    DiagnosticView,
                >(t@),
                Err(e) => decoded(self.cs@, start as int, end as int) == Err::<
                    Seq<char>,
                    DiagnosticView,
                >(e@),
            },
    {
        let mut out = String::new();
        let mut i: usize = start;
        assert(out@ =~= Seq::<char>::empty());
        while i < end
            invariant
                self.wf(),
                start <= i <= end <= self.cs@.len(),
                decoded(self.cs@, start as int, end as int) == decoded_after(
                    self.cs@,
                    i as int,
                    end as int,
                    out@,
                ),
            decreases end - i,
        {
            if self.cs[i] != '&' {
                out.push(self.cs[i]);
                i = i + 1;
            } else {
                match self.entity(i, end) {
                    Some(x) => {
                        out.push(x.0);
                        i = i + x.1;
                    },
                    None => {
                        return Err(
                            self.err_at(
                                i,
                                "unknown entity (supported: &amp; &lt; &gt; &quot; &apos;)".to_owned(),
                            ),
                        );
                    },
                }
            }
        }
        Ok(out)
    }

    fn parse_quoted(&self, i: usize) -> (r: Result<(String, Span, usize), Diagnostic>)
        requires
            self.wf(),
            i <= self.cs@.len(),
        ensures
            match r {
                Ok(q) => quoted(self.cs@, i as int) == Ok::<Quoted, DiagnosticView>(
                    Quoted { text: q.0@, span: q.1, end: q.2 as int },
                ) && i < q.2 <= self.cs@.len(),
                Err(e) => quoted(self.cs@, i as int) == Err::<Quoted, DiagnosticView>(e@),
            },
    {
        if !self.at(i, '"') && !self.at(i, '\'') {
            return Err(self.err_at(i, "expected a quoted value".to_owned()));
        }
        let k = find_char(self.cs.as_slice(), self.cs[i], i + 1);
        if k >= self.cs.len() {
            return Err(self.err_at(i, "unterminated quoted value".to_owned()));
        }
        match self.decode_entities(i + 1, k) {
            Ok(text) => Ok((text, self.span(i + 1, k), k + 1)),
            Err(e) => Err(e),
        }
    }

    fn parse_attribute(&self, i: usize, attrs: &Vec<RawAttr>) -> (r: Result<
        (RawAttr, usize),
        Diagnostic,
    >)
        requires
            self.wf(),
            i <= self.cs@.len(),
        ensures
            match r {
                Ok(a) => attribute(self.cs@, i as int, crate::raw::attr_views(attrs@)) == Ok::<
                    Attr,
                    DiagnosticView,
                >(Attr { attr: a.0@, end: a.1 as int }) && i < a.1 <= self.cs@.len(),
                Err(e) => attribute(self.cs@, i as int, crate::raw::attr_views(attrs@)) == Err::<
                    Attr,
                    DiagnosticView,
                >(e@),
            },
    {
        let (attr_name, name_span, name_stop) = match self.parse_name(i) {
            Ok(n) => n,
            Err(e) => {
                return Err(e);
            },
        };
        let ghost views = crate::raw::attr_views(attrs@);
        let mut k: usize = 0;
        while k < attrs.len()
            invariant
                k <= attrs@.len(),
                views == crate::raw::attr_views(attrs@),
                name(self.cs@, i as int) == Ok::<Name, DiagnosticView>(
                    Name { text: attr_name@, span: name_span, end: name_stop as int },
                ),
                crate::raw::find_attr(views, attr_name@) == crate::raw::find_attr_from(
                    views,
                    attr_name@,
                    k as int,
                ),
            decreases attrs@.len() - k,
        {
            assert(views[k as int] == attrs@[k as int]@);
            if text_eq(attrs[k].name.as_str(), attr_name.as_str()) {
                return Err(
                    Diagnostic::error(
                        cat3("duplicate attribute `", attr_name.as_str(), "`"),
                        Some(name_span),
                    ),
                );
            }
            k = k + 1;
        }
        let eq = self.skip_ws(name_stop);
        if !self.at(eq, '=') {
            return Err(
                self.err_at(eq, cat3("expected `=` after `", attr_name.as_str(), "`")),
            );
        }
        let q = self.skip_ws(eq + 1);
        match self.parse_quoted(q) {
            Ok(v) => Ok(
                (RawAttr { name: attr_name, name_span, value: v.0, value_span: v.1 }, v.2),
            ),
            Err(e) => Err(e),
        }
    }

    fn unterminated(&self, start: usize, tag: &str) -> (r: Diagnostic)
        requires
            self.wf(),
            start <= self.cs@.len(),
        ensures
            r@ == unterminated(self.cs@, start as int, tag@),
    {
        self.err_at(start, cat3("unterminated `<", tag, ">`"))
    }

    /// The attributes, whether the tag closes itself, and the position after
    /// it.
    fn parse_attributes(&self, i: usize, start: usize, tag: &str) -> (r: Result<
        (Vec<RawAttr>, bool, usize),
        Diagnostic,
    >)
        requires
            self.wf(),
            i <= self.cs@.len(),
            start <= self.cs@.len(),
        ensures
            match r {
                Ok(a) => attributes(self.cs@, i as int, start as int, tag@, Seq::empty()) == Ok::<
                    Attrs,
                    DiagnosticView,
                >(
                    Attrs {
                        attrs: crate::raw::attr_views(a.0@),
                        self_closing: a.1,
                        end: a.2 as int,
                    },
                ) && i < a.2 <= self.cs@.len(),
                Err(e) => attributes(self.cs@, i as int, start as int, tag@, Seq::empty()) == Err::<
                    Attrs,
                    DiagnosticView,
                >(e@),
            },
    {
        let mut attrs: Vec<RawAttr> = Vec::new();
        let mut pos: usize = i;
        assert(crate::raw::attr_views(attrs@) =~= Seq::<RawAttrView>::empty());
        loop
            invariant
                self.wf(),
                i <= pos <= self.cs@.len(),
                start <= self.cs@.len(),
                attributes(self.cs@, i as int, start as int, tag@, Seq::empty()) == attributes(
                    self.cs@,
                    pos as int,
                    start as int,
                    tag@,
                    crate::raw::attr_views(attrs@),
                ),
            decreases self.cs@.len() - pos,
        {
            let j = self.skip_ws(pos);
            if self.at_pair(j, '/', '>') {
                return Ok((attrs, true, j + 2));
            }
            if self.at(j, '>') {
                return Ok((attrs, false, j + 1));
            }
            if j >= self.cs.len() {
                return Err(self.unterminated(start, tag));
            }
            match self.parse_attribute(j, &attrs) {
                Ok(a) => {
                    let ghost before = crate::raw::attr_views(attrs@);
                    attrs.push(a.0);
                    pos = a.1;
                    assert(crate::raw::attr_views(attrs@) =~= before.push(a.0@));
                },
                Err(e) => {
                    return Err(e);
                },
            }
        }
    }

    /// A start tag: an element without children, whether it is complete, and
    /// the position after the tag.
    fn parse_start_tag(&self, start: usize) -> (r: Result<(RawNode, bool, usize), Diagnostic>)
        requires
            self.wf(),
            start <= self.cs@.len(),
        ensures
            match r {
                Ok(t) => {
                    &&& t.0.children@.len() == 0
                    &&& start_tag(self.cs@, start as int) == Ok::<Tag, DiagnosticView>(
                        Tag {
                            open: open_of(t.0, start as int),
                            self_closing: t.1,
                            end: t.2 as int,
                        },
                    )
                    &&& t.0.span == span_of(self.cs@, start as int, t.2 as int)
                    &&& start < t.2 <= self.cs@.len()
                },
                Err(e) => start_tag(self.cs@, start as int) == Err::<Tag, DiagnosticView>(e@),
            },
    {
        if !self.at(start, '<') {
            return Err(self.err_at(start, "expected `<`".to_owned()));
        }
        if self.at_pair(start, '<', '/') {
            return Err(self.err_at(start, "unexpected closing tag".to_owned()));
        }
        let (tag, name_span, name_stop) = match self.parse_name(start + 1) {
            Ok(n) => n,
            Err(e) => {
                return Err(e);
            },
        };
        assert(tag@[0] == self.cs@[start + 1]);
        if !letter(self.cs[start + 1]) {
            return Err(
                Diagnostic::error(
                    cat3("invalid element name `", tag.as_str(), "`"),
                    Some(name_span),
                ),
            );
        }
        match self.parse_attributes(name_stop, start, tag.as_str()) {
            Ok(a) => {
                let span = self.span(start, a.2);
                Ok(
                    (
                        RawNode { name: tag, name_span, attrs: a.0, children: Vec::new(), span },
                        a.1,
                        a.2,
                    ),
                )
            },
            Err(e) => Err(e),
        }
    }

    /// The closing tag at `i`: the position after it.
    fn parse_closing(&self, i: usize, open_name: &str) -> (r: Result<usize, Diagnostic>)
        requires
            self.wf(),
            at2(self.cs@, i as int, '<', '/'),
        ensures
            forall|open: Open, children: Seq<RawChildView>|
                open.name == open_name@ ==> (#[trigger] closing(
                    self.cs@,
                    i as int,
                    open,
                    children,
                )) == (match r {
                    Ok(end) => Ok::<Node, DiagnosticView>(
                        Node {
                            node: closed_node(self.cs@, open, children, end as int),
                            end: end as int,
                        },
                    ),
                    Err(e) => Err::<Node, DiagnosticView>(e@),
                }),
            r matches Ok(end) ==> i < end <= self.cs@.len(),
    {
        let (close_name, close_span, name_stop) = match self.parse_name(i + 2) {
            Ok(n) => n,
            Err(e) => {
                return Err(e);
            },
        };
        let g = self.skip_ws(name_stop);
        if !self.at(g, '>') {
            return Err(self.err_at(g, "expected `>`".to_owned()));
        }
        if !text_eq(close_name.as_str(), open_name) {
            return Err(
                Diagnostic::error(
                    cat5("expected `</", open_name, ">`, found `</", close_name.as_str(), ">`"),
                    Some(self.span(i, name_stop)),
                ),
            );
        }
        Ok(g + 1)
    }

    /// The element at `start` and the position after it.
    #[verifier::rlimit(60)]
    fn parse_node(&self, start: usize, levels: usize) -> (r: Result<(RawNode, usize), Diagnostic>)
        requires
            self.wf(),
            start <= self.cs@.len(),
        ensures
            match r {
                Ok(n) => node(self.cs@, start as int, levels as nat) == Ok::<Node, DiagnosticView>(
                    Node { node: n.0@, end: n.1 as int },
                ) && start < n.1 <= self.cs@.len(),
                Err(e) => node(self.cs@, start as int, levels as nat) == Err::<
                    Node,
                    DiagnosticView,
                >(e@),
            },
        decreases levels,
    {
        if levels == 0 {
            return Err(
                self.err_at(start, "document nested too deeply (max 128 levels)".to_owned()),
            );
        }
        let (mut element, complete, tag_end) = match self.parse_start_tag(start) {
            Ok(t) => t,
            Err(e) => {
                return Err(e);
            },
        };
        let ghost open = open_of(element, start as int);
        if complete {
            assert(element@ == closed_node(self.cs@, open, Seq::empty(), tag_end as int)) by {
                crate::raw::lemma_node_view(element);
                assert(element@.children =~= Seq::<RawChildView>::empty());
            }
            return Ok((element, tag_end));
        }
        let mut children: Vec<RawChild> = Vec::new();
        let mut pos: usize = tag_end;
        assert(crate::raw::child_views(children@) =~= Seq::<RawChildView>::empty());
        loop
            invariant
                self.wf(),
                start < pos <= self.cs@.len(),
                levels > 0,
                open == open_of(element, start as int),
                node(self.cs@, start as int, levels as nat) == content(
                    self.cs@,
                    pos as int,
                    (levels - 1) as nat,
                    open,
                    crate::raw::child_views(children@),
                ),
            decreases self.cs@.len() - pos,
        {
            let ghost before = crate::raw::child_views(children@);
            if pos >= self.cs.len() {
                return Err(self.unterminated(start, element.name.as_str()));
            }
            if self.at_comment(pos) {
                proof {
                    lemma_skip_misc(self.cs@, pos as int);
                }
                match self.skip_misc(pos) {
                    Ok(j) => {
                        pos = j;
                    },
                    Err(e) => {
                        return Err(e);
                    },
                }
            } else if self.at_pair(pos, '<', '/') {
                match self.parse_closing(pos, element.name.as_str()) {
                    Ok(end) => {
                        let span = self.span(start, end);
                        let done = RawNode {
                            name: element.name,
                            name_span: element.name_span,
                            attrs: element.attrs,
                            children,
                            span,
                        };
                        proof {
                            crate::raw::lemma_node_view(done);
                            assert(done@ == closed_node(self.cs@, open, before, end as int));
                        }
                        return Ok((done, end));
                    },
                    Err(e) => {
                        return Err(e);
                    },
                }
            } else if self.at(pos, '<') {
                match self.parse_node(pos, levels - 1) {
                    Ok(n) => {
                        children.push(RawChild::Node(n.0));
                        pos = n.1;
                        assert(crate::raw::child_views(children@) =~= before.push(
                            RawChildView::Node(n.0@),
                        ));
                    },
                    Err(e) => {
                        return Err(e);
                    },
                }
            } else {
                let k = find_char(self.cs.as_slice(), '<', pos);
                proof {
                    crate::text::lemma_find_from(self.cs@, '<', pos as int);
                }
                match self.decode_entities(pos, k) {
                    Ok(text) => {
                        let span = self.span(pos, k);
                        children.push(RawChild::Text { text, span });
                        assert(crate::raw::child_views(children@) =~= before.push(
                            RawChildView::Text { text: text@, span },
                        ));
                        pos = k;
                    },
                    Err(e) => {
                        return Err(e);
                    },
                }
            }
        }
    }
}

spec fn open_of(n: RawNode, start: int) -> Open {
    Open {
        start,
        name: n.name@,
        name_span: n.name_span,
        attrs: crate::raw::attr_views(n.attrs@),
    }
}

/// Parse a whole document; on syntax failure returns one fatal diagnostic.
/// The first malformed position is reported precisely rather than guessing at
/// structure.
pub fn parse_document(src: &str) -> (r: Result<RawNode, Diagnostic>)
    ensures
        match r {
            Ok(n) => document(src@) == Ok::<RawNodeView, DiagnosticView>(n@),
            Err(e) => document(src@) == Err::<RawNodeView, DiagnosticView>(e@),
        },
{
    let source = Source::new(src);
    let start = match source.skip_misc(0) {
        Ok(i) => i,
        Err(e) => {
            return Err(e);
        },
    };
    let (root, end) = match source.parse_node(start, MAX_DEPTH) {
        Ok(n) => n,
        Err(e) => {
            return Err(e);
        },
    };
    let rest = match source.skip_misc(end) {
        Ok(j) => j,
        Err(e) => {
            return Err(e);
        },
    };
    if rest < source.cs.len() {
        return Err(
            source.err_at(rest, "unexpected content after the root element".to_owned()),
        );
    }
    Ok(root)
}

} // verus!
