//! Paths: confinement of authored paths to the project root, the path of a
//! source as a draft writes it, and names for new files.
//!
//! `src` attributes and `<render target>` are markup, not operator input:
//! they may not reach outside the directory of the scene. Two layers see to
//! it. Collapsing `.` and `..` covers paths that do not exist yet;
//! canonicalizing the deepest ancestor that does exist catches a symlink
//! inside the root that points out.

use vstd::prelude::*;

use crate::text::{cat3, cat4, dec_text, text_eq};

verus! {

/// A component of a path.
#[derive(Debug, PartialEq)]
pub enum Part {
    /// The root directory, or a drive.
    Anchor(String),
    /// `.`
    Here,
    /// `..`
    Up,
    Name(String),
}

pub enum PartView {
    Anchor(Seq<char>),
    Here,
    Up,
    Name(Seq<char>),
}

impl View for Part {
    type V = PartView;

    open spec fn view(&self) -> PartView {
        match self {
            Part::Anchor(s) => PartView::Anchor(s@),
            Part::Here => PartView::Here,
            Part::Up => PartView::Up,
            Part::Name(s) => PartView::Name(s@),
        }
    }
}

impl Clone for Part {
    fn clone(&self) -> (r: Self)
        ensures
            r@ == self@,
    {
        match self {
            Part::Anchor(s) => Part::Anchor(s.clone()),
            Part::Here => Part::Here,
            Part::Up => Part::Up,
            Part::Name(s) => Part::Name(s.clone()),
        }
    }
}

pub open spec fn part_views(s: Seq<Part>) -> Seq<PartView> {
    Seq::new(s.len(), |i: int| s[i]@)
}

fn part_eq(a: &Part, b: &Part) -> (r: bool)
    ensures
        r == (a@ == b@),
{
    match (a, b) {
        (Part::Anchor(x), Part::Anchor(y)) => text_eq(x.as_str(), y.as_str()),
        (Part::Here, Part::Here) => true,
        (Part::Up, Part::Up) => true,
        (Part::Name(x), Part::Name(y)) => text_eq(x.as_str(), y.as_str()),
        _ => false,
    }
}

/// Adds the parts of `s` from `from` on to the end of `out`.
fn push_parts(out: &mut Vec<Part>, s: &Vec<Part>, from: usize)
    requires
        from <= s@.len(),
    ensures
        part_views(final(out)@) == part_views(old(out)@) + part_views(s@).skip(from as int),
{
    let ghost before = part_views(out@);
    let ghost all = part_views(s@);
    let mut i: usize = from;
    assert(before + all.subrange(from as int, from as int) =~= before);
    while i < s.len()
        invariant
            from <= i <= s@.len(),
            all == part_views(s@),
            part_views(out@) == before + all.subrange(from as int, i as int),
        decreases s@.len() - i,
    {
        let ghost so_far = part_views(out@);
        out.push(s[i].clone());
        assert(part_views(out@) =~= so_far.push(all[i as int]));
        assert(all.subrange(from as int, i + 1) =~= all.subrange(from as int, i as int).push(
            all[i as int],
        ));
        i = i + 1;
    }
    assert(all.subrange(from as int, all.len() as int) =~= all.skip(from as int));
}

fn copy_parts(s: &Vec<Part>) -> (r: Vec<Part>)
    ensures
        part_views(r@) == part_views(s@),
{
    let mut out: Vec<Part> = Vec::new();
    push_parts(&mut out, s, 0);
    assert(part_views(out@) =~= part_views(s@));
    out
}

// Lexical resolution.

/// One level up: a root has nothing above it.
pub open spec fn popped(s: Seq<PartView>) -> Seq<PartView> {
    if s.len() > 0 && s.last() is Name {
        s.drop_last()
    } else {
        s
    }
}

/// The first `n` parts with `.` and `..` collapsed.
pub open spec fn collapsed(s: Seq<PartView>, n: int) -> Seq<PartView>
    decreases n,
{
    if n <= 0 || n > s.len() {
        Seq::empty()
    } else {
        let before = collapsed(s, n - 1);
        match s[n - 1] {
            PartView::Here => before,
            PartView::Up => popped(before),
            p => before.push(p),
        }
    }
}

pub open spec fn normal(s: Seq<PartView>) -> Seq<PartView> {
    collapsed(s, s.len() as int)
}

/// Collapse `.` and `..` without looking at the file system: a path that does
/// not exist yet normalizes too. `..` at a root stays at the root.
pub fn normalize_lexical(p: &Vec<Part>) -> (r: Vec<Part>)
    ensures
        part_views(r@) == normal(part_views(p@)),
{
    let ghost s = part_views(p@);
    let mut out: Vec<Part> = Vec::new();
    let mut i: usize = 0;
    assert(part_views(out@) =~= collapsed(s, 0));
    while i < p.len()
        invariant
            i <= p@.len(),
            s == part_views(p@),
            part_views(out@) == collapsed(s, i as int),
        decreases p@.len() - i,
    {
        let ghost before = part_views(out@);
        assert(s[i as int] == p@[i as int]@);
        match &p[i] {
            Part::Here => {},
            Part::Up => {
                let n: usize = out.len();
                if n > 0 {
                    assert(before.last() == out@[n - 1]@);
                    let named = match &out[n - 1] {
                        Part::Name(_) => true,
                        _ => false,
                    };
                    if named {
                        out.pop();
                        assert(part_views(out@) =~= before.drop_last());
                    }
                }
            },
            other => {
                out.push(other.clone());
                assert(part_views(out@) =~= before.push(s[i as int]));
            },
        }
        i = i + 1;
    }
    out
}

pub open spec fn is_absolute(s: Seq<PartView>) -> bool {
    s.len() > 0 && s[0] is Anchor
}

/// `rel` against `base`; an absolute path stands for itself.
pub open spec fn joined(base: Seq<PartView>, rel: Seq<PartView>) -> Seq<PartView> {
    if is_absolute(rel) {
        rel
    } else {
        base + rel
    }
}

fn join(base: &Vec<Part>, rel: &Vec<Part>) -> (r: Vec<Part>)
    ensures
        part_views(r@) == joined(part_views(base@), part_views(rel@)),
{
    let absolute = rel.len() > 0 && (match &rel[0] {
        Part::Anchor(_) => true,
        _ => false,
    });
    assert(absolute == is_absolute(part_views(rel@)));
    let mut out: Vec<Part> = Vec::new();
    if !absolute {
        push_parts(&mut out, base, 0);
    }
    push_parts(&mut out, rel, 0);
    assert(part_views(out@) =~= joined(part_views(base@), part_views(rel@)));
    out
}

/// Whether a path stands at or below `root`.
pub open spec fn is_under(path: Seq<PartView>, root: Seq<PartView>) -> bool {
    root.len() <= path.len() && path.take(root.len() as int) == root
}

fn under(path: &Vec<Part>, root: &Vec<Part>) -> (r: bool)
    ensures
        r == is_under(part_views(path@), part_views(root@)),
{
    let ghost p = part_views(path@);
    let ghost q = part_views(root@);
    if root.len() > path.len() {
        return false;
    }
    let mut i: usize = 0;
    while i < root.len()
        invariant
            i <= root@.len() <= path@.len(),
            p == part_views(path@),
            q == part_views(root@),
            forall|k: int| 0 <= k < i ==> p[k] == #[trigger] q[k],
        decreases root@.len() - i,
    {
        if !part_eq(&path[i], &root[i]) {
            assert(p.take(q.len() as int)[i as int] != q[i as int]);
            return false;
        }
        assert(p[i as int] == q[i as int]);
        i = i + 1;
    }
    assert(p.take(q.len() as int) =~= q);
    true
}

/// Whether a file is served from below `root`. Both paths are canonical, or
/// missing where there is nothing to resolve: a link that leads out of the
/// root is then not below it.
pub fn served_file(root: Option<Vec<Part>>, file: Option<Vec<Part>>, is_file: bool) -> (r: bool)
    ensures
        r == match (root, file) {
            (Some(d), Some(f)) => is_file && is_under(part_views(f@), part_views(d@)),
            _ => false,
        },
{
    match (root, file) {
        (Some(d), Some(f)) => is_file && under(&f, &d),
        _ => false,
    }
}

// Confinement.

/// An authored path that landed outside the root.
#[derive(Debug)]
pub struct Escapes {
    /// What the markup asked for.
    pub rel: Vec<Part>,
    /// Where it resolved.
    pub resolved: Vec<Part>,
    /// The root it must stay under.
    pub root: Vec<Part>,
}

pub struct EscapesView {
    pub rel: Seq<PartView>,
    pub resolved: Seq<PartView>,
    pub root: Seq<PartView>,
}

impl View for Escapes {
    type V = EscapesView;

    open spec fn view(&self) -> EscapesView {
        EscapesView {
            rel: part_views(self.rel@),
            resolved: part_views(self.resolved@),
            root: part_views(self.root@),
        }
    }
}

/// The root of a project, made absolute: what is canonicalized before paths
/// are held against it.
pub fn root_path(cwd: &Vec<Part>, root: &Vec<Part>) -> (r: Vec<Part>)
    ensures
        part_views(r@) == normal(joined(part_views(cwd@), part_views(root@))),
{
    let all = join(cwd, root);
    normalize_lexical(&all)
}

/// The resolution of an authored path: its lexical form and how much of it is
/// being looked up.
#[derive(Debug)]
pub struct Confine {
    rel: Vec<Part>,
    root: Vec<Part>,
    resolved: Vec<Part>,
    cut: usize,
}

pub struct ConfineView {
    pub rel: Seq<PartView>,
    pub root: Seq<PartView>,
    pub resolved: Seq<PartView>,
    pub cut: int,
}

/// The lexical form of an authored path.
pub open spec fn lexical(root: Seq<PartView>, rel: Seq<PartView>) -> Seq<PartView> {
    normal(joined(root, rel))
}

/// Where a path leads whose first `cut` parts are really `canonical`.
pub open spec fn landed(c: ConfineView, canonical: Seq<PartView>) -> Result<
    Seq<PartView>,
    EscapesView,
> {
    let path = canonical + c.resolved.skip(c.cut);
    if is_under(path, c.root) {
        Ok(path)
    } else {
        Err(EscapesView { rel: c.rel, resolved: path, root: c.root })
    }
}

/// Whether the lookup ends: an ancestor was found, or none is left.
pub open spec fn lookup_ends(c: ConfineView, canonical: Option<Seq<PartView>>) -> bool {
    canonical is Some || c.cut <= 0 || !(c.resolved[c.cut - 1] is Name)
}

pub open spec fn parts_view(p: Option<Vec<Part>>) -> Option<Seq<PartView>> {
    match p {
        Some(v) => Some(part_views(v@)),
        None => None,
    }
}

impl Confine {
    pub closed spec fn view(&self) -> ConfineView {
        ConfineView {
            rel: part_views(self.rel@),
            root: part_views(self.root@),
            resolved: part_views(self.resolved@),
            cut: self.cut as int,
        }
    }

    pub open spec fn wf(self) -> bool {
        0 <= self@.cut <= self@.resolved.len()
    }

    /// Starts the resolution of `rel` under the real root. A path that is
    /// lexically outside is refused at once.
    pub fn start(root: Vec<Part>, rel: Vec<Part>) -> (r: Result<Confine, Escapes>)
        ensures
            ({
                let q = part_views(root@);
                let p = part_views(rel@);
                let path = lexical(q, p);
                match r {
                    Ok(c) => is_under(path, q) && c.wf() && c@ == (ConfineView {
                        rel: p,
                        root: q,
                        resolved: path,
                        cut: path.len() as int,
                    }),
                    Err(e) => !is_under(path, q) && e@ == (EscapesView {
                        rel: p,
                        resolved: path,
                        root: q,
                    }),
                }
            }),
    {
        let all = join(&root, &rel);
        let resolved = normalize_lexical(&all);
        if !under(&resolved, &root) {
            return Err(Escapes { rel, resolved, root });
        }
        let cut: usize = resolved.len();
        Ok(Confine { rel, root, resolved, cut })
    }

    /// The path to canonicalize next.
    pub fn probe(&self) -> (r: Vec<Part>)
        requires
            self.wf(),
        ensures
            part_views(r@) == self@.resolved.take(self@.cut),
    {
        let mut out: Vec<Part> = Vec::new();
        let ghost all = part_views(self.resolved@);
        let mut i: usize = 0;
        assert(part_views(out@) =~= all.take(0));
        while i < self.cut
            invariant
                i <= self.cut <= self.resolved@.len(),
                all == part_views(self.resolved@),
                part_views(out@) == all.take(i as int),
            decreases self.cut - i,
        {
            let ghost before = part_views(out@);
            out.push(self.resolved[i].clone());
            assert(part_views(out@) =~= before.push(all[i as int]));
            assert(all.take(i + 1) =~= all.take(i as int).push(all[i as int]));
            i = i + 1;
        }
        out
    }

    /// What canonicalizing the probe gave, if anything. When no ancestor is
    /// left the lexical one stands. A resolution that lands outside the root
    /// is refused.
    pub fn step(&mut self, canonical: Option<Vec<Part>>) -> (r: Option<Result<Vec<Part>, Escapes>>)
        requires
            old(self).wf(),
        ensures
            final(self).wf(),
            ({
                let c = old(self)@;
                let found = match parts_view(canonical) {
                    Some(p) => p,
                    None => c.resolved.take(c.cut),
                };
                if lookup_ends(c, parts_view(canonical)) {
                    match r {
                        Some(Ok(p)) => landed(c, found) == Ok::<Seq<PartView>, EscapesView>(
                            part_views(p@),
                        ),
                        Some(Err(e)) => landed(c, found) == Err::<Seq<PartView>, EscapesView>(e@),
                        None => false,
                    }
                } else {
                    r is None && final(self)@ == (ConfineView { cut: c.cut - 1, ..c })
                }
            }),
            r matches Some(Ok(p)) ==> is_under(part_views(p@), old(self)@.root),
            r is None ==> final(self)@.cut < old(self)@.cut,
    {
        let ghost c = self@;
        let mut found: Vec<Part> = match canonical {
            Some(p) => p,
            None => {
                if self.cut > 0 {
                    let named = match &self.resolved[self.cut - 1] {
                        Part::Name(_) => true,
                        _ => false,
                    };
                    assert(c.resolved[c.cut - 1] == self.resolved@[self.cut - 1]@);
                    if named {
                        self.cut = self.cut - 1;
                        return None;
                    }
                }
                self.probe()
            },
        };
        push_parts(&mut found, &self.resolved, self.cut);
        if under(&found, &self.root) {
            Some(Ok(found))
        } else {
            Some(
                Err(
                    Escapes {
                        rel: copy_parts(&self.rel),
                        resolved: found,
                        root: copy_parts(&self.root),
                    },
                ),
            )
        }
    }
}

/// A collapsed path holds no `.` and no `..`.
pub proof fn normal_is_plain(s: Seq<PartView>, n: int)
    ensures
        forall|i: int|
            0 <= i < collapsed(s, n).len() ==> #[trigger] collapsed(s, n)[i] is Name || collapsed(
                s,
                n,
            )[i] is Anchor,
    decreases n,
{
    if 0 < n <= s.len() {
        normal_is_plain(s, n - 1);
    }
}

/// A plain relative path, one without `..`, never leaves its root.
pub proof fn plain_paths_stay_inside(root: Seq<PartView>, rel: Seq<PartView>)
    requires
        forall|i: int| 0 <= i < root.len() ==> #[trigger] root[i] is Name || root[i] is Anchor,
        forall|i: int| 0 <= i < rel.len() ==> #[trigger] rel[i] is Name || rel[i] is Here,
    ensures
        is_under(lexical(root, rel), root),
{
    let s = root + rel;
    assert(joined(root, rel) =~= s);
    lemma_collapse_plain(s, root.len() as int);
    assert(s.take(root.len() as int) =~= root);
    lemma_grows(s, root.len() as int, s.len() as int);
}

proof fn lemma_collapse_plain(s: Seq<PartView>, n: int)
    requires
        0 <= n <= s.len(),
        forall|i: int| 0 <= i < n ==> #[trigger] s[i] is Name || s[i] is Anchor,
    ensures
        collapsed(s, n) == s.take(n),
    decreases n,
{
    if n > 0 {
        lemma_collapse_plain(s, n - 1);
        assert(s.take(n) =~= s.take(n - 1).push(s[n - 1]));
    } else {
        assert(s.take(0) =~= Seq::<PartView>::empty());
    }
}

/// Names and `.` only add to a collapsed path.
proof fn lemma_grows(s: Seq<PartView>, m: int, n: int)
    requires
        0 <= m <= n <= s.len(),
        forall|i: int| m <= i < n ==> #[trigger] s[i] is Name || s[i] is Here,
    ensures
        is_under(collapsed(s, n), collapsed(s, m)),
    decreases n - m,
{
    if m < n {
        lemma_grows(s, m, n - 1);
        let before = collapsed(s, n - 1);
        let root = collapsed(s, m);
        assert(collapsed(s, n).take(root.len() as int) =~= before.take(root.len() as int));
    } else {
        assert(collapsed(s, m).take(collapsed(s, m).len() as int) =~= collapsed(s, m));
    }
}

// Messages.

/// The first `n` parts with `/` between names.
pub open spec fn shown(s: Seq<PartView>, n: int) -> Seq<char>
    decreases n,
{
    if n <= 0 || n > s.len() {
        Seq::empty()
    } else {
        let before = shown(s, n - 1);
        let gap = if n == 1 || s[n - 2] is Anchor {
            Seq::empty()
        } else {
            "/"@
        };
        before + gap + (match s[n - 1] {
            PartView::Anchor(a) => a,
            PartView::Here => "."@,
            PartView::Up => ".."@,
            PartView::Name(t) => t,
        })
    }
}

pub open spec fn display(s: Seq<PartView>) -> Seq<char> {
    shown(s, s.len() as int)
}

/// A path as text.
pub fn path_text(p: &Vec<Part>) -> (r: String)
    ensures
        r@ == display(part_views(p@)),
{
    let ghost s = part_views(p@);
    let mut out = String::new();
    let mut i: usize = 0;
    assert(out@ =~= shown(s, 0));
    while i < p.len()
        invariant
            i <= p@.len(),
            s == part_views(p@),
            out@ == shown(s, i as int),
        decreases p@.len() - i,
    {
        let ghost before = out@;
        let gap = i > 0 && (match &p[i - 1] {
            Part::Anchor(_) => false,
            _ => true,
        });
        if gap {
            out.append("/");
        }
        assert(s[i as int] == p@[i as int]@);
        match &p[i] {
            Part::Anchor(a) => out.append(a.as_str()),
            Part::Here => out.append("."),
            Part::Up => out.append(".."),
            Part::Name(t) => out.append(t.as_str()),
        }
        assert(i > 0 ==> s[i - 1] == p@[i - 1]@);
        assert(out@ =~= shown(s, i + 1));
        i = i + 1;
    }
    out
}

pub open spec fn escape_message(e: EscapesView) -> Seq<char> {
    "path `"@ + display(e.rel) + "` escapes the project root (must land under "@ + display(e.root)
        + ")"@
}

impl Escapes {
    /// The refusal in words.
    pub fn message(&self) -> (r: String)
        ensures
            r@ == escape_message(self@),
    {
        let rel = path_text(&self.rel);
        let root = path_text(&self.root);
        let head = cat3("path `", rel.as_str(), "` escapes the project root (must land under ");
        cat3(head.as_str(), root.as_str(), ")")
    }
}

// The source of a draft.

/// The first `n` parts of an absolute path with `.` and `..` collapsed; a
/// `..` that has nothing to climb stays.
pub open spec fn cleaned(s: Seq<PartView>, n: int) -> Seq<PartView>
    decreases n,
{
    if n <= 0 || n > s.len() {
        Seq::empty()
    } else {
        let before = cleaned(s, n - 1);
        match s[n - 1] {
            PartView::Here => before,
            PartView::Up => if before.len() > 0 && before.last() is Name {
                before.drop_last()
            } else {
                before.push(PartView::Up)
            },
            p => before.push(p),
        }
    }
}

pub open spec fn clean(s: Seq<PartView>) -> Seq<PartView> {
    cleaned(s, s.len() as int)
}

/// An absolute path in components, `.` and `..` collapsed.
pub fn normalized_components(p: &Vec<Part>) -> (r: Vec<Part>)
    ensures
        part_views(r@) == clean(part_views(p@)),
{
    let ghost s = part_views(p@);
    let mut out: Vec<Part> = Vec::new();
    let mut i: usize = 0;
    assert(part_views(out@) =~= cleaned(s, 0));
    while i < p.len()
        invariant
            i <= p@.len(),
            s == part_views(p@),
            part_views(out@) == cleaned(s, i as int),
        decreases p@.len() - i,
    {
        let ghost before = part_views(out@);
        assert(s[i as int] == p@[i as int]@);
        let n: usize = out.len();
        let named = n > 0 && (match &out[n - 1] {
            Part::Name(_) => true,
            _ => false,
        });
        assert(n > 0 ==> before.last() == out@[n - 1]@);
        match &p[i] {
            Part::Here => {},
            Part::Up => {
                if named {
                    out.pop();
                    assert(part_views(out@) =~= before.drop_last());
                } else {
                    out.push(Part::Up);
                    assert(part_views(out@) =~= before.push(PartView::Up));
                }
            },
            other => {
                out.push(other.clone());
                assert(part_views(out@) =~= before.push(s[i as int]));
            },
        }
        i = i + 1;
    }
    out
}

/// How many leading parts two paths share, from `i` on.
pub open spec fn shared(a: Seq<PartView>, b: Seq<PartView>, i: int) -> int
    decreases a.len() - i,
{
    if 0 <= i < a.len() && i < b.len() && a[i] == b[i] {
        shared(a, b, i + 1)
    } else {
        i
    }
}

fn shared_parts(a: &Vec<Part>, b: &Vec<Part>) -> (r: usize)
    ensures
        r == shared(part_views(a@), part_views(b@), 0),
        r <= a@.len(),
        r <= b@.len(),
{
    let ghost x = part_views(a@);
    let ghost y = part_views(b@);
    let mut i: usize = 0;
    while i < a.len() && i < b.len() && part_eq(&a[i], &b[i])
        invariant
            i <= a@.len(),
            i <= b@.len(),
            x == part_views(a@),
            y == part_views(b@),
            shared(x, y, 0) == shared(x, y, i as int),
        decreases a@.len() - i,
    {
        assert(x[i as int] == y[i as int]);
        i = i + 1;
    }
    assert(shared(x, y, i as int) == i) by {
        if i < a@.len() && i < b@.len() {
            assert(x[i as int] == a@[i as int]@ && y[i as int] == b@[i as int]@);
        }
    }
    i
}

pub open spec fn ups(n: int) -> Seq<PartView> {
    Seq::new(
        (if n > 0 {
            n
        } else {
            0
        }) as nat,
        |i: int| PartView::Up,
    )
}

/// From `a` up to what both share, then down to `b`.
pub open spec fn relative(a: Seq<PartView>, b: Seq<PartView>) -> Seq<PartView> {
    let common = shared(a, b, 0);
    ups(a.len() - common) + b.skip(common)
}

/// Relative where both ends lie in the working directory, absolute otherwise.
pub open spec fn draft_source(
    path: Seq<PartView>,
    scene_dir: Seq<PartView>,
    cwd: Option<Seq<PartView>>,
) -> Seq<PartView> {
    let a = clean(scene_dir);
    let b = clean(path);
    match cwd {
        Some(c) => if is_under(a, clean(c)) && is_under(b, clean(c)) {
            relative(a, b)
        } else {
            b
        },
        None => b,
    }
}

/// The source written into a draft that goes to stdout. The arguments are
/// absolute paths.
pub fn adapt_src(path: &Vec<Part>, scene_dir: &Vec<Part>, cwd: Option<Vec<Part>>) -> (r: Vec<Part>)
    ensures
        part_views(r@) == draft_source(
            part_views(path@),
            part_views(scene_dir@),
            parts_view(cwd),
        ),
{
    let a = normalized_components(scene_dir);
    let b = normalized_components(path);
    let inside = match &cwd {
        Some(c) => {
            let base = normalized_components(c);
            under(&a, &base) && under(&b, &base)
        },
        None => false,
    };
    if !inside {
        return b;
    }
    let common = shared_parts(&a, &b);
    let mut out: Vec<Part> = Vec::new();
    let mut i: usize = common;
    assert(part_views(out@) =~= ups(0));
    while i < a.len()
        invariant
            common <= i <= a@.len(),
            part_views(out@) == ups(i - common),
        decreases a@.len() - i,
    {
        let ghost before = part_views(out@);
        out.push(Part::Up);
        assert(part_views(out@) =~= before.push(PartView::Up));
        assert(ups(i + 1 - common) =~= ups(i - common).push(PartView::Up));
        i = i + 1;
    }
    push_parts(&mut out, &b, common);
    out
}

proof fn lemma_shared(a: Seq<PartView>, b: Seq<PartView>, i: int)
    requires
        0 <= i <= a.len(),
        i <= b.len(),
    ensures
        i <= shared(a, b, i) <= a.len(),
        shared(a, b, i) <= b.len(),
        forall|k: int| i <= k < shared(a, b, i) ==> a[k] == b[k],
    decreases a.len() - i,
{
    if i < a.len() && i < b.len() && a[i] == b[i] {
        lemma_shared(a, b, i + 1);
    }
}

/// A root followed by names.
pub open spec fn is_clean(s: Seq<PartView>) -> bool {
    &&& s.len() > 0
    &&& s[0] is Anchor
    &&& forall|i: int| 1 <= i < s.len() ==> #[trigger] s[i] is Name
}

proof fn lemma_clean_names(s: Seq<PartView>, n: int)
    requires
        is_clean(s),
        0 <= n <= s.len(),
    ensures
        cleaned(s, n) == s.take(n),
    decreases n,
{
    if n > 0 {
        lemma_clean_names(s, n - 1);
        assert(s.take(n) =~= s.take(n - 1).push(s[n - 1]));
    } else {
        assert(s.take(0) =~= Seq::<PartView>::empty());
    }
}

proof fn lemma_clean_prefix(s: Seq<PartView>, t: Seq<PartView>, n: int)
    requires
        n <= s.len(),
        n <= t.len(),
        forall|i: int| 0 <= i < n ==> s[i] == t[i],
    ensures
        cleaned(s, n) == cleaned(t, n),
    decreases n,
{
    if n > 0 {
        lemma_clean_prefix(s, t, n - 1);
    }
}

/// Climbing `k` times from a clean path leaves its first parts.
proof fn lemma_climb(a: Seq<PartView>, rest: Seq<PartView>, k: int)
    requires
        is_clean(a),
        0 <= k < a.len(),
    ensures
        cleaned(a + ups(k) + rest, a.len() + k) == a.take(a.len() - k),
    decreases k,
{
    let s = a + ups(k) + rest;
    let n = a.len() as int;
    if k == 0 {
        lemma_clean_prefix(s, a, n);
        lemma_clean_names(a, n);
    } else {
        let t = a + ups(k - 1) + rest;
        lemma_climb(a, rest, k - 1);
        lemma_clean_prefix(s, t, n + k - 1);
        let before = a.take(n - (k - 1));
        assert(s[n + k - 1] == PartView::Up);
        assert(before.last() == a[n - k]);
        assert(before.drop_last() =~= a.take(n - k));
    }
}

proof fn lemma_descend(s: Seq<PartView>, m: int, n: int)
    requires
        0 <= m <= n <= s.len(),
        forall|i: int| m <= i < n ==> #[trigger] s[i] is Name,
    ensures
        cleaned(s, n) == cleaned(s, m) + s.subrange(m, n),
    decreases n - m,
{
    if m < n {
        lemma_descend(s, m, n - 1);
        assert(s.subrange(m, n) =~= s.subrange(m, n - 1).push(s[n - 1]));
        assert(cleaned(s, m) + s.subrange(m, n) =~= (cleaned(s, m) + s.subrange(m, n - 1)).push(
            s[n - 1],
        ));
    } else {
        assert(cleaned(s, m) + s.subrange(m, m) =~= cleaned(s, m));
    }
}

/// Followed from the scene's directory, the relative source of a draft leads
/// back to the source.
pub proof fn relative_leads_back(a: Seq<PartView>, b: Seq<PartView>)
    requires
        is_clean(a),
        is_clean(b),
        a[0] == b[0],
    ensures
        clean(a + relative(a, b)) == b,
{
    lemma_shared(a, b, 0);
    let common = shared(a, b, 0);
    assert(common >= 1) by {
        lemma_shared(a, b, 1);
        assert(shared(a, b, 0) == shared(a, b, 1));
    }
    let k = a.len() - common;
    let rest = b.skip(common);
    let s = a + ups(k) + rest;
    assert(a + relative(a, b) =~= s);
    lemma_climb(a, rest, k);
    let m = a.len() + k;
    assert forall|i: int| m <= i < s.len() implies #[trigger] s[i] is Name by {
        assert(s[i] == b[common + (i - m)]);
    }
    lemma_descend(s, m, s.len() as int);
    assert(s.subrange(m, s.len() as int) =~= rest);
    assert(a.take(common) =~= b.take(common));
    assert(b.take(common) + rest =~= b);
}

// Placing footage.

/// Where footage stands for a scene: already inside its root, or to be
/// imported.
#[derive(Debug)]
pub enum Footage {
    Inside(Vec<Part>),
    Import,
}

/// The path of footage relative to the scene's root; footage outside the root
/// is to be imported first. Both paths are canonical.
pub fn place_in_scene(path: &Vec<Part>, root: &Vec<Part>) -> (r: Footage)
    ensures
        ({
            let p = part_views(path@);
            let q = part_views(root@);
            match r {
                Footage::Inside(rel) => is_under(p, q) && part_views(rel@) == p.skip(
                    q.len() as int,
                ),
                Footage::Import => !is_under(p, q),
            }
        }),
{
    if under(path, root) {
        let mut rel: Vec<Part> = Vec::new();
        push_parts(&mut rel, path, root.len());
        assert(part_views(rel@) =~= part_views(path@).skip(root@.len() as int));
        Footage::Inside(rel)
    } else {
        Footage::Import
    }
}

/// No more names are tried for an import than this.
pub const IMPORT_NAMES: u32 = 100;

/// The name under which try `n` imports a file: its own, then
/// `stem-1.ext`, `stem-2.ext`, ….
pub open spec fn import_name_of(
    name: Seq<char>,
    stem: Seq<char>,
    ext: Option<Seq<char>>,
    n: u32,
) -> Seq<char> {
    if n == 0 {
        name
    } else {
        match ext {
            Some(e) => stem + "-"@ + crate::text::dec(n as nat) + "."@ + e,
            None => stem + "-"@ + crate::text::dec(n as nat),
        }
    }
}

pub fn import_name(name: &str, stem: &str, ext: Option<&str>, n: u32) -> (r: String)
    ensures
        r@ == import_name_of(name@, stem@, crate::media::str_view(ext), n),
{
    if n == 0 {
        return name.to_owned();
    }
    let d = dec_text(n as u64);
    let numbered = cat3(stem, "-", d.as_str());
    match ext {
        Some(e) => cat3(numbered.as_str(), ".", e),
        None => numbered,
    }
}

/// What to do with a candidate name.
#[derive(Debug, Clone, Copy, PartialEq, Eq, Structural)]
pub enum ImportChoice {
    /// The file stands there already.
    Reuse,
    /// Another file has the name.
    Next,
    Take,
}

/// A name is taken only if nothing stands there: an unrelated file is never
/// overwritten.
pub fn import_choice(exists: bool, same: bool) -> (r: ImportChoice)
    ensures
        r == ImportChoice::Take <==> !exists,
        r == ImportChoice::Reuse <==> exists && same,
{
    if !exists {
        ImportChoice::Take
    } else if same {
        ImportChoice::Reuse
    } else {
        ImportChoice::Next
    }
}

proof fn lemma_tails_differ(a: Seq<char>, x: Seq<char>, y: Seq<char>, b: Seq<char>)
    requires
        x != y,
        crate::text::all_digits(x),
        crate::text::all_digits(y),
        b.len() > 0 ==> !crate::text::is_digit(b[0]),
    ensures
        a + x + b != a + y + b,
{
    let s = a + x + b;
    let t = a + y + b;
    if s == t {
        assert(s.len() == t.len());
        assert(x.len() == y.len());
        assert forall|i: int| 0 <= i < x.len() implies x[i] == y[i] by {
            assert(s[a.len() + i] == x[i]);
            assert(t[a.len() + i] == y[i]);
        }
        assert(x =~= y);
    }
}

/// Two numbered tries never give the same name.
pub proof fn import_names_differ(
    name: Seq<char>,
    stem: Seq<char>,
    ext: Option<Seq<char>>,
    m: u32,
    n: u32,
)
    requires
        0 < m < n,
    ensures
        import_name_of(name, stem, ext, m) != import_name_of(name, stem, ext, n),
{
    reveal_strlit(".");
    let x = crate::text::dec(m as nat);
    let y = crate::text::dec(n as nat);
    crate::text::lemma_dec(m as nat);
    crate::text::lemma_dec(n as nat);
    let a = stem + "-"@;
    match ext {
        Some(e) => {
            let b = "."@ + e;
            lemma_tails_differ(a, x, y, b);
            assert(a + x + b =~= stem + "-"@ + x + "."@ + e);
            assert(a + y + b =~= stem + "-"@ + y + "."@ + e);
        },
        None => {
            lemma_tails_differ(a, x, y, Seq::empty());
            assert(a + x + Seq::<char>::empty() =~= stem + "-"@ + x);
            assert(a + y + Seq::<char>::empty() =~= stem + "-"@ + y);
        },
    }
}

// Intermediate files.

pub open spec fn or_word(s: Option<Seq<char>>, word: Seq<char>) -> Seq<char> {
    match s {
        Some(t) => t,
        None => word,
    }
}

/// `stem.tag-PID-SEQ.ext`.
pub open spec fn sibling_name(
    stem: Option<Seq<char>>,
    ext: Option<Seq<char>>,
    tag: Seq<char>,
    pid: u32,
    seq: u64,
) -> Seq<char> {
    or_word(stem, "out"@) + "."@ + tag + "-"@ + crate::text::dec(pid as nat) + "-"@
        + crate::text::dec(seq as nat) + "."@ + or_word(ext, "mp4"@)
}

/// The name of an intermediate file beside a target: the process and a
/// counter keep concurrent renders apart.
pub fn unique_sibling(stem: Option<&str>, ext: Option<&str>, tag: &str, pid: u32, seq: u64) -> (r:
    String)
    ensures
        r@ == sibling_name(
            crate::media::str_view(stem),
            crate::media::str_view(ext),
            tag@,
            pid,
            seq,
        ),
{
    let s = match stem {
        Some(t) => t,
        None => "out",
    };
    let e = match ext {
        Some(t) => t,
        None => "mp4",
    };
    let p = dec_text(pid as u64);
    let q = dec_text(seq);
    let mut out = cat4(s, ".", tag, "-");
    out.append(p.as_str());
    out.append("-");
    out.append(q.as_str());
    out.append(".");
    out.append(e);
    out
}

/// Two calls of one process never name the same file beside a target.
pub proof fn siblings_differ(
    stem: Option<Seq<char>>,
    ext: Option<Seq<char>>,
    tag: Seq<char>,
    pid: u32,
    m: u64,
    n: u64,
)
    requires
        m != n,
    ensures
        sibling_name(stem, ext, tag, pid, m) != sibling_name(stem, ext, tag, pid, n),
{
    reveal_strlit(".");
    let x = crate::text::dec(m as nat);
    let y = crate::text::dec(n as nat);
    crate::text::lemma_dec(m as nat);
    crate::text::lemma_dec(n as nat);
    let a = or_word(stem, "out"@) + "."@ + tag + "-"@ + crate::text::dec(pid as nat) + "-"@;
    let b = "."@ + or_word(ext, "mp4"@);
    lemma_tails_differ(a, x, y, b);
    assert(a + x + b =~= sibling_name(stem, ext, tag, pid, m));
    assert(a + y + b =~= sibling_name(stem, ext, tag, pid, n));
}

// Publishing a rendered file.

/// A staged output is published only if it is a file with something in it:
/// whatever else stands there, the previous output stays.
pub fn validate_output(is_file: bool, len: u64) -> (r: Result<(), String>)
    ensures
        match r {
            Ok(_) => is_file && len > 0,
            Err(m) => (!is_file || len == 0) && m@
                == "staged output must be a nonempty regular file"@,
        },
{
    if is_file && len > 0 {
        Ok(())
    } else {
        Err("staged output must be a nonempty regular file".to_owned())
    }
}

/// What publishing does next.
#[derive(Debug)]
pub enum PublishStep {
    Rename,
    RemoveTarget,
    RenameAgain,
    Done(Result<(), String>),
}

pub enum PublishStepView {
    Rename,
    RemoveTarget,
    RenameAgain,
    Done(Result<(), Seq<char>>),
}

impl View for PublishStep {
    type V = PublishStepView;

    open spec fn view(&self) -> PublishStepView {
        match self {
            PublishStep::Rename => PublishStepView::Rename,
            PublishStep::RemoveTarget => PublishStepView::RemoveTarget,
            PublishStep::RenameAgain => PublishStepView::RenameAgain,
            PublishStep::Done(Ok(_)) => PublishStepView::Done(Ok(())),
            PublishStep::Done(Err(e)) => PublishStepView::Done(Err(e@)),
        }
    }
}

/// Nothing of the target is touched before the rendered file exists.
pub fn publish_start(tmp_exists: bool, tmp: &str) -> (r: PublishStep)
    ensures
        r@ == (if tmp_exists {
            PublishStepView::Rename
        } else {
            PublishStepView::Done(Err("render output "@ + tmp@ + " is missing"@))
        }),
{
    if tmp_exists {
        PublishStep::Rename
    } else {
        PublishStep::Done(Err(cat3("render output ", tmp, " is missing")))
    }
}

pub open spec fn move_error(tmp: Seq<char>, target: Seq<char>, e: Seq<char>) -> Seq<char> {
    "cannot move "@ + tmp + " to "@ + target + ": "@ + e
}

fn move_failed(tmp: &str, target: &str, e: &str) -> (r: String)
    ensures
        r@ == move_error(tmp@, target@, e@),
{
    let mut out = cat4("cannot move ", tmp, " to ", target);
    out.append(": ");
    out.append(e);
    out
}

/// After the first rename: where it cannot replace, the target is removed
/// first.
pub fn publish_renamed(
    renamed: Result<(), String>,
    target_exists: bool,
    tmp: &str,
    target: &str,
) -> (r: PublishStep)
    ensures
        r@ == (match renamed {
            Ok(_) => PublishStepView::Done(Ok(())),
            Err(e) => if target_exists {
                PublishStepView::RemoveTarget
            } else {
                PublishStepView::Done(Err(move_error(tmp@, target@, e@)))
            },
        }),
{
    match renamed {
        Ok(_) => PublishStep::Done(Ok(())),
        Err(e) => if target_exists {
            PublishStep::RemoveTarget
        } else {
            PublishStep::Done(Err(move_failed(tmp, target, e.as_str())))
        },
    }
}

pub fn publish_removed(removed: Result<(), String>, target: &str) -> (r: PublishStep)
    ensures
        r@ == (match removed {
            Ok(_) => PublishStepView::RenameAgain,
            Err(e) => PublishStepView::Done(Err("cannot replace "@ + target@ + ": "@ + e@)),
        }),
{
    match removed {
        Ok(_) => PublishStep::RenameAgain,
        Err(e) => PublishStep::Done(Err(cat4("cannot replace ", target, ": ", e.as_str()))),
    }
}

pub fn publish_renamed_again(renamed: Result<(), String>, tmp: &str, target: &str) -> (r:
    PublishStep)
    ensures
        r@ == PublishStepView::Done(
            match renamed {
                Ok(_) => Ok(()),
                Err(e) => Err(move_error(tmp@, target@, e@)),
            },
        ),
{
    match renamed {
        Ok(_) => PublishStep::Done(Ok(())),
        Err(e) => PublishStep::Done(Err(move_failed(tmp, target, e.as_str()))),
    }
}

} // verus!
