//! The text buffer: an ordered, never-empty sequence of lines, the sole
//! authority for applying an [`Edit`] and producing its exact inverse.
//!
//! The whole edit calculus is first defined on the mathematical model
//! (`Seq<Seq<GrView>>`, one inner sequence of clusters per line) by
//! [`spec_execute`]; the executable [`Buffer::execute`] is proved to follow
//! it, and the inverse laws are proved about the model.
use vstd::prelude::*;
use crate::grapheme::Grapheme;
use crate::grapheme::GrView;
use crate::grapheme::byte_count;
use crate::grapheme::gr_wf;
use crate::grapheme::width_of;
use crate::grapheme::lemma_byte_count_bounds;
use crate::line::Line;
use crate::line::boundary_index;
use crate::line::byte_at;
use crate::line::cells_of;
use crate::line::cells_wf;
use crate::line::seg_chars;
use crate::line::is_boundary;
use crate::line::no_breaks;
use crate::line::lemma_boundary_unique;
use crate::line::lemma_no_breaks_concat;
use crate::line::lemma_no_breaks_sub;
use crate::line::lemma_bi_at;
use crate::line::lemma_byte_at_mono;
use crate::line::lemma_cells_wf_concat;
use crate::line::lemma_cells_wf_sub;
use crate::line::lemma_seg_concat;
use crate::line::lemma_seg_insert;
use crate::line::lemma_seg_range;
use crate::line::lemma_seg_remove;
use crate::line::lemma_seg_split;
use crate::line::lemma_seg_width_le_bytes;
use crate::line::seg_bytes;

verus! {

/// The convention used to separate lines in the on-disk form of a buffer.
#[derive(Clone, Copy, PartialEq, Eq, Structural, Debug)]
pub enum LineEnding {
    CRLF,
    LF,
}

/// The characters a line ending stands for.
pub open spec fn ending_chars(e: LineEnding) -> Seq<char> {
    match e {
        LineEnding::CRLF => seq!['\r', '\n'],
        LineEnding::LF => seq!['\n'],
    }
}

impl LineEnding {
    /// The ending as a string.
    pub fn value(&self) -> (r: &'static str)
        ensures
            r@ == ending_chars(*self),
    {
        proof {
            reveal_strlit("\r\n");
            reveal_strlit("\n");
        }
        match self {
            LineEnding::CRLF => {
                let r = "\r\n";
                proof {
                    assert(r@ =~= seq!['\r', '\n']);
                }
                r
            },
            LineEnding::LF => {
                let r = "\n";
                proof {
                    assert(r@ =~= seq!['\n']);
                }
                r
            },
        }
    }

    /// The ending used for fresh buffers.
    pub fn default() -> (r: LineEnding)
        ensures
            r == LineEnding::LF,
    {
        LineEnding::LF
    }
}

/// A position inside a buffer: byte offset `x` within line `y`.
#[derive(Clone, Copy, PartialEq, Eq, Structural, Debug)]
pub struct Point {
    pub x: usize,
    pub y: usize,
}

impl Point {
    /// The origin.
    pub fn new() -> (p: Point)
        ensures
            p == (Point { x: 0, y: 0 }),
    {
        Point { x: 0, y: 0 }
    }

    /// The point as an `(x, y)` pair.
    pub fn as_tuple(&self) -> (r: (usize, usize))
        ensures
            r.0 == self.x,
            r.1 == self.y,
    {
        (self.x, self.y)
    }
}

/// A multi-line fragment of text, as removed by a cut and re-inserted by a
/// paste. The first and last line are partial lines; anything between is a
/// whole line.
pub struct Text {
    pub lines: Vec<Line>,
}

impl View for Text {
    type V = Seq<Seq<GrView>>;

    open spec fn view(&self) -> Seq<Seq<GrView>> {
        self.lines.deep_view()
    }
}

impl Text {
    /// A fragment always holds at least one (possibly empty) line, and every
    /// line is well-formed.
    pub open spec fn wf(&self) -> bool {
        &&& self.lines@.len() >= 1
        &&& forall|i: int| 0 <= i < self.lines@.len() ==> (#[trigger] self.lines@[i]).wf()
    }
}

/// An edit command, the closed set of buffer mutations. The grapheme payload
/// of `Insert` and `Overwrite` is one user-perceived character; an `Insert`
/// whose cluster is the line break splits the line instead.
pub enum Edit {
    Insert(Grapheme, Point),
    Overwrite(Grapheme, Point),
    Delete(Point),
    Paste(Point, Text),
    Cut(Point, Point),
    Replace(Point, usize, Line),
}

/// Abstract value of an [`Edit`].
pub ghost enum EditV {
    Insert(GrView, Point),
    Overwrite(GrView, Point),
    Delete(Point),
    Paste(Point, Seq<Seq<GrView>>),
    Cut(Point, Point),
    Replace(Point, nat, Seq<GrView>),
}

impl View for Edit {
    type V = EditV;

    open spec fn view(&self) -> EditV {
        match self {
            Edit::Insert(g, p) => EditV::Insert(g@, *p),
            Edit::Overwrite(g, p) => EditV::Overwrite(g@, *p),
            Edit::Delete(p) => EditV::Delete(*p),
            Edit::Paste(p, t) => EditV::Paste(*p, t@),
            Edit::Cut(a, b) => EditV::Cut(*a, *b),
            Edit::Replace(p, n, l) => EditV::Replace(*p, *n as nat, l@),
        }
    }
}

/// The kind discriminant of an edit, used to group undo steps.
#[derive(Clone, Copy, PartialEq, Eq, Structural, Debug)]
pub enum EditKind {
    Insert,
    Overwrite,
    Delete,
    Paste,
    Cut,
    Replace,
}

/// The kind of an abstract edit.
pub open spec fn edit_kind(e: EditV) -> EditKind {
    match e {
        EditV::Insert(_, _) => EditKind::Insert,
        EditV::Overwrite(_, _) => EditKind::Overwrite,
        EditV::Delete(_) => EditKind::Delete,
        EditV::Paste(_, _) => EditKind::Paste,
        EditV::Cut(_, _) => EditKind::Cut,
        EditV::Replace(_, _, _) => EditKind::Replace,
    }
}

impl Edit {
    /// The kind discriminant.
    pub fn kind(&self) -> (k: EditKind)
        ensures
            k == edit_kind(self@),
    {
        match self {
            Edit::Insert(_, _) => EditKind::Insert,
            Edit::Overwrite(_, _) => EditKind::Overwrite,
            Edit::Delete(_) => EditKind::Delete,
            Edit::Paste(_, _) => EditKind::Paste,
            Edit::Cut(_, _) => EditKind::Cut,
            Edit::Replace(_, _, _) => EditKind::Replace,
        }
    }

    /// The executable payloads of the edit carry consistent caches.
    pub open spec fn wf(&self) -> bool {
        match self {
            Edit::Insert(g, _) => gr_wf(g@),
            Edit::Overwrite(g, _) => gr_wf(g@),
            Edit::Delete(_) => true,
            Edit::Paste(_, t) => t.wf(),
            Edit::Cut(_, _) => true,
            Edit::Replace(_, _, l) => l.wf(),
        }
    }
}

/// Total byte length of a sequence of lines (without endings).
pub open spec fn buf_bytes(ls: Seq<Seq<GrView>>) -> nat
    decreases ls.len(),
{
    if ls.len() == 0 {
        0
    } else {
        buf_bytes(ls.drop_last()) + seg_bytes(ls.last())
    }
}

/// Every line's clusters are well-formed.
pub open spec fn lines_wf(ls: Seq<Seq<GrView>>) -> bool {
    forall|i: int| 0 <= i < ls.len() ==> cells_wf(#[trigger] ls[i])
}

/// No line stores a line-break cluster: a line break exists only between
/// lines, so re-inserting any cluster removed from a line never splits one.
pub open spec fn lines_clean(ls: Seq<Seq<GrView>>) -> bool {
    forall|i: int| 0 <= i < ls.len() ==> no_breaks(#[trigger] ls[i])
}

/// The capacity measure of a buffer: its bytes plus two units per line.
/// Keeping it capped bounds every byte offset, every line index and the
/// serialized length (endings take at most two bytes each).
pub open spec fn buf_weight(ls: Seq<Seq<GrView>>) -> nat {
    buf_bytes(ls) + 2 * ls.len()
}

/// The buffer model's invariant: at least one line, well-formed clusters,
/// and a capacity measure within machine range.
pub open spec fn model_wf(ls: Seq<Seq<GrView>>) -> bool {
    &&& ls.len() >= 1
    &&& lines_wf(ls)
    &&& lines_clean(ls)
    &&& buf_weight(ls) <= usize::MAX / 2
}

/// `a` does not lie after `b` in the buffer.
pub open spec fn point_le(a: Point, b: Point) -> bool {
    a.y < b.y || (a.y == b.y && a.x <= b.x)
}

/// `p` addresses a cluster boundary of an existing line.
pub open spec fn valid_point(ls: Seq<Seq<GrView>>, p: Point) -> bool {
    p.y < ls.len() && is_boundary(ls[p.y as int], p.x as int)
}

/// The cluster standing for a line break in an inverse edit.
pub open spec fn line_break_cell() -> GrView {
    GrView { text: seq!['\n'], width: width_of(seq!['\n']) }
}

/// What an edit demands of the buffer it is applied to. A misaligned byte
/// offset is a programming error and is excluded here; a line index out of
/// range is allowed for `Insert`, `Overwrite` and `Delete`, which then
/// refuse to apply.
pub open spec fn edit_ok(ls: Seq<Seq<GrView>>, e: EditV) -> bool {
    match e {
        EditV::Insert(g, p) => gr_wf(g) && (p.y < ls.len() ==> is_boundary(
            ls[p.y as int],
            p.x as int,
        )),
        EditV::Overwrite(g, p) => gr_wf(g) && g.text != seq!['\n'] && (p.y < ls.len()
            ==> is_boundary(ls[p.y as int], p.x as int)),
        EditV::Delete(p) => p.y < ls.len() ==> is_boundary(ls[p.y as int], p.x as int),
        EditV::Paste(p, t) => valid_point(ls, p) && t.len() >= 1 && lines_wf(t) && lines_clean(t),
        EditV::Cut(a, b) => valid_point(ls, a) && valid_point(ls, b) && point_le(a, b),
        EditV::Replace(p, n, cs) => p.y < ls.len() ==> (is_boundary(ls[p.y as int], p.x as int)
            && is_boundary(ls[p.y as int], p.x + n) && cells_wf(cs) && no_breaks(cs)),
    }
}

/// Exactly how much an edit can raise the buffer's capacity measure.
pub open spec fn edit_growth(e: EditV) -> nat {
    match e {
        EditV::Insert(g, _) => if g.text == seq!['\n'] {
            2
        } else {
            byte_count(g.text)
        },
        EditV::Overwrite(g, _) => byte_count(g.text),
        EditV::Delete(_) => 0,
        EditV::Paste(_, t) => if t.len() == 0 {
            0
        } else {
            (buf_bytes(t) + 2 * (t.len() - 1)) as nat
        },
        EditV::Cut(_, _) => 0,
        EditV::Replace(_, _, cs) => seg_bytes(cs),
    }
}

/// The capacity cap holds even after growing by `extra`.
pub open spec fn fits(ls: Seq<Seq<GrView>>, extra: nat) -> bool {
    buf_weight(ls) + extra <= usize::MAX / 2
}

pub open spec fn spec_insert(ls: Seq<Seq<GrView>>, g: GrView, p: Point) -> Option<
    (Seq<Seq<GrView>>, EditV),
> {
    if p.y >= ls.len() {
        None
    } else {
        let l = ls[p.y as int];
        let k = boundary_index(l, p.x as int);
        if g.text == seq!['\n'] {
            Some(
                (
                    ls.update(p.y as int, l.take(k)).insert(p.y + 1, l.skip(k)),
                    EditV::Delete(p),
                ),
            )
        } else {
            Some((ls.update(p.y as int, l.insert(k, g)), EditV::Delete(p)))
        }
    }
}

pub open spec fn spec_overwrite(ls: Seq<Seq<GrView>>, g: GrView, p: Point) -> Option<
    (Seq<Seq<GrView>>, EditV),
> {
    if p.y >= ls.len() {
        None
    } else {
        let l = ls[p.y as int];
        let k = boundary_index(l, p.x as int);
        if k < l.len() {
            Some((ls.update(p.y as int, l.update(k, g)), EditV::Overwrite(l[k], p)))
        } else {
            Some((ls.update(p.y as int, l.insert(k, g)), EditV::Delete(p)))
        }
    }
}

pub open spec fn spec_delete(ls: Seq<Seq<GrView>>, p: Point) -> Option<
    (Seq<Seq<GrView>>, EditV),
> {
    if p.y >= ls.len() {
        None
    } else {
        let l = ls[p.y as int];
        let k = boundary_index(l, p.x as int);
        if k < l.len() {
            Some((ls.update(p.y as int, l.remove(k)), EditV::Insert(l[k], p)))
        } else if p.y + 1 < ls.len() {
            let joined = l + ls[p.y + 1];
            Some(
                (ls.update(p.y as int, joined).remove(p.y + 1), EditV::Insert(line_break_cell(), p)),
            )
        } else {
            None
        }
    }
}

pub open spec fn spec_cut(ls: Seq<Seq<GrView>>, a: Point, b: Point) -> Option<
    (Seq<Seq<GrView>>, EditV),
> {
    let la = ls[a.y as int];
    let lb = ls[b.y as int];
    let ka = boundary_index(la, a.x as int);
    let kb = boundary_index(lb, b.x as int);
    if a.y == b.y {
        let removed = seq![la.subrange(ka, kb)];
        Some((ls.update(a.y as int, la.take(ka) + la.skip(kb)), EditV::Paste(a, removed)))
    } else {
        let removed = seq![la.skip(ka)] + ls.subrange(a.y + 1, b.y as int) + seq![lb.take(kb)];
        let joined = la.take(ka) + lb.skip(kb);
        let ls2 = ls.take(a.y as int) + seq![joined] + ls.skip(b.y + 1);
        Some((ls2, EditV::Paste(a, removed)))
    }
}

pub open spec fn spec_paste(ls: Seq<Seq<GrView>>, p: Point, t: Seq<Seq<GrView>>) -> Option<
    (Seq<Seq<GrView>>, EditV),
> {
    let l = ls[p.y as int];
    let k = boundary_index(l, p.x as int);
    if t.len() == 1 {
        let merged = l.take(k) + t[0] + l.skip(k);
        let end = Point { x: (p.x + seg_bytes(t[0])) as usize, y: p.y };
        Some((ls.update(p.y as int, merged), EditV::Cut(p, end)))
    } else {
        let first = l.take(k) + t[0];
        let last = t.last() + l.skip(k);
        let ls2 = ls.take(p.y as int) + seq![first] + t.subrange(1, t.len() - 1) + seq![last]
            + ls.skip(p.y + 1);
        let end = Point { x: seg_bytes(t.last()) as usize, y: (p.y + t.len() - 1) as usize };
        Some((ls2, EditV::Cut(p, end)))
    }
}

pub open spec fn spec_replace(ls: Seq<Seq<GrView>>, p: Point, n: nat, cs: Seq<GrView>) -> Option<
    (Seq<Seq<GrView>>, EditV),
> {
    if p.y >= ls.len() {
        None
    } else {
        let l = ls[p.y as int];
        let ks = boundary_index(l, p.x as int);
        let ke = boundary_index(l, p.x + n);
        let removed = l.subrange(ks, ke);
        let merged = l.take(ks) + cs + l.skip(ke);
        Some((ls.update(p.y as int, merged), EditV::Replace(p, seg_bytes(cs), removed)))
    }
}

pub proof fn lemma_buf_concat(a: Seq<Seq<GrView>>, b: Seq<Seq<GrView>>)
    ensures
        buf_bytes(a + b) == buf_bytes(a) + buf_bytes(b),
    decreases b.len(),
{
    if b.len() == 0 {
        assert(a + b =~= a);
    } else {
        lemma_buf_concat(a, b.drop_last());
        assert((a + b).drop_last() =~= a + b.drop_last());
        assert((a + b).last() == b.last());
    }
}

pub proof fn lemma_buf_split(ls: Seq<Seq<GrView>>, i: int)
    requires
        0 <= i <= ls.len(),
    ensures
        buf_bytes(ls) == buf_bytes(ls.take(i)) + buf_bytes(ls.skip(i)),
{
    assert(ls.take(i) + ls.skip(i) =~= ls);
    lemma_buf_concat(ls.take(i), ls.skip(i));
}

pub proof fn lemma_buf_singleton(l: Seq<GrView>)
    ensures
        buf_bytes(seq![l]) == seg_bytes(l),
{
    let s = seq![l];
    assert(s.len() == 1);
    assert(s.drop_last() =~= Seq::<Seq<GrView>>::empty());
    assert(s.last() == l);
    assert(buf_bytes(s) == buf_bytes(s.drop_last()) + seg_bytes(s.last()));
}

pub proof fn lemma_buf_insert(ls: Seq<Seq<GrView>>, i: int, l: Seq<GrView>)
    requires
        0 <= i <= ls.len(),
    ensures
        buf_bytes(ls.insert(i, l)) == buf_bytes(ls) + seg_bytes(l),
{
    assert(ls.insert(i, l) =~= ls.take(i) + seq![l] + ls.skip(i));
    lemma_buf_concat(ls.take(i), seq![l]);
    lemma_buf_concat(ls.take(i) + seq![l], ls.skip(i));
    lemma_buf_singleton(l);
    lemma_buf_split(ls, i);
}

pub proof fn lemma_buf_remove(ls: Seq<Seq<GrView>>, i: int)
    requires
        0 <= i < ls.len(),
    ensures
        buf_bytes(ls.remove(i)) + seg_bytes(ls[i]) == buf_bytes(ls),
{
    assert(ls.remove(i).insert(i, ls[i]) =~= ls);
    lemma_buf_insert(ls.remove(i), i, ls[i]);
}

pub proof fn lemma_buf_update(ls: Seq<Seq<GrView>>, i: int, l: Seq<GrView>)
    requires
        0 <= i < ls.len(),
    ensures
        buf_bytes(ls.update(i, l)) + seg_bytes(ls[i]) == buf_bytes(ls) + seg_bytes(l),
{
    assert(ls.update(i, l) =~= ls.remove(i).insert(i, l));
    lemma_buf_remove(ls, i);
    lemma_buf_insert(ls.remove(i), i, l);
}

/// One line never holds more bytes than the whole buffer.
pub proof fn lemma_line_le_buf(ls: Seq<Seq<GrView>>, i: int)
    requires
        0 <= i < ls.len(),
    ensures
        seg_bytes(ls[i]) <= buf_bytes(ls),
{
    lemma_buf_remove(ls, i);
}

/// Decomposes a buffer's bytes around two distinct line indices.
pub proof fn lemma_buf_five(ls: Seq<Seq<GrView>>, a: int, b: int)
    requires
        0 <= a < b < ls.len(),
    ensures
        buf_bytes(ls) == buf_bytes(ls.take(a)) + seg_bytes(ls[a]) + buf_bytes(
            ls.subrange(a + 1, b),
        ) + seg_bytes(ls[b]) + buf_bytes(ls.skip(b + 1)),
{
    assert(ls =~= ls.take(a) + seq![ls[a]] + ls.subrange(a + 1, b) + seq![ls[b]] + ls.skip(
        b + 1,
    ));
    lemma_buf_concat(ls.take(a), seq![ls[a]]);
    lemma_buf_concat(ls.take(a) + seq![ls[a]], ls.subrange(a + 1, b));
    lemma_buf_concat(ls.take(a) + seq![ls[a]] + ls.subrange(a + 1, b), seq![ls[b]]);
    lemma_buf_concat(
        ls.take(a) + seq![ls[a]] + ls.subrange(a + 1, b) + seq![ls[b]],
        ls.skip(b + 1),
    );
    lemma_buf_singleton(ls[a]);
    lemma_buf_singleton(ls[b]);
}

pub proof fn lemma_raw_concat(a: Seq<Seq<char>>, b: Seq<Seq<char>>)
    ensures
        raw_bytes(a + b) == raw_bytes(a) + raw_bytes(b),
    decreases b.len(),
{
    if b.len() == 0 {
        assert(a + b =~= a);
    } else {
        lemma_raw_concat(a, b.drop_last());
        assert((a + b).drop_last() =~= a + b.drop_last());
        assert((a + b).last() == b.last());
    }
}

pub proof fn lemma_raw_split(rs: Seq<Seq<char>>, i: int)
    requires
        0 <= i <= rs.len(),
    ensures
        raw_bytes(rs) == raw_bytes(rs.take(i)) + raw_bytes(rs.skip(i)),
{
    assert(rs.take(i) + rs.skip(i) =~= rs);
    lemma_raw_concat(rs.take(i), rs.skip(i));
}

/// The buffer transition function: what an edit does to the lines and which
/// edit undoes it. `None` means the edit does not apply and nothing changes.
/// Opaque so that stack-chain quantifiers can carry its applications as
/// atoms; reveal it to relate it to the per-kind functions.
#[verifier::opaque]
pub open spec fn spec_execute(ls: Seq<Seq<GrView>>, e: EditV) -> Option<
    (Seq<Seq<GrView>>, EditV),
> {
    match e {
        EditV::Insert(g, p) => spec_insert(ls, g, p),
        EditV::Overwrite(g, p) => spec_overwrite(ls, g, p),
        EditV::Delete(p) => spec_delete(ls, p),
        EditV::Paste(p, t) => spec_paste(ls, p, t),
        EditV::Cut(a, b) => spec_cut(ls, a, b),
        EditV::Replace(p, n, cs) => spec_replace(ls, p, n, cs),
    }
}

/// The ending style a physical first line announces: CRLF when it ends
/// with `"\r\n"`, LF otherwise.
pub open spec fn detected_ending(s: Seq<char>) -> LineEnding {
    if s.len() >= 2 && s[s.len() - 1] == '\n' && s[s.len() - 2] == '\r' {
        LineEnding::CRLF
    } else {
        LineEnding::LF
    }
}

/// A physical line with the buffer's detected ending removed: under CRLF a
/// final `"\r\n"` is stripped, under LF a final `"\n"` (a preceding
/// carriage return stays in the line). On a mixed-ending file, a line that
/// does not end with the detected ending still loses a bare trailing line
/// feed: a line never stores a line break (see [`crate::line::no_breaks`]).
pub open spec fn stripped(s: Seq<char>, e: LineEnding) -> Seq<char> {
    if e == LineEnding::CRLF && s.len() >= 2 && s[s.len() - 1] == '\n' && s[s.len() - 2]
        == '\r' {
        s.take(s.len() - 2)
    } else if s.len() >= 1 && s[s.len() - 1] == '\n' {
        s.take(s.len() - 1)
    } else {
        s
    }
}

/// Total byte count of a sequence of physical lines.
pub open spec fn raw_bytes(rs: Seq<Seq<char>>) -> nat
    decreases rs.len(),
{
    if rs.len() == 0 {
        0
    } else {
        raw_bytes(rs.drop_last()) + byte_count(rs.last())
    }
}

/// The buffer's full text: the lines' characters joined by the ending.
pub open spec fn render_chars(ls: Seq<Seq<GrView>>, e: LineEnding) -> Seq<char>
    decreases ls.len(),
{
    if ls.len() == 0 {
        Seq::empty()
    } else if ls.len() == 1 {
        seg_chars(ls[0])
    } else {
        render_chars(ls.drop_last(), e) + ending_chars(e) + seg_chars(ls.last())
    }
}

/// Why a save was refused.
#[derive(Clone, Copy, PartialEq, Eq, Structural, Debug)]
pub enum SaveError {
    Readonly,
    Conflict,
    PathExists,
}

/// The text buffer: lines, file metadata and the dirty flag. The
/// modification time is a plain number (an epoch stamp supplied by the
/// caller); the engine only ever compares such stamps.
pub struct Buffer {
    pub path: String,
    pub lines: Vec<Line>,
    pub modified: u64,
    pub ending: LineEnding,
    pub dirty: bool,
    pub readonly: bool,
}

impl View for Buffer {
    type V = Seq<Seq<GrView>>;

    open spec fn view(&self) -> Seq<Seq<GrView>> {
        self.lines.deep_view()
    }
}

impl Buffer {
    /// A buffer is never empty, its lines carry consistent caches, and its
    /// capacity measure stays within machine range.
    pub open spec fn wf(&self) -> bool {
        &&& self.lines@.len() >= 1
        &&& forall|i: int| 0 <= i < self.lines@.len() ==> (#[trigger] self.lines@[i]).wf()
        &&& lines_clean(self@)
        &&& buf_weight(self@) <= usize::MAX / 2
    }

    /// A fresh single-empty-line buffer.
    pub fn new(path: &str, config: &crate::Config) -> (r: Buffer)
        ensures
            r.wf(),
            r@ =~= seq![Seq::<GrView>::empty()],
            r.path@ == path@,
            r.dirty == false,
            r.readonly == config.readonly,
            r.ending == LineEnding::LF,
            r.modified == 0,
    {
        let mut lines: Vec<Line> = Vec::new();
        lines.push(Line::new());
        let r = Buffer {
            path: String::from_str(path),
            lines,
            modified: 0,
            ending: LineEnding::default(),
            dirty: false,
            readonly: config.readonly,
        };
        proof {
            assert(r@ =~= seq![Seq::<GrView>::empty()]);
            lemma_buf_singleton(Seq::<GrView>::empty());
        }
        r
    }

    /// The verified half of loading a file. Takes the file's physical
    /// lines, each still carrying its trailing ending; detects the ending
    /// style from the first line (CRLF when it ends with `"\r\n"`, LF
    /// otherwise); strips the detected ending from every line (see
    /// [`stripped`] for the one bare-line-feed corner); and never yields an
    /// empty buffer. Reading the file and its modification stamp is the
    /// caller's job; a missing or empty file is the empty `raw`. A line
    /// feed may appear only as a physical line's final character.
    pub fn build(
        path: &str,
        raw: &Vec<String>,
        modified: u64,
        config: &crate::Config,
    ) -> (r: Buffer)
        requires
            forall|i: int, j: int|
                0 <= i < raw@.len() && 0 <= j < raw@[i]@.len() - 1 ==> #[trigger] raw@[i]@[j]
                    != '\n',
            raw_bytes(raw.deep_view()) + 2 * raw@.len() + 2 <= usize::MAX / 2,
        ensures
            r.wf(),
            r.path@ == path@,
            r.modified == modified,
            r.dirty == false,
            r.readonly == config.readonly,
            raw@.len() == 0 ==> r@ == seq![Seq::<GrView>::empty()] && r.ending == LineEnding::LF,
            raw@.len() > 0 ==> r.ending == detected_ending(raw.deep_view()[0]) && r@.len()
                == raw@.len() && forall|i: int|
                0 <= i < raw@.len() ==> r@[i] == cells_of(
                    stripped(#[trigger] raw.deep_view()[i], detected_ending(raw.deep_view()[0])),
                ),
    {
        let n = raw.len();
        if n == 0 {
            let mut b = Buffer::new(path, config);
            b.modified = modified;
            proof {
                assert(b@ =~= seq![Seq::<GrView>::empty()]);
            }
            return b;
        }
        let ghost rv = raw.deep_view();
        let first = &raw[0];
        let fl = first.as_str().unicode_len();
        let ending = if fl >= 2 && first.as_str().get_char(fl - 1) == '\n' && first.as_str().get_char(
            fl - 2,
        ) == '\r' {
            LineEnding::CRLF
        } else {
            LineEnding::LF
        };
        proof {
            assert(ending == detected_ending(rv[0]));
        }
        let is_crlf = match ending {
            LineEnding::CRLF => true,
            LineEnding::LF => false,
        };
        let mut lines: Vec<Line> = Vec::new();
        let mut i: usize = 0;
        while i < n
            invariant
                forall|a: int, j: int|
                    0 <= a < raw@.len() && 0 <= j < raw@[a]@.len() - 1 ==> #[trigger] raw@[a]@[j]
                        != '\n',
                raw_bytes(rv) + 2 * raw@.len() + 2 <= usize::MAX / 2,
                rv == raw.deep_view(),
                n == raw@.len(),
                0 <= i <= n,
                lines@.len() == i,
                forall|t: int| 0 <= t < i ==> (#[trigger] lines@[t]).wf(),
                ending == detected_ending(rv[0]),
                is_crlf == (ending == LineEnding::CRLF),
                forall|t: int|
                    0 <= t < i ==> (#[trigger] lines@[t])@ == cells_of(stripped(rv[t], ending)),
                forall|t: int| 0 <= t < i ==> no_breaks((#[trigger] lines@[t])@),
                buf_bytes(lines.deep_view()) <= raw_bytes(rv.take(i as int)),
            decreases n - i,
        {
            let s = &raw[i];
            let sl = s.as_str().unicode_len();
            let content: &str = if is_crlf && sl >= 2 && s.as_str().get_char(sl - 1) == '\n'
                && s.as_str().get_char(sl - 2) == '\r' {
                s.as_str().substring_char(0, sl - 2)
            } else if sl >= 1 && s.as_str().get_char(sl - 1) == '\n' {
                s.as_str().substring_char(0, sl - 1)
            } else {
                s.as_str()
            };
            proof {
                assert(content@ =~= stripped(rv[i as int], ending));
                let m = stripped(rv[i as int], ending).len() as int;
                assert(rv[i as int] =~= rv[i as int].take(m) + rv[i as int].skip(m));
                crate::grapheme::lemma_byte_count_concat(
                    rv[i as int].take(m),
                    rv[i as int].skip(m),
                );
                assert(rv[i as int].take(m) =~= stripped(rv[i as int], ending));
                assert(raw_bytes(rv.take(i + 1)) == raw_bytes(rv.take(i as int)) + byte_count(
                    rv[i as int],
                )) by {
                    assert(rv.take(i + 1).drop_last() =~= rv.take(i as int));
                    assert(rv.take(i + 1).last() == rv[i as int]);
                }
                lemma_raw_split(rv, i + 1);
                assert(!stripped(rv[i as int], ending).contains('\n')) by {
                    if stripped(rv[i as int], ending).contains('\n') {
                        let j = choose|j: int|
                            0 <= j < stripped(rv[i as int], ending).len() && stripped(
                                rv[i as int],
                                ending,
                            )[j] == '\n';
                        assert(rv[i as int][j] == '\n');
                        assert(raw@[i as int]@[j] != '\n');
                    }
                }
            }
            let l = Line::from(content);
            proof {
                crate::line::lemma_no_breaks_from_chars(l@);
            }
            let ghost prev = lines.deep_view();
            lines.push(l);
            proof {
                assert(lines.deep_view() =~= prev.push(l@));
                assert(buf_bytes(prev.push(l@)) == buf_bytes(prev) + seg_bytes(l@)) by {
                    assert(prev.push(l@).drop_last() =~= prev);
                    assert(prev.push(l@).last() == l@);
                }
            }
            i = i + 1;
        }
        proof {
            assert(rv.take(n as int) =~= rv);
        }
        let r = Buffer {
            path: String::from_str(path),
            lines,
            modified,
            ending,
            dirty: false,
            readonly: config.readonly,
        };
        proof {
            assert forall|i: int| 0 <= i < r@.len() implies no_breaks(#[trigger] r@[i]) by {
                assert(r@[i] == r.lines@[i]@);
            }
        }
        r
    }

    /// Serializes the buffer: the lines' text joined by the fixed ending.
    pub fn render(&self) -> (r: String)
        requires
            self.wf(),
        ensures
            r@ == render_chars(self@, self.ending),
    {
        let n = self.lines.len();
        let mut out = String::new();
        let mut i: usize = 0;
        while i < n
            invariant
                self.wf(),
                n == self.lines@.len(),
                0 <= i <= n,
                out@ == render_chars(self@.take(i as int), self.ending),
            decreases n - i,
        {
            if i > 0 {
                let e = self.ending.value();
                out.append(e);
            }
            proof {
                assert(self.lines@[i as int].wf());
                assert(self@[i as int] == self.lines@[i as int]@);
            }
            let t = self.lines[i].text();
            out.append(t.as_str());
            proof {
                assert(self@.take(i + 1).drop_last() =~= self@.take(i as int));
                assert(self@.take(i + 1).last() == self@[i as int]);
                if i == 0 {
                    assert(self@.take(1)[0] == self@[0]);
                    assert(render_chars(self@.take(1), self.ending) == seg_chars(self@[0]));
                    assert(Seq::<char>::empty() + seg_chars(self@[0]) =~= seg_chars(self@[0]));
                }
            }
            i = i + 1;
        }
        proof {
            assert(self@.take(n as int) =~= self@);
        }
        out
    }

    /// Decides whether the buffer may be written to its own path, and
    /// serializes it. `disk_modified` is the on-disk modification stamp,
    /// `None` when the file does not exist. A readonly buffer is always
    /// refused; a file changed on disk after the last observed stamp is
    /// refused unless `overwrite` is set. Nothing in memory changes: the
    /// caller performs the write and then reports success through
    /// [`Buffer::mark_saved`], so a failed write leaves the buffer
    /// untouched.
    pub fn save(&self, overwrite: bool, disk_modified: Option<u64>) -> (r: Result<
        String,
        SaveError,
    >)
        requires
            self.wf(),
        ensures
            self.readonly ==> r == Result::<String, SaveError>::Err(SaveError::Readonly),
            !self.readonly && (disk_modified is Some && disk_modified->0 > self.modified
                && !overwrite) ==> r == Result::<String, SaveError>::Err(SaveError::Conflict),
            !self.readonly && !(disk_modified is Some && disk_modified->0 > self.modified
                && !overwrite) ==> r is Ok && r->Ok_0@ == render_chars(self@, self.ending),
    {
        if self.readonly {
            return Err(SaveError::Readonly);
        }
        match disk_modified {
            Some(m) => {
                if m > self.modified && !overwrite {
                    return Err(SaveError::Conflict);
                }
            },
            None => {},
        }
        Ok(self.render())
    }

    /// Like [`Buffer::save`], but for writing to another path: an existing
    /// target is refused first unless `overwrite` is set. The caller states
    /// whether the target exists and its modification stamp.
    pub fn save_as(&self, exists: bool, overwrite: bool, disk_modified: Option<u64>) -> (r:
        Result<String, SaveError>)
        requires
            self.wf(),
        ensures
            exists && !overwrite ==> r == Result::<String, SaveError>::Err(SaveError::PathExists),
            !(exists && !overwrite) && self.readonly ==> r == Result::<String, SaveError>::Err(
                SaveError::Readonly,
            ),
            !(exists && !overwrite) && !self.readonly && (disk_modified is Some
                && disk_modified->0 > self.modified && !overwrite) ==> r == Result::<
                String,
                SaveError,
            >::Err(SaveError::Conflict),
            !(exists && !overwrite) && !self.readonly && !(disk_modified is Some
                && disk_modified->0 > self.modified && !overwrite) ==> r is Ok && r->Ok_0@
                == render_chars(self@, self.ending),
    {
        if exists && !overwrite {
            return Err(SaveError::PathExists);
        }
        self.save(overwrite, disk_modified)
    }

    /// Records a successful write to the buffer's own path: clears the
    /// dirty flag and refreshes the modification stamp.
    pub fn mark_saved(&mut self, modified: u64)
        ensures
            final(self).dirty == false,
            final(self).modified == modified,
            final(self).lines == old(self).lines,
            final(self).path == old(self).path,
            final(self).ending == old(self).ending,
            final(self).readonly == old(self).readonly,
            old(self).wf() ==> final(self).wf(),
    {
        self.dirty = false;
        self.modified = modified;
    }

    /// Records a successful write to a new path: also adopts that path.
    pub fn mark_saved_as(&mut self, path: &str, modified: u64)
        ensures
            final(self).dirty == false,
            final(self).modified == modified,
            final(self).lines == old(self).lines,
            final(self).path@ == path@,
            final(self).ending == old(self).ending,
            final(self).readonly == old(self).readonly,
            old(self).wf() ==> final(self).wf(),
    {
        self.dirty = false;
        self.modified = modified;
        self.path = String::from_str(path);
    }

    /// Whether the buffer has unsaved changes.
    pub fn is_dirty(&self) -> (r: bool)
        ensures
            r == self.dirty,
    {
        self.dirty
    }

    /// Whether the buffer refuses writes.
    pub fn is_readonly(&self) -> (r: bool)
        ensures
            r == self.readonly,
    {
        self.readonly
    }

    /// All lines.
    pub fn lines(&self) -> (r: &Vec<Line>)
        ensures
            r == &self.lines,
    {
        &self.lines
    }

    /// A borrow of the line at a known-good index.
    pub fn line_at(&self, index: usize) -> (r: &Line)
        requires
            index < self.lines@.len(),
        ensures
            r == &self.lines@[index as int],
    {
        &self.lines[index]
    }

    /// One line, if the index is in range.
    pub fn line(&self, index: usize) -> (r: Option<&Line>)
        ensures
            index < self.lines@.len() ==> r is Some && r->0 == &self.lines@[index as int],
            index >= self.lines@.len() ==> r is None,
    {
        if index < self.lines.len() {
            Some(&self.lines[index])
        } else {
            None
        }
    }

    /// How many lines the buffer holds (always at least one).
    pub fn line_count(&self) -> (r: usize)
        ensures
            r == self.lines@.len(),
    {
        self.lines.len()
    }

    /// The line-ending convention, fixed at load.
    pub fn line_ending(&self) -> (r: &LineEnding)
        ensures
            r == &self.ending,
    {
        &self.ending
    }

    /// The file path this buffer belongs to.
    pub fn path(&self) -> (r: &String)
        ensures
            r == &self.path,
    {
        &self.path
    }

    /// Applies an edit and returns the edit that exactly undoes it, or
    /// `None` (leaving the lines untouched) when the edit does not apply.
    /// Every applied edit sets the dirty flag; the returned inverse is
    /// itself applicable to the resulting buffer.
    pub fn execute(&mut self, edit: &Edit) -> (r: Option<Edit>)
        requires
            old(self).wf(),
            edit.wf(),
            edit_ok(old(self)@, edit@),
            fits(old(self)@, edit_growth(edit@)),
        ensures
            final(self).wf(),
            final(self).path == old(self).path,
            final(self).modified == old(self).modified,
            final(self).ending == old(self).ending,
            final(self).readonly == old(self).readonly,
            match spec_execute(old(self)@, edit@) {
                None => r is None && final(self)@ == old(self)@ && final(self).dirty == old(
                    self,
                ).dirty,
                Some(t) => r is Some && final(self)@ == t.0 && r->0@ == t.1 && r->0.wf()
                    && edit_ok(t.0, t.1) && fits(t.0, edit_growth(t.1)) && final(self).dirty,
            },
    {
        proof {
            reveal(spec_execute);
        }
        let r = match edit {
            Edit::Insert(g, p) => self.exec_insert(g, *p),
            Edit::Overwrite(g, p) => self.exec_overwrite(g, *p),
            Edit::Delete(p) => self.exec_delete(*p),
            Edit::Paste(p, t) => self.exec_paste(*p, t),
            Edit::Cut(a, b) => self.exec_cut(*a, *b),
            Edit::Replace(p, n, l) => self.exec_replace(*p, *n, l),
        };
        if r.is_some() {
            self.dirty = true;
        }
        r
    }

    fn exec_insert(&mut self, g: &Grapheme, p: Point) -> (r: Option<Edit>)
        requires
            old(self).wf(),
            gr_wf(g@),
            p.y < old(self)@.len() ==> is_boundary(old(self)@[p.y as int], p.x as int),
            fits(old(self)@, edit_growth(EditV::Insert(g@, p))),
        ensures
            final(self).wf(),
            final(self).path == old(self).path,
            final(self).modified == old(self).modified,
            final(self).ending == old(self).ending,
            final(self).dirty == old(self).dirty,
            final(self).readonly == old(self).readonly,
            match spec_insert(old(self)@, g@, p) {
                None => r is None && final(self)@ == old(self)@,
                Some(t) => r is Some && final(self)@ == t.0 && r->0@ == t.1 && r->0.wf()
                    && edit_ok(t.0, t.1) && fits(t.0, edit_growth(t.1)),
            },
    {
        let y = p.y;
        if y >= self.lines.len() {
            return None;
        }
        let ghost ov = old(self)@;
        let ghost l = ov[y as int];
        proof {
            assert(self.lines@[y as int].wf());
            assert(l == self.lines@[y as int]@);
        }
        let mut line = self.lines.remove(y);
        let ghost k = boundary_index(l, p.x as int);
        if g.is_line_break() {
            let tail = line.split(p.x);
            self.lines.insert(y, line);
            self.lines.insert(y + 1, tail);
            proof {
                let ls2 = ov.update(y as int, l.take(k)).insert(y + 1, l.skip(k));
                assert(self@ =~= ls2);
                lemma_buf_update(ov, y as int, l.take(k));
                lemma_buf_insert(ov.update(y as int, l.take(k)), y + 1, l.skip(k));
                lemma_seg_split(l, k);
                assert forall|i: int| 0 <= i < self.lines@.len() implies (
                #[trigger] self.lines@[i]).wf() by {
                    if i < y {
                        assert(self.lines@[i] == old(self).lines@[i]);
                    } else if i > y + 1 {
                        assert(self.lines@[i] == old(self).lines@[i - 1]);
                    }
                }
                assert(byte_at(l, k) == p.x && 0 <= k <= l.len());
                assert(l.take(k).take(k) =~= l.take(k));
                assert(byte_at(l.take(k), k) == p.x);
                assert(is_boundary(l.take(k), p.x as int));
                assert(no_breaks(ov[y as int]));
                lemma_no_breaks_sub(l, 0, k);
                lemma_no_breaks_sub(l, k, l.len() as int);
                assert forall|i: int| 0 <= i < self@.len() implies no_breaks(
                    #[trigger] self@[i],
                ) by {
                    if i < y {
                        assert(self@[i] == ov[i]);
                    } else if i == y {
                        assert(self@[i] =~= l.subrange(0, k));
                    } else if i == y + 1 {
                        assert(self@[i] =~= l.subrange(k, l.len() as int));
                    } else {
                        assert(self@[i] == ov[i - 1]);
                    }
                }
            }
            Some(Edit::Delete(p))
        } else {
            let k2 = line.locate(p.x);
            proof {
                lemma_line_le_buf(ov, y as int);
                lemma_byte_count_bounds(g@.text);
                lemma_seg_width_le_bytes(l);
            }
            line.insert_cell(k2, g.copy_of());
            self.lines.insert(y, line);
            proof {
                let nl = l.insert(k, g@);
                let ls2 = ov.update(y as int, nl);
                assert(self@ =~= ls2);
                lemma_buf_update(ov, y as int, nl);
                lemma_seg_insert(l, k, g@);
                assert forall|i: int| 0 <= i < self.lines@.len() implies (
                #[trigger] self.lines@[i]).wf() by {
                    if i != y {
                        assert(self.lines@[i] == old(self).lines@[i]);
                    }
                }
                assert(byte_at(nl, k) == p.x) by {
                    assert(nl.take(k) =~= l.take(k));
                }
                assert(is_boundary(nl, p.x as int));
                assert(no_breaks(ov[y as int]));
                assert forall|i: int| 0 <= i < self@.len() implies no_breaks(
                    #[trigger] self@[i],
                ) by {
                    if i == y {
                        assert forall|j: int|
                            0 <= j < nl.len() implies (#[trigger] nl[j]).text != seq!['\n'] by {
                            if j < k {
                                assert(nl[j] == l[j]);
                            } else if j > k {
                                assert(nl[j] == l[j - 1]);
                            }
                        }
                    } else {
                        assert(self@[i] == ov[i]);
                    }
                }
            }
            Some(Edit::Delete(p))
        }
    }

    #[verifier::rlimit(50)]
    fn exec_overwrite(&mut self, g: &Grapheme, p: Point) -> (r: Option<Edit>)
        requires
            old(self).wf(),
            gr_wf(g@),
            g@.text != seq!['\n'],
            p.y < old(self)@.len() ==> is_boundary(old(self)@[p.y as int], p.x as int),
            fits(old(self)@, edit_growth(EditV::Overwrite(g@, p))),
        ensures
            final(self).wf(),
            final(self).path == old(self).path,
            final(self).modified == old(self).modified,
            final(self).ending == old(self).ending,
            final(self).dirty == old(self).dirty,
            final(self).readonly == old(self).readonly,
            match spec_overwrite(old(self)@, g@, p) {
                None => r is None && final(self)@ == old(self)@,
                Some(t) => r is Some && final(self)@ == t.0 && r->0@ == t.1 && r->0.wf()
                    && edit_ok(t.0, t.1) && fits(t.0, edit_growth(t.1)),
            },
    {
        let y = p.y;
        if y >= self.lines.len() {
            return None;
        }
        let ghost ov = old(self)@;
        let ghost l = ov[y as int];
        proof {
            assert(self.lines@[y as int].wf());
            assert(l == self.lines@[y as int]@);
        }
        let mut line = self.lines.remove(y);
        let ghost k = boundary_index(l, p.x as int);
        let k2 = line.locate(p.x);
        proof {
            lemma_line_le_buf(ov, y as int);
            lemma_byte_count_bounds(g@.text);
            lemma_seg_width_le_bytes(l);
        }
        if k2 < line.size() {
            let prev = line.remove_cell(k2);
            proof {
                lemma_seg_remove(l, k);
                lemma_seg_width_le_bytes(l.remove(k));
                lemma_byte_count_bounds(l[k].text);
            }
            line.insert_cell(k2, g.copy_of());
            self.lines.insert(y, line);
            proof {
                let nl = l.update(k, g@);
                let ls2 = ov.update(y as int, nl);
                assert(l.remove(k).insert(k, g@) =~= nl);
                assert(self@ =~= ls2);
                lemma_buf_update(ov, y as int, nl);
                lemma_seg_insert(l.remove(k), k, g@);
                assert forall|i: int| 0 <= i < self.lines@.len() implies (
                #[trigger] self.lines@[i]).wf() by {
                    if i != y {
                        assert(self.lines@[i] == old(self).lines@[i]);
                    }
                }
                assert(byte_at(nl, k) == p.x) by {
                    assert(nl.take(k) =~= l.take(k));
                }
                assert(is_boundary(nl, p.x as int));
                assert(no_breaks(ov[y as int]));
                assert forall|i: int| 0 <= i < self@.len() implies no_breaks(
                    #[trigger] self@[i],
                ) by {
                    if i == y {
                        assert forall|j: int|
                            0 <= j < nl.len() implies (#[trigger] nl[j]).text != seq!['\n'] by {
                            if j != k {
                                assert(nl[j] == l[j]);
                            }
                        }
                    } else {
                        assert(self@[i] == ov[i]);
                    }
                }
            }
            Some(Edit::Overwrite(prev, p))
        } else {
            line.insert_cell(k2, g.copy_of());
            self.lines.insert(y, line);
            proof {
                let nl = l.insert(k, g@);
                let ls2 = ov.update(y as int, nl);
                assert(self@ =~= ls2);
                lemma_buf_update(ov, y as int, nl);
                lemma_seg_insert(l, k, g@);
                assert forall|i: int| 0 <= i < self.lines@.len() implies (
                #[trigger] self.lines@[i]).wf() by {
                    if i != y {
                        assert(self.lines@[i] == old(self).lines@[i]);
                    }
                }
                assert(byte_at(nl, k) == p.x) by {
                    assert(nl.take(k) =~= l.take(k));
                }
                assert(is_boundary(nl, p.x as int));
                assert(no_breaks(ov[y as int]));
                assert forall|i: int| 0 <= i < self@.len() implies no_breaks(
                    #[trigger] self@[i],
                ) by {
                    if i == y {
                        assert forall|j: int|
                            0 <= j < nl.len() implies (#[trigger] nl[j]).text != seq!['\n'] by {
                            if j < k {
                                assert(nl[j] == l[j]);
                            } else if j > k {
                                assert(nl[j] == l[j - 1]);
                            }
                        }
                    } else {
                        assert(self@[i] == ov[i]);
                    }
                }
            }
            Some(Edit::Delete(p))
        }
    }

    #[verifier::rlimit(50)]
    fn exec_delete(&mut self, p: Point) -> (r: Option<Edit>)
        requires
            old(self).wf(),
            p.y < old(self)@.len() ==> is_boundary(old(self)@[p.y as int], p.x as int),
        ensures
            final(self).wf(),
            final(self).path == old(self).path,
            final(self).modified == old(self).modified,
            final(self).ending == old(self).ending,
            final(self).dirty == old(self).dirty,
            final(self).readonly == old(self).readonly,
            match spec_delete(old(self)@, p) {
                None => r is None && final(self)@ == old(self)@,
                Some(t) => r is Some && final(self)@ == t.0 && r->0@ == t.1 && r->0.wf()
                    && edit_ok(t.0, t.1) && fits(t.0, edit_growth(t.1)),
            },
    {
        let y = p.y;
        if y >= self.lines.len() {
            return None;
        }
        let ghost ov = old(self)@;
        let ghost l = ov[y as int];
        proof {
            assert(self.lines@[y as int].wf());
            assert(l == self.lines@[y as int]@);
        }
        let ghost k = boundary_index(l, p.x as int);
        let at_end = p.x >= self.lines[y].byte_len();
        proof {
            lemma_byte_at_mono(l, k, l.len() as int);
            assert(l.take(l.len() as int) =~= l);
            assert(byte_at(l, l.len() as int) == seg_bytes(l));
            if p.x >= seg_bytes(l) {
                lemma_boundary_unique(l, k, l.len() as int);
            }
        }
        if !at_end {
            let mut line = self.lines.remove(y);
            let k2 = line.locate(p.x);
            let prev = line.remove_cell(k2);
            self.lines.insert(y, line);
            proof {
                let nl = l.remove(k);
                let ls2 = ov.update(y as int, nl);
                assert(self@ =~= ls2);
                lemma_buf_update(ov, y as int, nl);
                lemma_seg_remove(l, k);
                lemma_byte_count_bounds(l[k].text);
                assert forall|i: int| 0 <= i < self.lines@.len() implies (
                #[trigger] self.lines@[i]).wf() by {
                    if i != y {
                        assert(self.lines@[i] == old(self).lines@[i]);
                    }
                }
                assert(byte_at(nl, k) == p.x) by {
                    assert(nl.take(k) =~= l.take(k));
                }
                assert(is_boundary(nl, p.x as int));
                assert(no_breaks(ov[y as int]));
                assert(prev@.text != seq!['\n']);
                assert forall|i: int| 0 <= i < self@.len() implies no_breaks(
                    #[trigger] self@[i],
                ) by {
                    if i == y {
                        assert forall|j: int|
                            0 <= j < nl.len() implies (#[trigger] nl[j]).text != seq!['\n'] by {
                            if j < k {
                                assert(nl[j] == l[j]);
                            } else {
                                assert(nl[j] == l[j + 1]);
                            }
                        }
                    } else {
                        assert(self@[i] == ov[i]);
                    }
                }
            }
            Some(Edit::Insert(prev, p))
        } else if y + 1 < self.lines.len() {
            let mut line = self.lines.remove(y);
            let next = self.lines.remove(y);
            proof {
                assert(next@ == ov[y + 1]);
                lemma_line_le_buf(ov, y as int);
                lemma_buf_remove(ov, y as int);
                lemma_line_le_buf(ov.remove(y as int), y as int);
            }
            line.concat(&next);
            self.lines.insert(y, line);
            proof {
                let joined = l + ov[y + 1];
                let ls2 = ov.update(y as int, joined).remove(y + 1);
                assert(self@ =~= ls2);
                lemma_buf_update(ov, y as int, joined);
                lemma_buf_remove(ov.update(y as int, joined), y + 1);
                assert(ov.update(y as int, joined)[y + 1] == ov[y + 1]);
                lemma_seg_concat(l, ov[y + 1]);
                assert forall|i: int| 0 <= i < self.lines@.len() implies (
                #[trigger] self.lines@[i]).wf() by {
                    if i < y {
                        assert(self.lines@[i] == old(self).lines@[i]);
                    } else if i > y {
                        assert(self.lines@[i] == old(self).lines@[i + 1]);
                    }
                }
                assert(byte_at(joined, k) == p.x) by {
                    assert(joined.take(k) =~= l.take(k));
                }
                assert(is_boundary(joined, p.x as int));
                lemma_byte_count_bounds(seq!['\n']);
                assert(no_breaks(ov[y as int]));
                assert(no_breaks(ov[y + 1]));
                lemma_no_breaks_concat(l, ov[y + 1]);
                assert forall|i: int| 0 <= i < self@.len() implies no_breaks(
                    #[trigger] self@[i],
                ) by {
                    if i < y {
                        assert(self@[i] == ov[i]);
                    } else if i > y {
                        assert(self@[i] == ov[i + 1]);
                    }
                }
            }
            Some(Edit::Insert(Grapheme::line_break(), p))
        } else {
            None
        }
    }

    fn exec_cut(&mut self, a: Point, b: Point) -> (r: Option<Edit>)
        requires
            old(self).wf(),
            edit_ok(old(self)@, EditV::Cut(a, b)),
        ensures
            final(self).wf(),
            final(self).path == old(self).path,
            final(self).modified == old(self).modified,
            final(self).ending == old(self).ending,
            final(self).dirty == old(self).dirty,
            final(self).readonly == old(self).readonly,
            match spec_cut(old(self)@, a, b) {
                None => r is None && final(self)@ == old(self)@,
                Some(t) => r is Some && final(self)@ == t.0 && r->0@ == t.1 && r->0.wf()
                    && edit_ok(t.0, t.1) && fits(t.0, edit_growth(t.1)),
            },
    {
        if a.y == b.y {
            self.exec_cut_one(a, b)
        } else {
            self.exec_cut_multi(a, b)
        }
    }

    #[verifier::rlimit(60)]
    fn exec_cut_one(&mut self, a: Point, b: Point) -> (r: Option<Edit>)
        requires
            old(self).wf(),
            edit_ok(old(self)@, EditV::Cut(a, b)),
            a.y == b.y,
        ensures
            final(self).wf(),
            final(self).path == old(self).path,
            final(self).modified == old(self).modified,
            final(self).ending == old(self).ending,
            final(self).dirty == old(self).dirty,
            final(self).readonly == old(self).readonly,
            match spec_cut(old(self)@, a, b) {
                None => r is None && final(self)@ == old(self)@,
                Some(t) => r is Some && final(self)@ == t.0 && r->0@ == t.1 && r->0.wf()
                    && edit_ok(t.0, t.1) && fits(t.0, edit_growth(t.1)),
            },
    {
        let ghost ov = old(self)@;
        let ghost l = ov[a.y as int];
        proof {
            assert(self.lines@[a.y as int].wf());
            assert(l == self.lines@[a.y as int]@);
        }
        let mut line = self.lines.remove(a.y);
        let removed = line.delete(a.x, b.x);
        self.lines.insert(a.y, line);
        let mut tl: Vec<Line> = Vec::new();
        tl.push(removed);
        let ghost ka = boundary_index(l, a.x as int);
        let ghost kb = boundary_index(l, b.x as int);
        proof {
            let nl = l.take(ka) + l.skip(kb);
            let ls2 = ov.update(a.y as int, nl);
            let rem = seq![l.subrange(ka, kb)];
            assert(self@ =~= ls2);
            assert(tl.deep_view() =~= rem);
            lemma_buf_update(ov, a.y as int, nl);
            lemma_seg_concat(l.take(ka), l.skip(kb));
            lemma_seg_range(l, ka, kb);
            lemma_seg_split(l, kb);
            lemma_seg_split(l, ka);
            assert forall|i: int| 0 <= i < self.lines@.len() implies (
            #[trigger] self.lines@[i]).wf() by {
                if i != a.y {
                    assert(self.lines@[i] == old(self).lines@[i]);
                }
            }
            assert(no_breaks(ov[a.y as int]));
            lemma_no_breaks_sub(l, 0, ka);
            lemma_no_breaks_sub(l, kb, l.len() as int);
            lemma_no_breaks_concat(l.take(ka), l.skip(kb));
            lemma_no_breaks_sub(l, ka, kb);
            assert forall|i: int| 0 <= i < self@.len() implies no_breaks(
                #[trigger] self@[i],
            ) by {
                if i != a.y {
                    assert(self@[i] == ov[i]);
                }
            }
            assert(byte_at(nl, ka) == a.x) by {
                assert(nl.take(ka) =~= l.take(ka));
                assert(l.take(ka).take(ka) =~= l.take(ka));
            }
            assert(is_boundary(nl, a.x as int));
            lemma_buf_singleton(l.subrange(ka, kb));
            assert(lines_wf(rem) && lines_clean(rem)) by {
                assert(rem[0] == l.subrange(ka, kb));
            }
        }
        Some(Edit::Paste(a, Text { lines: tl }))
    }

    #[verifier::rlimit(100)]
    fn exec_cut_multi(&mut self, a: Point, b: Point) -> (r: Option<Edit>)
        requires
            old(self).wf(),
            edit_ok(old(self)@, EditV::Cut(a, b)),
            a.y != b.y,
        ensures
            final(self).wf(),
            final(self).path == old(self).path,
            final(self).modified == old(self).modified,
            final(self).ending == old(self).ending,
            final(self).dirty == old(self).dirty,
            final(self).readonly == old(self).readonly,
            match spec_cut(old(self)@, a, b) {
                None => r is None && final(self)@ == old(self)@,
                Some(t) => r is Some && final(self)@ == t.0 && r->0@ == t.1 && r->0.wf()
                    && edit_ok(t.0, t.1) && fits(t.0, edit_growth(t.1)),
            },
    {
        let ghost ov = old(self)@;
        let ghost os = old(self).lines@;
        let ghost la = ov[a.y as int];
        let ghost lb = ov[b.y as int];
        let ghost ka = boundary_index(la, a.x as int);
        let ghost kb = boundary_index(lb, b.x as int);
        proof {
            assert(self.lines@[a.y as int].wf());
            assert(self.lines@[b.y as int].wf());
            assert(la == self.lines@[a.y as int]@);
            assert(lb == self.lines@[b.y as int]@);
        }
        let mut first = self.lines.remove(a.y);
        let tail_first = first.split(a.x);
        let m = b.y - a.y - 1;
        let mut mids: Vec<Line> = Vec::new();
        let mut j: usize = 0;
        proof {
            assert(self.lines@ =~= os.take(a.y as int) + os.skip(a.y + 1));
        }
        while j < m
            invariant
                0 <= j <= m,
                m == b.y - a.y - 1,
                a.y < b.y < os.len(),
                forall|i: int| 0 <= i < os.len() ==> (#[trigger] os[i]).wf(),
                self.lines@ == os.take(a.y as int) + os.skip(a.y + 1 + j),
                mids@ == os.subrange(a.y + 1, a.y + 1 + j),
                self.path == old(self).path,
                self.modified == old(self).modified,
                self.ending == old(self).ending,
                self.dirty == old(self).dirty,
                self.readonly == old(self).readonly,
            decreases m - j,
        {
            proof {
                assert(self.lines@.len() == os.len() - 1 - j);
                assert(self.lines@[a.y as int] == os[a.y + 1 + j]);
            }
            let ln = self.lines.remove(a.y);
            mids.push(ln);
            proof {
                assert(self.lines@ =~= os.take(a.y as int) + os.skip(a.y + 2 + j));
                assert(mids@ =~= os.subrange(a.y + 1, a.y + 2 + j));
            }
            j = j + 1;
        }
        proof {
            assert(self.lines@[a.y as int] == os[b.y as int]);
        }
        let mut last = self.lines.remove(a.y);
        let last_tail = last.split(b.x);
        proof {
            lemma_buf_remove(ov, b.y as int);
            assert(ov.remove(b.y as int)[a.y as int] == ov[a.y as int]);
            lemma_line_le_buf(ov.remove(b.y as int), a.y as int);
            lemma_seg_split(la, ka);
            lemma_seg_split(lb, kb);
        }
        first.concat(&last_tail);
        self.lines.insert(a.y, first);
        let mut tl: Vec<Line> = Vec::new();
        tl.push(tail_first);
        tl.append(&mut mids);
        tl.push(last);
        proof {
            let joined = la.take(ka) + lb.skip(kb);
            let ls2 = ov.take(a.y as int) + seq![joined] + ov.skip(b.y + 1);
            let rem = seq![la.skip(ka)] + ov.subrange(a.y + 1, b.y as int) + seq![
                lb.take(kb),
            ];
            assert(self@ =~= ls2);
            assert(tl.deep_view() =~= rem);
            lemma_buf_concat(ov.take(a.y as int), seq![joined]);
            lemma_buf_concat(ov.take(a.y as int) + seq![joined], ov.skip(b.y + 1));
            lemma_buf_singleton(joined);
            lemma_buf_concat(seq![la.skip(ka)], ov.subrange(a.y + 1, b.y as int));
            lemma_buf_concat(
                seq![la.skip(ka)] + ov.subrange(a.y + 1, b.y as int),
                seq![lb.take(kb)],
            );
            lemma_buf_singleton(la.skip(ka));
            lemma_buf_singleton(lb.take(kb));
            lemma_seg_concat(la.take(ka), lb.skip(kb));
            assert(buf_bytes(ov) == buf_bytes(ov.take(a.y as int)) + seg_bytes(la)
                + buf_bytes(ov.subrange(a.y + 1, b.y as int)) + seg_bytes(lb) + buf_bytes(
                ov.skip(b.y + 1),
            )) by {
                lemma_buf_split(ov, a.y as int);
                assert(ov.skip(a.y as int).drop_first() =~= ov.skip(a.y + 1));
                assert(buf_bytes(ov.skip(a.y as int)) == seg_bytes(la) + buf_bytes(
                    ov.skip(a.y + 1),
                )) by {
                    assert(ov.skip(a.y as int) =~= seq![la] + ov.skip(a.y + 1));
                    lemma_buf_concat(seq![la], ov.skip(a.y + 1));
                    lemma_buf_singleton(la);
                }
                assert(ov.skip(a.y + 1) =~= ov.subrange(a.y + 1, b.y as int) + seq![lb]
                    + ov.skip(b.y + 1));
                lemma_buf_concat(ov.subrange(a.y + 1, b.y as int), seq![lb]);
                lemma_buf_concat(
                    ov.subrange(a.y + 1, b.y as int) + seq![lb],
                    ov.skip(b.y + 1),
                );
                lemma_buf_singleton(lb);
            }
            assert forall|i: int| 0 <= i < self.lines@.len() implies (
            #[trigger] self.lines@[i]).wf() by {
                if i < a.y {
                    assert(self.lines@[i] == os[i]);
                } else if i > a.y {
                    assert(self.lines@[i] == os[i + (b.y - a.y)]);
                }
            }
            assert(no_breaks(ov[a.y as int]));
            assert(no_breaks(ov[b.y as int]));
            lemma_no_breaks_sub(la, 0, ka);
            lemma_no_breaks_sub(la, ka, la.len() as int);
            lemma_no_breaks_sub(lb, 0, kb);
            lemma_no_breaks_sub(lb, kb, lb.len() as int);
            lemma_no_breaks_concat(la.take(ka), lb.skip(kb));
            assert forall|i: int| 0 <= i < ls2.len() implies no_breaks(
                #[trigger] ls2[i],
            ) by {
                if i < a.y {
                    assert(ls2[i] == ov[i]);
                } else if i > a.y {
                    assert(ls2[i] == ov[i + (b.y - a.y)]);
                }
            }
            assert forall|i: int| 0 <= i < rem.len() implies no_breaks(#[trigger] rem[i])
                && cells_wf(rem[i]) by {
                if i == 0 {
                    assert(rem[i] == la.skip(ka));
                } else if i < rem.len() - 1 {
                    assert(rem[i] == ov[a.y + i]);
                    assert(no_breaks(ov[a.y + i]));
                    assert(cells_wf(ov[a.y + i]));
                    lemma_no_breaks_sub(ov[a.y + i], 0, ov[a.y + i].len() as int);
                } else {
                    assert(rem[i] == lb.take(kb));
                }
            }
            assert(byte_at(joined, ka) == a.x) by {
                assert(joined.take(ka) =~= la.take(ka));
                assert(la.take(ka).take(ka) =~= la.take(ka));
            }
            assert(is_boundary(joined, a.x as int));
            assert(ls2[a.y as int] == joined);
            assert forall|i: int|
                0 <= i < tl@.len() implies (#[trigger] tl@[i]).wf() by {
                if 0 < i < tl@.len() - 1 {
                    assert(tl@[i] == os[a.y + 1 + (i - 1)]);
                }
            }
        }
        Some(Edit::Paste(a, Text { lines: tl }))
    }


    fn exec_paste(&mut self, p: Point, t: &Text) -> (r: Option<Edit>)
        requires
            old(self).wf(),
            t.wf(),
            edit_ok(old(self)@, EditV::Paste(p, t@)),
            fits(old(self)@, edit_growth(EditV::Paste(p, t@))),
        ensures
            final(self).wf(),
            final(self).path == old(self).path,
            final(self).modified == old(self).modified,
            final(self).ending == old(self).ending,
            final(self).dirty == old(self).dirty,
            final(self).readonly == old(self).readonly,
            match spec_paste(old(self)@, p, t@) {
                None => r is None && final(self)@ == old(self)@,
                Some(w) => r is Some && final(self)@ == w.0 && r->0@ == w.1 && r->0.wf()
                    && edit_ok(w.0, w.1) && fits(w.0, edit_growth(w.1)),
            },
    {
        if t.lines.len() == 1 {
            self.exec_paste_one(p, t)
        } else {
            self.exec_paste_multi(p, t)
        }
    }

    #[verifier::rlimit(60)]
    fn exec_paste_one(&mut self, p: Point, t: &Text) -> (r: Option<Edit>)
        requires
            old(self).wf(),
            t.wf(),
            t@.len() == 1,
            edit_ok(old(self)@, EditV::Paste(p, t@)),
            fits(old(self)@, edit_growth(EditV::Paste(p, t@))),
        ensures
            final(self).wf(),
            final(self).path == old(self).path,
            final(self).modified == old(self).modified,
            final(self).ending == old(self).ending,
            final(self).dirty == old(self).dirty,
            final(self).readonly == old(self).readonly,
            match spec_paste(old(self)@, p, t@) {
                None => r is None && final(self)@ == old(self)@,
                Some(w) => r is Some && final(self)@ == w.0 && r->0@ == w.1 && r->0.wf()
                    && edit_ok(w.0, w.1) && fits(w.0, edit_growth(w.1)),
            },
    {
        let ghost ov = old(self)@;
        let ghost l = ov[p.y as int];
        let ghost k = boundary_index(l, p.x as int);
        let ghost t0 = t@[0];
        proof {
            assert(self.lines@[p.y as int].wf());
            assert(l == self.lines@[p.y as int]@);
            assert(t.lines@[0].wf());
            assert(t0 == t.lines@[0]@);
            lemma_line_le_buf(ov, p.y as int);
            lemma_buf_singleton(t0);
            assert(buf_bytes(t@) == seg_bytes(t0)) by {
                assert(t@ =~= seq![t0]);
            }
            lemma_seg_split(l, k);
        }
        let mut line = self.lines.remove(p.y);
        let tail = line.split(p.x);
        proof {
            lemma_seg_concat(l.take(k), t0);
        }
        line.concat(&t.lines[0]);
        line.concat(&tail);
        self.lines.insert(p.y, line);
        let tb = t.lines[0].byte_len();
        proof {
            lemma_byte_at_mono(l, k, l.len() as int);
        }
        let end = Point { x: p.x + tb, y: p.y };
        proof {
            let merged = l.take(k) + t0 + l.skip(k);
            let ls2 = ov.update(p.y as int, merged);
            assert(self@ =~= ls2);
            lemma_buf_update(ov, p.y as int, merged);
            lemma_seg_concat(l.take(k), t0);
            lemma_seg_concat(l.take(k) + t0, l.skip(k));
            assert forall|i: int| 0 <= i < self.lines@.len() implies (
            #[trigger] self.lines@[i]).wf() by {
                if i != p.y {
                    assert(self.lines@[i] == old(self).lines@[i]);
                }
            }
            assert(no_breaks(ov[p.y as int]));
            assert(no_breaks(t@[0]));
            lemma_no_breaks_sub(l, 0, k);
            lemma_no_breaks_sub(l, k, l.len() as int);
            lemma_no_breaks_concat(l.take(k), t0);
            lemma_no_breaks_concat(l.take(k) + t0, l.skip(k));
            assert forall|i: int| 0 <= i < self@.len() implies no_breaks(
                #[trigger] self@[i],
            ) by {
                if i != p.y {
                    assert(self@[i] == ov[i]);
                }
            }
            assert(byte_at(merged, k) == p.x) by {
                assert(merged.take(k) =~= l.take(k));
                assert(l.take(k).take(k) =~= l.take(k));
            }
            assert(is_boundary(merged, p.x as int));
            assert(byte_at(merged, k + t0.len()) == p.x + seg_bytes(t0)) by {
                assert(merged.take(k + t0.len()) =~= l.take(k) + t0);
            }
            assert(is_boundary(merged, p.x + seg_bytes(t0)));
        }
        Some(Edit::Cut(p, end))
    }

    #[verifier::rlimit(100)]
    fn exec_paste_multi(&mut self, p: Point, t: &Text) -> (r: Option<Edit>)
        requires
            old(self).wf(),
            t.wf(),
            t@.len() >= 2,
            edit_ok(old(self)@, EditV::Paste(p, t@)),
            fits(old(self)@, edit_growth(EditV::Paste(p, t@))),
        ensures
            final(self).wf(),
            final(self).path == old(self).path,
            final(self).modified == old(self).modified,
            final(self).ending == old(self).ending,
            final(self).dirty == old(self).dirty,
            final(self).readonly == old(self).readonly,
            match spec_paste(old(self)@, p, t@) {
                None => r is None && final(self)@ == old(self)@,
                Some(w) => r is Some && final(self)@ == w.0 && r->0@ == w.1 && r->0.wf()
                    && edit_ok(w.0, w.1) && fits(w.0, edit_growth(w.1)),
            },
    {
        let ghost ov = old(self)@;
        let ghost os = old(self).lines@;
        let ghost l = ov[p.y as int];
        let ghost k = boundary_index(l, p.x as int);
        let n = t.lines.len();
        proof {
            assert(self.lines@[p.y as int].wf());
            assert(l == self.lines@[p.y as int]@);
            assert(t.lines@[0].wf());
            assert(t.lines@[n - 1].wf());
            lemma_line_le_buf(ov, p.y as int);
            lemma_buf_five(t@, 0, n - 1);
            assert(t@.take(0) =~= Seq::<Seq<GrView>>::empty());
            assert(t@.skip(n as int) =~= Seq::<Seq<GrView>>::empty());
            lemma_seg_split(l, k);
        }
        let mut line = self.lines.remove(p.y);
        let tail = line.split(p.x);
        line.concat(&t.lines[0]);
        self.lines.insert(p.y, line);
        let ghost first_v = l.take(k) + t@[0];
        let mut j: usize = 1;
        proof {
            assert(self.lines@ =~= os.update(p.y as int, self.lines@[p.y as int]));
            assert(self@ =~= ov.take(p.y as int) + seq![first_v] + t@.subrange(1, 1) + ov.skip(
                p.y + 1,
            )) by {
                assert(t@.subrange(1, 1) =~= Seq::<Seq<GrView>>::empty());
            }
            assert(2 * ov.len() <= buf_weight(ov));
            assert(2 * t@.len() <= edit_growth(EditV::Paste(p, t@)) + 2);
        }
        while j < n - 1
            invariant
                1 <= j <= n - 1,
                n == t@.len(),
                n >= 2,
                t.wf(),
                p.y < ov.len(),
                ov.len() + n <= usize::MAX / 2,
                self.lines@.len() == ov.len() + j - 1,
                self@ == ov.take(p.y as int) + seq![first_v] + t@.subrange(1, j as int)
                    + ov.skip(p.y + 1),
                forall|i: int|
                    0 <= i < self.lines@.len() ==> (#[trigger] self.lines@[i]).wf(),
                self.path == old(self).path,
                self.modified == old(self).modified,
                self.ending == old(self).ending,
                self.dirty == old(self).dirty,
                self.readonly == old(self).readonly,
            decreases n - 1 - j,
        {
            proof {
                assert(t.lines@[j as int].wf());
            }
            let dup = t.lines[j].duplicate();
            let ghost before = self.lines@;
            let ghost prev = self@;
            self.lines.insert(p.y + j, dup);
            proof {
                assert(self@ =~= prev.insert(p.y + j, t@[j as int]));
                assert(prev.insert(p.y + j, t@[j as int]) =~= ov.take(p.y as int) + seq![
                    first_v,
                ] + t@.subrange(1, j + 1) + ov.skip(p.y + 1));
                assert forall|i: int| 0 <= i < self.lines@.len() implies (
                #[trigger] self.lines@[i]).wf() by {
                    if i < p.y + j {
                        assert(self.lines@[i] == before[i]);
                    } else if i > p.y + j {
                        assert(self.lines@[i] == before[i - 1]);
                    }
                }
            }
            j = j + 1;
        }
        let mut lastline = t.lines[n - 1].duplicate();
        let lb2 = lastline.byte_len();
        proof {
            lemma_line_le_buf(t@, n - 1);
            assert(seg_bytes(t@[n - 1]) <= buf_bytes(t@));
        }
        lastline.concat(&tail);
        let ghost before = self.lines@;
        let ghost prev2 = self@;
        self.lines.insert(p.y + n - 1, lastline);
        let end = Point { x: lb2, y: p.y + n - 1 };
        proof {
            let last_v = t@.last() + l.skip(k);
            let ls2 = ov.take(p.y as int) + seq![first_v] + t@.subrange(1, n - 1) + seq![
                last_v,
            ] + ov.skip(p.y + 1);
            assert(self@ =~= prev2.insert(p.y + n - 1, last_v));
            assert(prev2.insert(p.y + n - 1, last_v) =~= ls2);
            assert(self@ == ls2);
            lemma_buf_concat(ov.take(p.y as int), seq![first_v]);
            lemma_buf_concat(ov.take(p.y as int) + seq![first_v], t@.subrange(1, n - 1));
            lemma_buf_concat(
                ov.take(p.y as int) + seq![first_v] + t@.subrange(1, n - 1),
                seq![last_v],
            );
            lemma_buf_concat(
                ov.take(p.y as int) + seq![first_v] + t@.subrange(1, n - 1) + seq![last_v],
                ov.skip(p.y + 1),
            );
            lemma_buf_singleton(first_v);
            lemma_buf_singleton(last_v);
            lemma_seg_concat(l.take(k), t@[0]);
            lemma_seg_concat(t@.last(), l.skip(k));
            assert(buf_bytes(ov) == buf_bytes(ov.take(p.y as int)) + seg_bytes(l) + buf_bytes(
                ov.skip(p.y + 1),
            )) by {
                assert(ov =~= ov.take(p.y as int) + seq![l] + ov.skip(p.y + 1));
                lemma_buf_concat(ov.take(p.y as int), seq![l]);
                lemma_buf_concat(ov.take(p.y as int) + seq![l], ov.skip(p.y + 1));
                lemma_buf_singleton(l);
            }
            assert forall|i: int| 0 <= i < self.lines@.len() implies (
            #[trigger] self.lines@[i]).wf() by {
                if i < p.y + n - 1 {
                    assert(self.lines@[i] == before[i]);
                } else if i > p.y + n - 1 {
                    assert(self.lines@[i] == before[i - 1]);
                }
            }
            assert(no_breaks(ov[p.y as int]));
            lemma_no_breaks_sub(l, 0, k);
            lemma_no_breaks_sub(l, k, l.len() as int);
            assert(no_breaks(t@[0]));
            assert(no_breaks(t@[n - 1]));
            lemma_no_breaks_concat(l.take(k), t@[0]);
            lemma_no_breaks_concat(t@.last(), l.skip(k));
            assert forall|i: int| 0 <= i < ls2.len() implies no_breaks(#[trigger] ls2[i]) by {
                if i < p.y {
                    assert(ls2[i] == ov[i]);
                } else if i == p.y {
                    assert(ls2[i] == first_v);
                } else if i < p.y + n - 1 {
                    assert(ls2[i] == t@[i - p.y]);
                    assert(no_breaks(t@[i - p.y]));
                } else if i == p.y + n - 1 {
                    assert(ls2[i] == last_v);
                } else {
                    assert(ls2[i] == ov[i - (n - 1)]);
                }
            }
            assert(byte_at(first_v, k) == p.x) by {
                assert(first_v.take(k) =~= l.take(k));
                assert(l.take(k).take(k) =~= l.take(k));
            }
            assert(is_boundary(first_v, p.x as int));
            assert(ls2[p.y as int] == first_v);
            assert(ls2[p.y + n - 1] == last_v);
            assert(byte_at(last_v, t@.last().len() as int) == seg_bytes(t@.last())) by {
                assert(last_v.take(t@.last().len() as int) =~= t@.last());
                assert(t@.last().take(t@.last().len() as int) =~= t@.last());
            }
            assert(is_boundary(last_v, seg_bytes(t@.last()) as int));
        }
        Some(Edit::Cut(p, end))
    }

    #[verifier::rlimit(100)]
    fn exec_replace(&mut self, p: Point, n: usize, repl: &Line) -> (r: Option<Edit>)
        requires
            old(self).wf(),
            repl.wf(),
            edit_ok(old(self)@, EditV::Replace(p, n as nat, repl@)),
            fits(old(self)@, edit_growth(EditV::Replace(p, n as nat, repl@))),
        ensures
            final(self).wf(),
            final(self).path == old(self).path,
            final(self).modified == old(self).modified,
            final(self).ending == old(self).ending,
            final(self).dirty == old(self).dirty,
            final(self).readonly == old(self).readonly,
            match spec_replace(old(self)@, p, n as nat, repl@) {
                None => r is None && final(self)@ == old(self)@,
                Some(w) => r is Some && final(self)@ == w.0 && r->0@ == w.1 && r->0.wf()
                    && edit_ok(w.0, w.1) && fits(w.0, edit_growth(w.1)),
            },
    {
        let y = p.y;
        if y >= self.lines.len() {
            return None;
        }
        let ghost ov = old(self)@;
        let ghost l = ov[y as int];
        let ghost ks = boundary_index(l, p.x as int);
        let ghost ke = boundary_index(l, p.x + n);
        proof {
            assert(self.lines@[y as int].wf());
            assert(l == self.lines@[y as int]@);
            lemma_line_le_buf(ov, y as int);
            let w = choose|w: int| 0 <= w <= l.len() && byte_at(l, w) == p.x + n;
            lemma_byte_at_mono(l, w, l.len() as int);
            assert(l.take(l.len() as int) =~= l);
        }
        let mut line = self.lines.remove(y);
        let removed = line.delete(p.x, p.x + n);
        let ghost gap = l.take(ks) + l.skip(ke);
        proof {
            assert(gap.take(ks) =~= l.take(ks));
            lemma_seg_split(l, ks);
            assert(byte_at(gap, ks) == p.x);
            assert(is_boundary(gap, p.x as int));
            lemma_boundary_unique(gap, ks, boundary_index(gap, p.x as int));
            lemma_seg_concat(l.take(ks), l.skip(ke));
            lemma_seg_split(l, ke);
        }
        let tail2 = line.split(p.x);
        proof {
            assert(line@ =~= l.take(ks));
            assert(tail2@ =~= l.skip(ke));
        }
        proof {
            lemma_seg_concat(l.take(ks), repl@);
        }
        line.concat(repl);
        line.concat(&tail2);
        self.lines.insert(y, line);
        let nb = repl.byte_len();
        proof {
            let merged = l.take(ks) + repl@ + l.skip(ke);
            let ls2 = ov.update(y as int, merged);
            assert(self@ =~= ls2);
            lemma_buf_update(ov, y as int, merged);
            lemma_seg_concat(l.take(ks), repl@);
            lemma_seg_concat(l.take(ks) + repl@, l.skip(ke));
            lemma_seg_range(l, ks, ke);
            assert forall|i: int| 0 <= i < self.lines@.len() implies (
            #[trigger] self.lines@[i]).wf() by {
                if i != y {
                    assert(self.lines@[i] == old(self).lines@[i]);
                }
            }
            assert(no_breaks(ov[y as int]));
            lemma_no_breaks_sub(l, 0, ks);
            lemma_no_breaks_sub(l, ke, l.len() as int);
            lemma_no_breaks_sub(l, ks, ke);
            lemma_no_breaks_concat(l.take(ks), repl@);
            lemma_no_breaks_concat(l.take(ks) + repl@, l.skip(ke));
            assert forall|i: int| 0 <= i < self@.len() implies no_breaks(
                #[trigger] self@[i],
            ) by {
                if i != y {
                    assert(self@[i] == ov[i]);
                }
            }
            assert(byte_at(merged, ks) == p.x) by {
                assert(merged.take(ks) =~= l.take(ks));
                assert(l.take(ks).take(ks) =~= l.take(ks));
            }
            assert(is_boundary(merged, p.x as int));
            assert(byte_at(merged, ks + repl@.len()) == p.x + seg_bytes(repl@)) by {
                assert(merged.take(ks + repl@.len()) =~= l.take(ks) + repl@);
            }
            assert(is_boundary(merged, p.x + seg_bytes(repl@)));
        }
        Some(Edit::Replace(p, nb, removed))
    }

    /// The capacity measure now in use: bytes plus two units per line.
    /// Callers hold it under `usize::MAX / 2` before growing the buffer.
    pub fn weight(&self) -> (r: usize)
        requires
            self.wf(),
        ensures
            r == buf_weight(self@),
    {
        let n = self.lines.len();
        let mut acc: usize = 0;
        let mut i: usize = 0;
        while i < n
            invariant
                self.wf(),
                n == self.lines@.len(),
                0 <= i <= n,
                acc == buf_bytes(self@.take(i as int)) + 2 * i,
            decreases n - i,
        {
            proof {
                assert(self@.take(i + 1).drop_last() =~= self@.take(i as int));
                assert(self@.take(i + 1).last() == self@[i as int]);
                lemma_buf_split(self@, i + 1);
                assert(self@[i as int] == self.lines@[i as int]@);
                assert(self.lines@[i as int].wf());
            }
            let b = self.lines[i].byte_len();
            acc = acc + b + 2;
            i = i + 1;
        }
        proof {
            assert(self@.take(n as int) =~= self@);
        }
        acc
    }
}

/// A well-formed buffer's view satisfies the model invariant.
pub proof fn lemma_model_wf(b: &Buffer)
    requires
        b.wf(),
    ensures
        model_wf(b@),
{
    assert forall|i: int| 0 <= i < b@.len() implies cells_wf(#[trigger] b@[i]) by {
        assert(b@[i] == b.lines@[i]@);
        assert(b.lines@[i].wf());
    }
}

proof fn lemma_inv_insert(ls: Seq<Seq<GrView>>, g: GrView, p: Point)
    requires
        model_wf(ls),
        edit_ok(ls, EditV::Insert(g, p)),
        p.y < ls.len(),
    ensures
        spec_insert(ls, g, p) is Some,
        spec_execute((spec_insert(ls, g, p)->0).0, (spec_insert(ls, g, p)->0).1) is Some,
        (spec_execute((spec_insert(ls, g, p)->0).0, (spec_insert(ls, g, p)->0).1)->0).0 == ls,
{
    reveal(spec_execute);
    let l = ls[p.y as int];
    let k = boundary_index(l, p.x as int);
    assert(cells_wf(l));
    assert(0 <= k <= l.len() && byte_at(l, k) == p.x);
    if g.text == seq!['\n'] {
        let head = l.take(k);
        let tail = l.skip(k);
        let ls2 = ls.update(p.y as int, head).insert(p.y + 1, tail);
        assert(ls2[p.y as int] == head);
        assert(ls2[p.y + 1] == tail);
        assert(cells_wf(head)) by {
            assert(head =~= l.subrange(0, k));
            lemma_cells_wf_sub(l, 0, k);
        }
        assert(byte_at(head, k) == p.x) by {
            assert(head.take(k) =~= head);
        }
        lemma_bi_at(head, k);
        assert(boundary_index(head, p.x as int) == k);
        assert(k == head.len());
        assert(p.y + 1 < ls2.len());
        let joined = head + tail;
        assert(joined =~= l);
        let ls3 = ls2.update(p.y as int, joined).remove(p.y + 1);
        assert(ls3 =~= ls);
        assert(spec_delete(ls2, p) is Some);
        assert((spec_delete(ls2, p)->0).0 == ls);
    } else {
        let l2 = l.insert(k, g);
        let ls2 = ls.update(p.y as int, l2);
        assert(ls2[p.y as int] == l2);
        assert(cells_wf(l2)) by {
            assert forall|i: int| 0 <= i < l2.len() implies gr_wf(#[trigger] l2[i]) by {
                if i < k {
                    assert(l2[i] == l[i]);
                } else if i > k {
                    assert(l2[i] == l[i - 1]);
                }
            }
        }
        assert(byte_at(l2, k) == p.x) by {
            assert(l2.take(k) =~= l.take(k));
        }
        lemma_bi_at(l2, k);
        assert(k < l2.len());
        assert(l2.remove(k) =~= l);
        assert(ls2.update(p.y as int, l2.remove(k)) =~= ls);
    }
}

proof fn lemma_inv_overwrite(ls: Seq<Seq<GrView>>, g: GrView, p: Point)
    requires
        model_wf(ls),
        edit_ok(ls, EditV::Overwrite(g, p)),
        p.y < ls.len(),
    ensures
        spec_overwrite(ls, g, p) is Some,
        spec_execute((spec_overwrite(ls, g, p)->0).0, (spec_overwrite(ls, g, p)->0).1) is Some,
        (spec_execute((spec_overwrite(ls, g, p)->0).0, (spec_overwrite(ls, g, p)->0).1)->0).0 == ls,
{
    reveal(spec_execute);
    let l = ls[p.y as int];
    let k = boundary_index(l, p.x as int);
    assert(cells_wf(l));
    assert(0 <= k <= l.len() && byte_at(l, k) == p.x);
    if k < l.len() {
        let l2 = l.update(k, g);
        let ls2 = ls.update(p.y as int, l2);
        assert(ls2[p.y as int] == l2);
        assert(cells_wf(l2)) by {
            assert forall|i: int| 0 <= i < l2.len() implies gr_wf(#[trigger] l2[i]) by {
                if i != k {
                    assert(l2[i] == l[i]);
                }
            }
        }
        assert(byte_at(l2, k) == p.x) by {
            assert(l2.take(k) =~= l.take(k));
        }
        lemma_bi_at(l2, k);
        assert(l2.update(k, l[k]) =~= l);
        assert(ls2.update(p.y as int, l2.update(k, l[k])) =~= ls);
    } else {
        let l2 = l.insert(k, g);
        let ls2 = ls.update(p.y as int, l2);
        assert(ls2[p.y as int] == l2);
        assert(cells_wf(l2)) by {
            assert forall|i: int| 0 <= i < l2.len() implies gr_wf(#[trigger] l2[i]) by {
                if i < k {
                    assert(l2[i] == l[i]);
                }
            }
        }
        assert(byte_at(l2, k) == p.x) by {
            assert(l2.take(k) =~= l.take(k));
        }
        lemma_bi_at(l2, k);
        assert(k < l2.len());
        assert(l2.remove(k) =~= l);
        assert(ls2.update(p.y as int, l2.remove(k)) =~= ls);
    }
}

proof fn lemma_inv_delete(ls: Seq<Seq<GrView>>, p: Point)
    requires
        model_wf(ls),
        edit_ok(ls, EditV::Delete(p)),
        spec_delete(ls, p) is Some,
    ensures
        spec_execute((spec_delete(ls, p)->0).0, (spec_delete(ls, p)->0).1) is Some,
        (spec_execute((spec_delete(ls, p)->0).0, (spec_delete(ls, p)->0).1)->0).0 == ls,
{
    reveal(spec_execute);
    let l = ls[p.y as int];
    let k = boundary_index(l, p.x as int);
    assert(cells_wf(l));
    assert(0 <= k <= l.len() && byte_at(l, k) == p.x);
    if k < l.len() {
        let l2 = l.remove(k);
        let ls2 = ls.update(p.y as int, l2);
        assert(ls2[p.y as int] == l2);
        assert(no_breaks(ls[p.y as int]));
        assert(l[k].text != seq!['\n']);
        assert(cells_wf(l2)) by {
            assert forall|i: int| 0 <= i < l2.len() implies gr_wf(#[trigger] l2[i]) by {
                if i < k {
                    assert(l2[i] == l[i]);
                } else {
                    assert(l2[i] == l[i + 1]);
                }
            }
        }
        assert(byte_at(l2, k) == p.x) by {
            assert(l2.take(k) =~= l.take(k));
        }
        lemma_bi_at(l2, k);
        assert(l2.insert(k, l[k]) =~= l);
        assert(ls2.update(p.y as int, l2.insert(k, l[k])) =~= ls);
    } else {
        assert(k == l.len());
        assert(p.y + 1 < ls.len());
        let nxt = ls[p.y + 1];
        let joined = l + nxt;
        let ls2 = ls.update(p.y as int, joined).remove(p.y + 1);
        assert(ls2[p.y as int] == joined);
        assert(cells_wf(nxt));
        lemma_cells_wf_concat(l, nxt);
        assert(byte_at(joined, k) == p.x) by {
            assert(joined.take(k) =~= l.take(k));
            assert(l.take(k) =~= l);
        }
        lemma_bi_at(joined, k);
        assert(line_break_cell().text == seq!['\n']);
        assert(joined.take(l.len() as int) =~= l);
        assert(joined.skip(l.len() as int) =~= nxt);
        let ls3 = ls2.update(p.y as int, joined.take(l.len() as int)).insert(p.y + 1, joined.skip(
            l.len() as int,
        ));
        assert(ls3 =~= ls);
    }
}

#[verifier::rlimit(50)]
proof fn lemma_inv_cut(ls: Seq<Seq<GrView>>, a: Point, b: Point)
    requires
        model_wf(ls),
        edit_ok(ls, EditV::Cut(a, b)),
    ensures
        spec_cut(ls, a, b) is Some,
        spec_execute((spec_cut(ls, a, b)->0).0, (spec_cut(ls, a, b)->0).1) is Some,
        (spec_execute((spec_cut(ls, a, b)->0).0, (spec_cut(ls, a, b)->0).1)->0).0 == ls,
        (spec_execute((spec_cut(ls, a, b)->0).0, (spec_cut(ls, a, b)->0).1)->0).1 == EditV::Cut(a, b),
    decreases 0int,
{
    reveal(spec_execute);
    let la = ls[a.y as int];
    let lb = ls[b.y as int];
    let ka = boundary_index(la, a.x as int);
    let kb = boundary_index(lb, b.x as int);
    assert(cells_wf(la));
    assert(cells_wf(lb));
    assert(0 <= ka <= la.len() && byte_at(la, ka) == a.x);
    assert(0 <= kb <= lb.len() && byte_at(lb, kb) == b.x);
    if a.y == b.y {
        if kb < ka {
            lemma_byte_at_mono(la, kb, ka);
        }
        let mid = la.subrange(ka, kb);
        let nl = la.take(ka) + la.skip(kb);
        let ls2 = ls.update(a.y as int, nl);
        assert(ls2[a.y as int] == nl);
        lemma_cells_wf_sub(la, 0, ka);
        lemma_cells_wf_sub(la, kb, la.len() as int);
        assert(la.take(ka) =~= la.subrange(0, ka));
        assert(la.skip(kb) =~= la.subrange(kb, la.len() as int));
        lemma_cells_wf_concat(la.take(ka), la.skip(kb));
        assert(byte_at(nl, ka) == a.x) by {
            assert(nl.take(ka) =~= la.take(ka));
            assert(la.take(ka).take(ka) =~= la.take(ka));
        }
        lemma_bi_at(nl, ka);
        let merged = nl.take(ka) + mid + nl.skip(ka);
        assert(merged =~= la);
        assert(ls2.update(a.y as int, merged) =~= ls);
        lemma_seg_range(la, ka, kb);
        assert(a.x + seg_bytes(mid) == b.x);
        assert(spec_paste(ls2, a, seq![mid]) is Some);
        assert((spec_paste(ls2, a, seq![mid])->0).0 =~= ls);
        assert((spec_paste(ls2, a, seq![mid])->0).1 == EditV::Cut(
            a,
            Point { x: (a.x + seg_bytes(mid)) as usize, y: a.y },
        ));
    } else {
        let rem = seq![la.skip(ka)] + ls.subrange(a.y + 1, b.y as int) + seq![lb.take(kb)];
        let joined = la.take(ka) + lb.skip(kb);
        let ls2 = ls.take(a.y as int) + seq![joined] + ls.skip(b.y + 1);
        assert(ls2[a.y as int] == joined);
        assert(rem.len() >= 2);
        lemma_cells_wf_sub(la, 0, ka);
        lemma_cells_wf_sub(lb, kb, lb.len() as int);
        assert(la.take(ka) =~= la.subrange(0, ka));
        assert(lb.skip(kb) =~= lb.subrange(kb, lb.len() as int));
        lemma_cells_wf_concat(la.take(ka), lb.skip(kb));
        assert(byte_at(joined, ka) == a.x) by {
            assert(joined.take(ka) =~= la.take(ka));
            assert(la.take(ka).take(ka) =~= la.take(ka));
        }
        lemma_bi_at(joined, ka);
        assert(rem[0] == la.skip(ka));
        assert(rem.last() == lb.take(kb));
        let first = joined.take(ka) + rem[0];
        let last = rem.last() + joined.skip(ka);
        assert(first =~= la);
        assert(joined.skip(ka) =~= lb.skip(kb));
        assert(last =~= lb);
        assert(rem.subrange(1, rem.len() - 1) =~= ls.subrange(a.y + 1, b.y as int));
        let ls3 = ls2.take(a.y as int) + seq![first] + rem.subrange(1, rem.len() - 1) + seq![
            last,
        ] + ls2.skip(a.y + 1);
        assert(ls2.take(a.y as int) =~= ls.take(a.y as int));
        assert(ls2.skip(a.y + 1) =~= ls.skip(b.y + 1));
        assert(ls3 =~= ls);
        assert(seg_bytes(rem.last()) == byte_at(lb, kb));
        assert(lb.take(kb).take(kb) =~= lb.take(kb));
        assert(a.y + rem.len() - 1 == b.y);
        assert(spec_paste(ls2, a, rem) is Some);
        assert((spec_paste(ls2, a, rem)->0).0 == ls3);
        assert((spec_paste(ls2, a, rem)->0).1 == EditV::Cut(
            a,
            Point { x: seg_bytes(rem.last()) as usize, y: (a.y + rem.len() - 1) as usize },
        ));
        assert(byte_at(lb, kb) <= seg_bytes(lb)) by {
            lemma_byte_at_mono(lb, kb, lb.len() as int);
        }
        assert(seg_bytes(lb) <= buf_bytes(ls)) by {
            lemma_line_le_buf(ls, b.y as int);
        }
        assert(seg_bytes(rem.last()) as usize == b.x);
    }
}

#[verifier::rlimit(50)]
proof fn lemma_inv_paste(ls: Seq<Seq<GrView>>, p: Point, t: Seq<Seq<GrView>>)
    requires
        model_wf(ls),
        edit_ok(ls, EditV::Paste(p, t)),
        fits(ls, edit_growth(EditV::Paste(p, t))),
    ensures
        spec_paste(ls, p, t) is Some,
        spec_execute((spec_paste(ls, p, t)->0).0, (spec_paste(ls, p, t)->0).1) is Some,
        (spec_execute((spec_paste(ls, p, t)->0).0, (spec_paste(ls, p, t)->0).1)->0).0 == ls,
        (spec_execute((spec_paste(ls, p, t)->0).0, (spec_paste(ls, p, t)->0).1)->0).1 == EditV::Paste(
            p,
            t,
        ),
    decreases 0int,
{
    reveal(spec_execute);
    let l = ls[p.y as int];
    let k = boundary_index(l, p.x as int);
    assert(cells_wf(l));
    assert(0 <= k <= l.len() && byte_at(l, k) == p.x);
    lemma_line_le_buf(ls, p.y as int);
    if t.len() == 1 {
        let merged = l.take(k) + t[0] + l.skip(k);
        let ls2 = ls.update(p.y as int, merged);
        assert(ls2[p.y as int] == merged);
        lemma_cells_wf_sub(l, 0, k);
        lemma_cells_wf_sub(l, k, l.len() as int);
        assert(l.take(k) =~= l.subrange(0, k));
        assert(l.skip(k) =~= l.subrange(k, l.len() as int));
        assert(cells_wf(t[0]));
        lemma_cells_wf_concat(l.take(k), t[0]);
        lemma_cells_wf_concat(l.take(k) + t[0], l.skip(k));
        assert(byte_at(merged, k) == p.x) by {
            assert(merged.take(k) =~= l.take(k));
            assert(l.take(k).take(k) =~= l.take(k));
        }
        lemma_bi_at(merged, k);
        assert(byte_at(merged, k + t[0].len()) == p.x + seg_bytes(t[0])) by {
            assert(merged.take(k + t[0].len()) =~= l.take(k) + t[0]);
            lemma_seg_concat(l.take(k), t[0]);
        }
        lemma_bi_at(merged, k + t[0].len());
        lemma_buf_singleton(t[0]);
        assert(buf_bytes(t) == seg_bytes(t[0])) by {
            assert(t =~= seq![t[0]]);
        }
        lemma_byte_at_mono(l, k, l.len() as int);
        assert(l.take(l.len() as int) =~= l);
        assert(p.x + seg_bytes(t[0]) <= usize::MAX);
        let e = Point { x: (p.x + seg_bytes(t[0])) as usize, y: p.y };
        assert(boundary_index(merged, e.x as int) == k + t[0].len());
        let mid = merged.subrange(k, k + t[0].len());
        assert(mid =~= t[0]);
        let nl = merged.take(k) + merged.skip(k + t[0].len());
        assert(nl =~= l);
        assert(ls2.update(p.y as int, nl) =~= ls);
        assert(seq![mid] =~= t);
        assert(spec_cut(ls2, p, e) is Some);
        assert((spec_cut(ls2, p, e)->0).0 =~= ls);
    } else {
        let first = l.take(k) + t[0];
        let last = t.last() + l.skip(k);
        let ls2 = ls.take(p.y as int) + seq![first] + t.subrange(1, t.len() - 1) + seq![last]
            + ls.skip(p.y + 1);
        let e = Point { x: seg_bytes(t.last()) as usize, y: (p.y + t.len() - 1) as usize };
        assert(ls2[p.y as int] == first);
        assert(ls2[p.y + t.len() - 1] == last);
        lemma_cells_wf_sub(l, 0, k);
        lemma_cells_wf_sub(l, k, l.len() as int);
        assert(l.take(k) =~= l.subrange(0, k));
        assert(l.skip(k) =~= l.subrange(k, l.len() as int));
        assert(cells_wf(t[0]));
        assert(cells_wf(t[t.len() - 1]));
        lemma_cells_wf_concat(l.take(k), t[0]);
        lemma_cells_wf_concat(t.last(), l.skip(k));
        assert(byte_at(first, k) == p.x) by {
            assert(first.take(k) =~= l.take(k));
            assert(l.take(k).take(k) =~= l.take(k));
        }
        lemma_bi_at(first, k);
        assert(byte_at(last, t.last().len() as int) == seg_bytes(t.last())) by {
            assert(last.take(t.last().len() as int) =~= t.last());
            assert(t.last().take(t.last().len() as int) =~= t.last());
        }
        lemma_bi_at(last, t.last().len() as int);
        lemma_line_le_buf(t, t.len() - 1);
        assert(seg_bytes(t.last()) <= buf_bytes(t));
        assert(e.x == seg_bytes(t.last()));
        assert(e.y == p.y + t.len() - 1);
        assert(p.y < e.y);
        assert(e.y < ls2.len());
        assert(boundary_index(first, p.x as int) == k);
        assert(boundary_index(last, e.x as int) == t.last().len());
        let rem2 = seq![first.skip(k)] + ls2.subrange(p.y + 1, e.y as int) + seq![
            last.take(t.last().len() as int),
        ];
        assert(first.skip(k) =~= t[0]);
        assert(last.take(t.last().len() as int) =~= t.last());
        assert(ls2.subrange(p.y + 1, e.y as int) =~= t.subrange(1, t.len() - 1));
        assert(rem2 =~= t);
        let joined = first.take(k) + last.skip(t.last().len() as int);
        assert(first.take(k) =~= l.take(k));
        assert(last.skip(t.last().len() as int) =~= l.skip(k));
        assert(joined =~= l);
        let ls3 = ls2.take(p.y as int) + seq![joined] + ls2.skip(e.y + 1);
        assert(ls2.take(p.y as int) =~= ls.take(p.y as int));
        assert(ls2.skip(e.y + 1) =~= ls.skip(p.y + 1));
        assert(ls3 =~= ls);
        assert(spec_cut(ls2, p, e) is Some);
        assert((spec_cut(ls2, p, e)->0).0 == ls3);
        assert((spec_cut(ls2, p, e)->0).1 == EditV::Paste(p, rem2));
    }
}

#[verifier::rlimit(50)]
proof fn lemma_inv_replace(ls: Seq<Seq<GrView>>, p: Point, n: nat, cs: Seq<GrView>)
    requires
        model_wf(ls),
        edit_ok(ls, EditV::Replace(p, n, cs)),
        p.y < ls.len(),
    ensures
        spec_replace(ls, p, n, cs) is Some,
        spec_execute((spec_replace(ls, p, n, cs)->0).0, (spec_replace(ls, p, n, cs)->0).1) is Some,
        (spec_execute((spec_replace(ls, p, n, cs)->0).0, (spec_replace(ls, p, n, cs)->0).1)->0).0
            == ls,
{
    reveal(spec_execute);
    let l = ls[p.y as int];
    let ks = boundary_index(l, p.x as int);
    let ke = boundary_index(l, p.x + n);
    assert(cells_wf(l));
    assert(0 <= ks <= l.len() && byte_at(l, ks) == p.x);
    assert(0 <= ke <= l.len() && byte_at(l, ke) == p.x + n);
    if ke < ks {
        lemma_byte_at_mono(l, ke, ks);
    }
    let removed = l.subrange(ks, ke);
    let merged = l.take(ks) + cs + l.skip(ke);
    let ls2 = ls.update(p.y as int, merged);
    assert(ls2[p.y as int] == merged);
    lemma_cells_wf_sub(l, 0, ks);
    lemma_cells_wf_sub(l, ke, l.len() as int);
    assert(l.take(ks) =~= l.subrange(0, ks));
    assert(l.skip(ke) =~= l.subrange(ke, l.len() as int));
    lemma_cells_wf_concat(l.take(ks), cs);
    lemma_cells_wf_concat(l.take(ks) + cs, l.skip(ke));
    assert(byte_at(merged, ks) == p.x) by {
        assert(merged.take(ks) =~= l.take(ks));
        assert(l.take(ks).take(ks) =~= l.take(ks));
    }
    lemma_bi_at(merged, ks);
    assert(byte_at(merged, ks + cs.len()) == p.x + seg_bytes(cs)) by {
        assert(merged.take(ks + cs.len()) =~= l.take(ks) + cs);
        lemma_seg_concat(l.take(ks), cs);
    }
    lemma_bi_at(merged, ks + cs.len());
    assert(merged.subrange(ks, ks + cs.len()) =~= cs);
    let back = merged.take(ks) + removed + merged.skip(ks + cs.len());
    assert(merged.skip(ks + cs.len()) =~= l.skip(ke));
    assert(back =~= l);
    assert(ls2.update(p.y as int, back) =~= ls);
}

/// Every applied edit is exactly undone by the inverse it returns: the
/// inverse applies to the resulting lines and restores the original lines.
pub proof fn lemma_execute_inverse(ls: Seq<Seq<GrView>>, e: EditV)
    requires
        model_wf(ls),
        edit_ok(ls, e),
        fits(ls, edit_growth(e)),
        spec_execute(ls, e) is Some,
    ensures
        spec_execute((spec_execute(ls, e)->0).0, (spec_execute(ls, e)->0).1) is Some,
        (spec_execute((spec_execute(ls, e)->0).0, (spec_execute(ls, e)->0).1)->0).0 == ls,
{
    reveal(spec_execute);
    match e {
        EditV::Insert(g, p) => {
            lemma_inv_insert(ls, g, p);
        },
        EditV::Overwrite(g, p) => {
            lemma_inv_overwrite(ls, g, p);
        },
        EditV::Delete(p) => {
            lemma_inv_delete(ls, p);
        },
        EditV::Paste(p, t) => {
            lemma_inv_paste(ls, p, t);
        },
        EditV::Cut(a, b) => {
            lemma_inv_cut(ls, a, b);
        },
        EditV::Replace(p, n, cs) => {
            lemma_inv_replace(ls, p, n, cs);
        },
    }
}

/// Inserting a character and then executing the returned inverse (a delete
/// at the same point) restores the lines exactly.
pub proof fn lemma_insert_round_trip(ls: Seq<Seq<GrView>>, g: GrView, p: Point)
    requires
        model_wf(ls),
        edit_ok(ls, EditV::Insert(g, p)),
        fits(ls, edit_growth(EditV::Insert(g, p))),
        p.y < ls.len(),
    ensures
        spec_execute(ls, EditV::Insert(g, p)) is Some,
        ({
            let t = spec_execute(ls, EditV::Insert(g, p))->0;
            spec_execute(t.0, t.1) is Some && (spec_execute(t.0, t.1)->0).0 == ls
        }),
{
    reveal(spec_execute);
    lemma_inv_insert(ls, g, p);
}

/// A cut followed by executing its returned paste restores the original
/// multi-line content exactly, and that paste's own inverse is the cut.
pub proof fn lemma_cut_paste_round_trip(ls: Seq<Seq<GrView>>, a: Point, b: Point)
    requires
        model_wf(ls),
        edit_ok(ls, EditV::Cut(a, b)),
    ensures
        spec_cut(ls, a, b) is Some,
        ({
            let t = spec_cut(ls, a, b)->0;
            &&& spec_execute(t.0, t.1) is Some
            &&& (spec_execute(t.0, t.1)->0).0 == ls
            &&& (spec_execute(t.0, t.1)->0).1 == EditV::Cut(a, b)
        }),
{
    reveal(spec_execute);
    lemma_inv_cut(ls, a, b);
}

} // verus!
