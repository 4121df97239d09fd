//! One line of text: a sequence of grapheme clusters with cached metrics.
//!
//! Every position inside a line is addressed in three coordinate systems at
//! once: byte offset, grapheme index and display column. The spec functions
//! here define all three as prefix sums over the line's clusters; the
//! executable operations keep the cached totals equal to those sums.
use vstd::prelude::*;
use crate::grapheme::Grapheme;
use crate::grapheme::GrView;
use crate::grapheme::byte_count;
use crate::grapheme::char_width_of;
use crate::grapheme::clusters_of;
use crate::grapheme::gr_wf;
use crate::grapheme::lemma_byte_count_bounds;
use crate::grapheme::split_clusters;
use crate::grapheme::text_width;
use crate::grapheme::width_of;

verus! {

/// The cluster records built from a sequence of clusters, each paired with
/// its display width.
pub open spec fn cells_from(cls: Seq<Seq<char>>) -> Seq<GrView>
    decreases cls.len(),
{
    if cls.len() == 0 {
        Seq::empty()
    } else {
        cells_from(cls.drop_last()).push(
            GrView { text: cls.last(), width: width_of(cls.last()) },
        )
    }
}

/// The cluster records that a character sequence decomposes into.
pub open spec fn cells_of(s: Seq<char>) -> Seq<GrView> {
    cells_from(clusters_of(s))
}

pub proof fn lemma_cells_from_index(cls: Seq<Seq<char>>)
    ensures
        cells_from(cls).len() == cls.len(),
        forall|i: int|
            0 <= i < cls.len() ==> #[trigger] cells_from(cls)[i] == (GrView {
                text: cls[i],
                width: width_of(cls[i]),
            }),
    decreases cls.len(),
{
    if cls.len() > 0 {
        lemma_cells_from_index(cls.drop_last());
    }
}

/// The metrics of a cluster decomposition: the characters re-concatenate to
/// the flattened clusters, and the byte total is the byte count of those
/// characters.
pub proof fn lemma_cells_from_metrics(cls: Seq<Seq<char>>)
    ensures
        seg_chars(cells_from(cls)) == cls.flatten(),
        seg_bytes(cells_from(cls)) == byte_count(cls.flatten()),
    decreases cls.len(),
{
    if cls.len() == 0 {
        assert(cls.flatten() =~= Seq::<char>::empty());
    } else {
        lemma_cells_from_metrics(cls.drop_last());
        Seq::lemma_flatten_push(cls.drop_last(), cls.last());
        assert(cls.drop_last().push(cls.last()) =~= cls);
        crate::grapheme::lemma_byte_count_concat(cls.drop_last().flatten(), cls.last());
        let cf = cells_from(cls);
        assert(cf.drop_last() =~= cells_from(cls.drop_last()));
        assert(cf.last() == (GrView { text: cls.last(), width: width_of(cls.last()) }));
        assert(seg_chars(cf) == seg_chars(cells_from(cls.drop_last())) + cls.last());
    }
}

/// Total byte length of a cluster sequence.
pub open spec fn seg_bytes(cs: Seq<GrView>) -> nat
    decreases cs.len(),
{
    if cs.len() == 0 {
        0
    } else {
        seg_bytes(cs.drop_last()) + byte_count(cs.last().text)
    }
}

/// Total display width of a cluster sequence.
pub open spec fn seg_width(cs: Seq<GrView>) -> nat
    decreases cs.len(),
{
    if cs.len() == 0 {
        0
    } else {
        seg_width(cs.drop_last()) + cs.last().width
    }
}

/// The characters of a cluster sequence, concatenated.
pub open spec fn seg_chars(cs: Seq<GrView>) -> Seq<char>
    decreases cs.len(),
{
    if cs.len() == 0 {
        Seq::empty()
    } else {
        seg_chars(cs.drop_last()) + cs.last().text
    }
}

/// Every cluster in the sequence is well-formed.
pub open spec fn cells_wf(cs: Seq<GrView>) -> bool {
    forall|i: int| 0 <= i < cs.len() ==> gr_wf(#[trigger] cs[i])
}

/// No cluster in the sequence is the line-break marker: lines never store
/// line breaks, so re-inserting any removed cluster never splits a line.
pub open spec fn no_breaks(cs: Seq<GrView>) -> bool {
    forall|i: int| 0 <= i < cs.len() ==> (#[trigger] cs[i]).text != seq!['\n']
}

pub proof fn lemma_no_breaks_concat(a: Seq<GrView>, b: Seq<GrView>)
    requires
        no_breaks(a),
        no_breaks(b),
    ensures
        no_breaks(a + b),
{
    assert forall|i: int| 0 <= i < (a + b).len() implies (#[trigger] (a + b)[i]).text != seq![
    '\n',
    ] by {
        if i < a.len() {
            assert((a + b)[i] == a[i]);
        } else {
            assert((a + b)[i] == b[i - a.len()]);
        }
    }
}

pub proof fn lemma_no_breaks_sub(cs: Seq<GrView>, a: int, b: int)
    requires
        no_breaks(cs),
        0 <= a <= b <= cs.len(),
    ensures
        no_breaks(cs.subrange(a, b)),
{
    assert forall|i: int|
        0 <= i < (b - a) implies (#[trigger] cs.subrange(a, b)[i]).text != seq!['\n'] by {
        assert(cs.subrange(a, b)[i] == cs[a + i]);
    }
}

/// Clusters whose concatenated characters hold no line feed cannot include
/// the line-break marker.
pub proof fn lemma_no_breaks_from_chars(cs: Seq<GrView>)
    requires
        !seg_chars(cs).contains('\n'),
    ensures
        no_breaks(cs),
{
    assert forall|i: int| 0 <= i < cs.len() implies (#[trigger] cs[i]).text != seq!['\n'] by {
        if cs[i].text == seq!['\n'] {
            assert(cs[i].text.contains('\n')) by {
                assert(cs[i].text[0] == '\n');
            }
            lemma_seg_chars_has(cs, i, '\n');
        }
    }
}

proof fn lemma_seg_chars_has(cs: Seq<GrView>, i: int, c: char)
    requires
        0 <= i < cs.len(),
        cs[i].text.contains(c),
    ensures
        seg_chars(cs).contains(c),
    decreases cs.len(),
{
    if i == cs.len() - 1 {
        let j = choose|j: int| 0 <= j < cs[i].text.len() && cs[i].text[j] == c;
        assert(seg_chars(cs)[seg_chars(cs.drop_last()).len() + j] == c);
    } else {
        lemma_seg_chars_has(cs.drop_last(), i, c);
        let rest = seg_chars(cs.drop_last());
        let j = choose|j: int| 0 <= j < rest.len() && rest[j] == c;
        assert(seg_chars(cs)[j] == c);
    }
}

/// Byte offset of the boundary in front of cluster `i`.
pub open spec fn byte_at(cs: Seq<GrView>, i: int) -> nat {
    seg_bytes(cs.take(i))
}

/// Display column of the boundary in front of cluster `i`.
pub open spec fn col_at(cs: Seq<GrView>, i: int) -> nat {
    seg_width(cs.take(i))
}

/// True when byte offset `b` lands exactly on a cluster boundary (including
/// the start and the end of the line).
pub open spec fn is_boundary(cs: Seq<GrView>, b: int) -> bool {
    exists|i: int| 0 <= i <= cs.len() && byte_at(cs, i) == b
}

/// The cluster index whose front boundary sits at byte offset `b`.
pub open spec fn boundary_index(cs: Seq<GrView>, b: int) -> int {
    choose|i: int| 0 <= i <= cs.len() && byte_at(cs, i) == b
}

pub proof fn lemma_seg_concat(a: Seq<GrView>, b: Seq<GrView>)
    ensures
        seg_bytes(a + b) == seg_bytes(a) + seg_bytes(b),
        seg_width(a + b) == seg_width(a) + seg_width(b),
        seg_chars(a + b) == seg_chars(a) + seg_chars(b),
    decreases b.len(),
{
    if b.len() == 0 {
        assert(a + b =~= a);
        assert(seg_chars(a) + seg_chars(b) =~= seg_chars(a));
    } else {
        lemma_seg_concat(a, b.drop_last());
        assert((a + b).drop_last() =~= a + b.drop_last());
        assert((a + b).last() == b.last());
        assert(seg_chars(a) + seg_chars(b.drop_last()) + b.last().text =~= seg_chars(a) + (
        seg_chars(b.drop_last()) + b.last().text));
    }
}

/// Splitting a cluster sequence at any index splits all three sums.
pub proof fn lemma_seg_split(cs: Seq<GrView>, i: int)
    requires
        0 <= i <= cs.len(),
    ensures
        seg_bytes(cs) == seg_bytes(cs.take(i)) + seg_bytes(cs.skip(i)),
        seg_width(cs) == seg_width(cs.take(i)) + seg_width(cs.skip(i)),
        seg_chars(cs) == seg_chars(cs.take(i)) + seg_chars(cs.skip(i)),
{
    assert(cs.take(i) + cs.skip(i) =~= cs);
    lemma_seg_concat(cs.take(i), cs.skip(i));
}

/// Stepping one cluster to the right advances each prefix sum by exactly
/// that cluster's contribution.
pub proof fn lemma_at_step(cs: Seq<GrView>, i: int)
    requires
        0 <= i < cs.len(),
    ensures
        byte_at(cs, i + 1) == byte_at(cs, i) + byte_count(cs[i].text),
        col_at(cs, i + 1) == col_at(cs, i) + cs[i].width,
        seg_chars(cs.take(i + 1)) == seg_chars(cs.take(i)) + cs[i].text,
{
    assert(cs.take(i + 1).drop_last() =~= cs.take(i));
    assert(cs.take(i + 1).last() == cs[i]);
}

/// Byte boundaries are strictly increasing in the cluster index, and each
/// boundary lies within the line's total byte length.
pub proof fn lemma_byte_at_mono(cs: Seq<GrView>, i: int, j: int)
    requires
        cells_wf(cs),
        0 <= i <= j <= cs.len(),
    ensures
        byte_at(cs, i) + (j - i) <= byte_at(cs, j),
        byte_at(cs, j) <= seg_bytes(cs),
        col_at(cs, i) <= col_at(cs, j),
        col_at(cs, j) <= seg_width(cs),
    decreases j - i,
{
    assert(cs.take(cs.len() as int) =~= cs);
    if i < j {
        lemma_at_step(cs, j - 1);
        lemma_byte_at_mono(cs, i, j - 1);
        assert(gr_wf(cs[j - 1]));
        lemma_byte_count_bounds(cs[j - 1].text);
    }
    lemma_seg_split(cs, j);
}

/// For well-formed clusters the display width never exceeds twice the byte
/// length.
pub proof fn lemma_seg_width_le_bytes(cs: Seq<GrView>)
    requires
        cells_wf(cs),
    ensures
        seg_width(cs) <= 2 * seg_bytes(cs),
        seg_chars(cs).len() <= seg_bytes(cs),
    decreases cs.len(),
{
    if cs.len() > 0 {
        assert(cells_wf(cs.drop_last())) by {
            assert(forall|i: int|
                0 <= i < cs.drop_last().len() ==> cs.drop_last()[i] == #[trigger] cs[i]);
        }
        lemma_seg_width_le_bytes(cs.drop_last());
        assert(gr_wf(cs.last()));
        lemma_byte_count_bounds(cs.last().text);
    }
}

/// The boundary in front of cluster `k` is found back at its own index.
pub proof fn lemma_bi_at(cs: Seq<GrView>, k: int)
    requires
        cells_wf(cs),
        0 <= k <= cs.len(),
    ensures
        is_boundary(cs, byte_at(cs, k) as int),
        boundary_index(cs, byte_at(cs, k) as int) == k,
{
    assert(is_boundary(cs, byte_at(cs, k) as int)) by {
        assert(0 <= k <= cs.len() && byte_at(cs, k) == byte_at(cs, k));
    }
    lemma_boundary_unique(cs, boundary_index(cs, byte_at(cs, k) as int), k);
}

/// A byte offset determines its boundary index uniquely.
pub proof fn lemma_boundary_unique(cs: Seq<GrView>, i: int, j: int)
    requires
        cells_wf(cs),
        0 <= i <= cs.len(),
        0 <= j <= cs.len(),
        byte_at(cs, i) == byte_at(cs, j),
    ensures
        i == j,
{
    if i < j {
        lemma_byte_at_mono(cs, i, j);
    }
    if j < i {
        lemma_byte_at_mono(cs, j, i);
    }
}

pub proof fn lemma_seg_singleton(g: GrView)
    ensures
        seg_bytes(seq![g]) == byte_count(g.text),
        seg_width(seq![g]) == g.width,
        seg_chars(seq![g]) == g.text,
{
    let s = seq![g];
    assert(s.len() == 1);
    assert(s.drop_last() =~= Seq::<GrView>::empty());
    assert(s.last() == g);
    assert(seg_bytes(s) == seg_bytes(s.drop_last()) + byte_count(s.last().text));
    assert(seg_width(s) == seg_width(s.drop_last()) + s.last().width);
    assert(seg_chars(s) == seg_chars(s.drop_last()) + s.last().text);
    assert(Seq::<char>::empty() + g.text =~= g.text);
}

/// Inserting one cluster adds its contribution to every total.
pub proof fn lemma_seg_insert(cs: Seq<GrView>, k: int, g: GrView)
    requires
        0 <= k <= cs.len(),
    ensures
        seg_bytes(cs.insert(k, g)) == seg_bytes(cs) + byte_count(g.text),
        seg_width(cs.insert(k, g)) == seg_width(cs) + g.width,
{
    assert(cs.insert(k, g) =~= cs.take(k) + seq![g] + cs.skip(k));
    lemma_seg_concat(cs.take(k), seq![g]);
    lemma_seg_concat(cs.take(k) + seq![g], cs.skip(k));
    lemma_seg_singleton(g);
    lemma_seg_split(cs, k);
}

/// Removing one cluster subtracts its contribution from every total.
pub proof fn lemma_seg_remove(cs: Seq<GrView>, k: int)
    requires
        0 <= k < cs.len(),
    ensures
        seg_bytes(cs.remove(k)) == seg_bytes(cs) - byte_count(cs[k].text),
        seg_width(cs.remove(k)) == seg_width(cs) - cs[k].width,
{
    assert(cs.remove(k).insert(k, cs[k]) =~= cs);
    lemma_seg_insert(cs.remove(k), k, cs[k]);
}

/// The totals of a cluster range are the differences of the boundary prefix
/// sums.
pub proof fn lemma_seg_range(cs: Seq<GrView>, a: int, b: int)
    requires
        0 <= a <= b <= cs.len(),
    ensures
        seg_bytes(cs.subrange(a, b)) == byte_at(cs, b) - byte_at(cs, a),
        seg_width(cs.subrange(a, b)) == col_at(cs, b) - col_at(cs, a),
{
    assert(cs.take(b) =~= cs.take(a) + cs.subrange(a, b));
    lemma_seg_concat(cs.take(a), cs.subrange(a, b));
}

pub proof fn lemma_cells_wf_concat(a: Seq<GrView>, b: Seq<GrView>)
    requires
        cells_wf(a),
        cells_wf(b),
    ensures
        cells_wf(a + b),
{
    assert forall|i: int| 0 <= i < (a + b).len() implies gr_wf(#[trigger] (a + b)[i]) by {
        if i < a.len() {
            assert((a + b)[i] == a[i]);
        } else {
            assert((a + b)[i] == b[i - a.len()]);
        }
    }
}

pub proof fn lemma_cells_wf_sub(cs: Seq<GrView>, a: int, b: int)
    requires
        cells_wf(cs),
        0 <= a <= b <= cs.len(),
    ensures
        cells_wf(cs.subrange(a, b)),
{
    assert forall|i: int| 0 <= i < (b - a) implies gr_wf(#[trigger] cs.subrange(a, b)[i]) by {
        assert(cs.subrange(a, b)[i] == cs[a + i]);
    }
}

/// One line of text. `width` and `bytes` cache the totals of the cluster
/// sequence; `size` (the grapheme count) is the number of cells.
pub struct Line {
    pub cells: Vec<Grapheme>,
    pub width: usize,
    pub bytes: usize,
}

impl View for Line {
    type V = Seq<GrView>;

    open spec fn view(&self) -> Seq<GrView> {
        self.cells.deep_view()
    }
}

impl DeepView for Line {
    type V = Seq<GrView>;

    open spec fn deep_view(&self) -> Seq<GrView> {
        self.view()
    }
}

impl Line {
    /// The caches match the cluster sequence and every cluster is
    /// well-formed.
    pub open spec fn wf(&self) -> bool {
        &&& cells_wf(self@)
        &&& self.width == seg_width(self@)
        &&& self.bytes == seg_bytes(self@)
    }

    /// The empty line.
    pub fn new() -> (r: Line)
        ensures
            r.wf(),
            r@ == Seq::<GrView>::empty(),
    {
        let r = Line { cells: Vec::new(), width: 0, bytes: 0 };
        proof {
            assert(r@ =~= Seq::<GrView>::empty());
        }
        r
    }

    /// Builds a line from a string: the line's clusters are exactly the
    /// string's grapheme clusters, each with its display width. The byte
    /// bound keeps the width total within machine range.
    pub fn from(s: &str) -> (r: Line)
        requires
            byte_count(s@) <= usize::MAX / 2,
        ensures
            r.wf(),
            r@ == cells_of(s@),
            r@.len() == clusters_of(s@).len(),
            seg_chars(r@) == s@,
            seg_bytes(r@) == byte_count(s@),
    {
        let clusters = split_clusters(s);
        let ghost cv = cells_of(s@);
        proof {
            lemma_cells_from_index(clusters_of(s@));
            lemma_cells_from_metrics(clusters_of(s@));
        }
        let n = clusters.len();
        let mut cells: Vec<Grapheme> = Vec::new();
        let mut width: usize = 0;
        let mut bytes: usize = 0;
        let mut k: usize = 0;
        while k < n
            invariant
                n == clusters@.len(),
                clusters.deep_view() == clusters_of(s@),
                forall|i: int| 0 <= i < clusters@.len() ==> #[trigger] clusters@[i]@.len() >= 1,
                forall|i: int|
                    0 <= i < clusters@.len() ==> #[trigger] byte_count(clusters@[i]@)
                        <= usize::MAX,
                cv == cells_of(s@),
                byte_count(s@) <= usize::MAX / 2,
                cv.len() == n,
                seg_bytes(cv) == byte_count(s@),
                seg_chars(cv) == s@,
                forall|i: int|
                    0 <= i < cv.len() ==> #[trigger] cv[i] == (GrView {
                        text: clusters_of(s@)[i],
                        width: width_of(clusters_of(s@)[i]),
                    }),
                0 <= k <= n,
                cells.deep_view() == cv.take(k as int),
                cells_wf(cells.deep_view()),
                width == seg_width(cv.take(k as int)),
                bytes == seg_bytes(cv.take(k as int)),
                width <= 2 * bytes,
            decreases n - k,
        {
            let text = clusters[k].clone();
            let w = text_width(text.as_str());
            proof {
                lemma_byte_count_bounds(text@);
            }
            let g = Grapheme { text, width: w };
            let bl = g.byte_len();
            proof {
                assert(clusters.deep_view()[k as int] == clusters_of(s@)[k as int]);
                assert(g@ == cv[k as int]);
                lemma_at_step(cv, k as int);
                lemma_seg_split(cv, k + 1);
            }
            let ghost old_cells = cells.deep_view();
            cells.push(g);
            proof {
                assert(cells.deep_view() =~= old_cells.push(g@));
                assert(cv.take(k + 1) =~= cv.take(k as int).push(cv[k as int]));
            }
            width = width + w;
            bytes = bytes + bl;
            k = k + 1;
        }
        proof {
            assert(cv.take(n as int) =~= cv);
        }
        Line { cells, width, bytes }
    }

    /// Number of grapheme clusters.
    pub fn size(&self) -> (n: usize)
        ensures
            n == self@.len(),
    {
        self.cells.len()
    }

    /// Total display width in columns.
    pub fn width(&self) -> (n: usize)
        requires
            self.wf(),
        ensures
            n == seg_width(self@),
    {
        self.width
    }

    /// Total byte length.
    pub fn byte_len(&self) -> (n: usize)
        requires
            self.wf(),
        ensures
            n == seg_bytes(self@),
    {
        self.bytes
    }

    /// A borrow of the cluster at index `k`.
    pub fn cell(&self, k: usize) -> (g: &Grapheme)
        requires
            k < self@.len(),
        ensures
            g@ == self@[k as int],
    {
        &self.cells[k]
    }

    /// A fresh line with the same clusters.
    pub fn duplicate(&self) -> (r: Line)
        requires
            self.wf(),
        ensures
            r.wf(),
            r@ == self@,
    {
        let n = self.cells.len();
        let mut cells: Vec<Grapheme> = Vec::new();
        let mut k: usize = 0;
        while k < n
            invariant
                self.wf(),
                n == self@.len(),
                0 <= k <= n,
                cells.deep_view() == self@.take(k as int),
            decreases n - k,
        {
            let ghost prev = cells.deep_view();
            cells.push(self.cells[k].copy_of());
            proof {
                assert(cells.deep_view() =~= prev.push(self@[k as int]));
                assert(self@.take(k + 1) =~= self@.take(k as int).push(self@[k as int]));
            }
            k = k + 1;
        }
        proof {
            assert(self@.take(n as int) =~= self@);
        }
        Line { cells, width: self.width, bytes: self.bytes }
    }

    /// Builds a line around already-segmented, well-formed cells.
    fn from_cells(cells: Vec<Grapheme>) -> (r: Line)
        requires
            cells_wf(cells.deep_view()),
            seg_bytes(cells.deep_view()) <= usize::MAX,
            seg_width(cells.deep_view()) <= usize::MAX,
        ensures
            r.wf(),
            r@ == cells.deep_view(),
    {
        let ghost dv = cells.deep_view();
        let n = cells.len();
        let mut width: usize = 0;
        let mut bytes: usize = 0;
        let mut k: usize = 0;
        while k < n
            invariant
                cells_wf(dv),
                seg_bytes(dv) <= usize::MAX,
                seg_width(dv) <= usize::MAX,
                dv == cells.deep_view(),
                n == dv.len(),
                0 <= k <= n,
                width == col_at(dv, k as int),
                bytes == byte_at(dv, k as int),
            decreases n - k,
        {
            proof {
                assert(gr_wf(dv[k as int]));
                lemma_at_step(dv, k as int);
                lemma_byte_at_mono(dv, k + 1, n as int);
                assert(dv.take(n as int) =~= dv);
            }
            let g = &cells[k];
            width = width + g.width;
            bytes = bytes + g.byte_len();
            k = k + 1;
        }
        proof {
            assert(dv.take(n as int) =~= dv);
        }
        Line { cells, width, bytes }
    }

    /// Finds the cluster index whose front boundary sits at byte offset `b`.
    pub fn locate(&self, b: usize) -> (i: usize)
        requires
            self.wf(),
            is_boundary(self@, b as int),
        ensures
            i <= self@.len(),
            byte_at(self@, i as int) == b,
            i == boundary_index(self@, b as int),
    {
        let ghost j = choose|j: int| 0 <= j <= self@.len() && byte_at(self@, j) == b;
        let n = self.cells.len();
        let mut i: usize = 0;
        let mut acc: usize = 0;
        while acc < b
            invariant
                self.wf(),
                n == self@.len(),
                0 <= j <= n,
                byte_at(self@, j) == b,
                0 <= i <= n,
                acc == byte_at(self@, i as int),
                acc <= b,
            decreases b - acc,
        {
            proof {
                if j <= i {
                    lemma_byte_at_mono(self@, j, i as int);
                }
                lemma_at_step(self@, i as int);
                lemma_byte_at_mono(self@, i + 1, j);
                assert(gr_wf(self@[i as int]));
                lemma_byte_count_bounds(self@[i as int].text);
            }
            let step = self.cells[i].byte_len();
            acc = acc + step;
            i = i + 1;
        }
        proof {
            lemma_boundary_unique(self@, i as int, boundary_index(self@, b as int));
        }
        i
    }

    /// The byte offset and display column of the boundary in front of
    /// cluster `k`.
    pub fn prefix_metrics(&self, k: usize) -> (r: (usize, usize))
        requires
            self.wf(),
            k <= self@.len(),
        ensures
            r.0 == byte_at(self@, k as int),
            r.1 == col_at(self@, k as int),
    {
        let mut bytes: usize = 0;
        let mut width: usize = 0;
        let mut i: usize = 0;
        while i < k
            invariant
                self.wf(),
                k <= self@.len(),
                0 <= i <= k,
                bytes == byte_at(self@, i as int),
                width == col_at(self@, i as int),
            decreases k - i,
        {
            proof {
                lemma_at_step(self@, i as int);
                lemma_byte_at_mono(self@, i + 1, self@.len() as int);
                assert(gr_wf(self@[i as int]));
            }
            let g = &self.cells[i];
            bytes = bytes + g.byte_len();
            width = width + g.width;
            i = i + 1;
        }
        (bytes, width)
    }

    /// The line's characters, concatenated into one string.
    pub fn text(&self) -> (r: String)
        requires
            self.wf(),
        ensures
            r@ == seg_chars(self@),
    {
        let n = self.cells.len();
        let mut out = String::new();
        let mut k: usize = 0;
        while k < n
            invariant
                self.wf(),
                n == self@.len(),
                0 <= k <= n,
                out@ == seg_chars(self@.take(k as int)),
            decreases n - k,
        {
            proof {
                lemma_at_step(self@, k as int);
            }
            out.append(self.cells[k].text.as_str());
            k = k + 1;
        }
        proof {
            assert(self@.take(n as int) =~= self@);
        }
        out
    }

    pub(crate) fn insert_cell(&mut self, k: usize, g: Grapheme)
        requires
            old(self).wf(),
            k <= old(self)@.len(),
            gr_wf(g@),
            seg_bytes(old(self)@) + byte_count(g@.text) <= usize::MAX,
            seg_width(old(self)@) + g@.width <= usize::MAX,
        ensures
            final(self).wf(),
            final(self)@ == old(self)@.insert(k as int, g@),
    {
        let w = g.width;
        let b = g.byte_len();
        let ghost gv = g@;
        self.cells.insert(k, g);
        proof {
            assert(self.cells.deep_view() =~= old(self)@.insert(k as int, gv));
            lemma_seg_insert(old(self)@, k as int, gv);
            let nv = old(self)@.insert(k as int, gv);
            assert forall|i: int| 0 <= i < nv.len() implies gr_wf(#[trigger] nv[i]) by {
                if i < k {
                    assert(nv[i] == old(self)@[i]);
                } else if i == k {
                    assert(nv[i] == gv);
                } else {
                    assert(nv[i] == old(self)@[i - 1]);
                }
            }
        }
        self.width = self.width + w;
        self.bytes = self.bytes + b;
    }

    /// Inserts one character at a cluster boundary. A character without a
    /// defined display width (a control character) is skipped entirely;
    /// a width-zero character is inserted and counts as its own cluster.
    pub fn insert(&mut self, c: char, i: usize)
        requires
            old(self).wf(),
            is_boundary(old(self)@, i as int),
            seg_bytes(old(self)@) + 4 <= usize::MAX / 2,
        ensures
            final(self).wf(),
            char_width_of(c) is None ==> final(self)@ == old(self)@,
            char_width_of(c) is Some ==> final(self)@ == old(self)@.insert(
                boundary_index(old(self)@, i as int),
                (GrView { text: seq![c], width: width_of(seq![c]) }),
            ),
    {
        match Grapheme::from_char(c) {
            None => {},
            Some(g) => {
                let k = self.locate(i);
                proof {
                    lemma_byte_count_bounds(seq![c]);
                    lemma_seg_width_le_bytes(self@);
                }
                self.insert_cell(k, g);
            },
        }
    }

    /// Bulk insert of a string at a cluster boundary: the string's own
    /// clusters are spliced in.
    pub fn insert_str(&mut self, s: &str, i: usize)
        requires
            old(self).wf(),
            is_boundary(old(self)@, i as int),
            seg_bytes(old(self)@) + byte_count(s@) <= usize::MAX / 2,
        ensures
            final(self).wf(),
            final(self)@ == old(self)@.take(boundary_index(old(self)@, i as int)) + cells_of(s@)
                + old(self)@.skip(boundary_index(old(self)@, i as int)),
    {
        let addition = Line::from(s);
        let k = self.locate(i);
        let ghost head = old(self)@.take(k as int);
        let ghost tail_v = old(self)@.skip(k as int);
        let mut tail = self.cells.split_off(k);
        let mut add_cells = addition.cells;
        self.cells.append(&mut add_cells);
        self.cells.append(&mut tail);
        proof {
            assert(old(self)@.subrange(0, k as int) =~= head);
            assert(old(self)@.subrange(k as int, old(self)@.len() as int) =~= tail_v);
            assert(self.cells.deep_view() =~= head + cells_of(s@) + tail_v);
            lemma_seg_split(old(self)@, k as int);
            lemma_seg_concat(head, cells_of(s@));
            lemma_seg_concat(head + cells_of(s@), tail_v);
            lemma_seg_width_le_bytes(old(self)@);
            lemma_seg_width_le_bytes(cells_of(s@));
            lemma_cells_wf_sub(old(self)@, 0, k as int);
            lemma_cells_wf_sub(old(self)@, k as int, old(self)@.len() as int);
            lemma_cells_wf_concat(head, cells_of(s@));
            lemma_cells_wf_concat(head + cells_of(s@), tail_v);
            assert(old(self)@.take(k as int) == head);
            assert(old(self)@.skip(k as int) == tail_v);
        }
        self.width = self.width + addition.width;
        self.bytes = self.bytes + addition.bytes;
    }

    /// Removes the clusters between two boundary byte offsets and returns
    /// them as a line of their own.
    pub fn delete(&mut self, start: usize, end: usize) -> (r: Line)
        requires
            old(self).wf(),
            start <= end,
            is_boundary(old(self)@, start as int),
            is_boundary(old(self)@, end as int),
        ensures
            final(self).wf(),
            r.wf(),
            ({
                let ks = boundary_index(old(self)@, start as int);
                let ke = boundary_index(old(self)@, end as int);
                &&& ks <= ke
                &&& final(self)@ == old(self)@.take(ks) + old(self)@.skip(ke)
                &&& r@ == old(self)@.subrange(ks, ke)
                &&& seg_bytes(r@) == end - start
            }),
    {
        let ks = self.locate(start);
        let ke = self.locate(end);
        proof {
            if ke < ks {
                lemma_byte_at_mono(self@, ke as int, ks as int);
            }
        }
        let (b1, w1) = self.prefix_metrics(ks);
        let (b2, w2) = self.prefix_metrics(ke);
        let ghost ov = old(self)@;
        let mut tail = self.cells.split_off(ke);
        let removed_cells = self.cells.split_off(ks);
        self.cells.append(&mut tail);
        proof {
            assert(removed_cells.deep_view() =~= ov.subrange(ks as int, ke as int));
            assert(self.cells.deep_view() =~= ov.take(ks as int) + ov.skip(ke as int));
            lemma_seg_range(ov, ks as int, ke as int);
            lemma_byte_at_mono(ov, ke as int, ov.len() as int);
            lemma_cells_wf_sub(ov, ks as int, ke as int);
            lemma_cells_wf_sub(ov, 0, ks as int);
            lemma_cells_wf_sub(ov, ke as int, ov.len() as int);
            lemma_cells_wf_concat(ov.take(ks as int), ov.skip(ke as int));
            lemma_seg_concat(ov.take(ks as int), ov.skip(ke as int));
            lemma_seg_split(ov, ke as int);
            assert(seg_bytes(ov.skip(ke as int)) == seg_bytes(ov) - b2);
            assert(seg_width(ov.skip(ke as int)) == seg_width(ov) - w2);
        }
        let removed = Line { cells: removed_cells, width: w2 - w1, bytes: b2 - b1 };
        self.width = self.width - (w2 - w1);
        self.bytes = self.bytes - (b2 - b1);
        removed
    }

    /// Empties the line, returning its previous content.
    pub fn clear(&mut self) -> (r: Line)
        requires
            old(self).wf(),
        ensures
            final(self).wf(),
            final(self)@ == Seq::<GrView>::empty(),
            r.wf(),
            r@ == old(self)@,
    {
        let n = self.bytes;
        proof {
            assert(byte_at(old(self)@, 0) == 0) by {
                assert(old(self)@.take(0) =~= Seq::<GrView>::empty());
            }
            assert(old(self)@.take(old(self)@.len() as int) =~= old(self)@);
            assert(byte_at(old(self)@, old(self)@.len() as int) == seg_bytes(old(self)@));
        }
        let r = self.delete(0, n);
        proof {
            let ks = boundary_index(old(self)@, 0);
            let ke = boundary_index(old(self)@, n as int);
            lemma_boundary_unique(old(self)@, ks, 0);
            lemma_boundary_unique(old(self)@, ke, old(self)@.len() as int);
            assert(old(self)@.subrange(0, old(self)@.len() as int) =~= old(self)@);
            assert(self@ =~= Seq::<GrView>::empty());
        }
        r
    }

    /// Appends another line's clusters.
    pub fn concat(&mut self, other: &Line)
        requires
            old(self).wf(),
            other.wf(),
            seg_bytes(old(self)@) + seg_bytes(other@) <= usize::MAX / 2,
        ensures
            final(self).wf(),
            final(self)@ == old(self)@ + other@,
    {
        let mut dup = other.duplicate();
        self.cells.append(&mut dup.cells);
        proof {
            assert(self.cells.deep_view() =~= old(self)@ + other@);
            lemma_seg_concat(old(self)@, other@);
            lemma_cells_wf_concat(old(self)@, other@);
            lemma_seg_width_le_bytes(old(self)@);
            lemma_seg_width_le_bytes(other@);
        }
        self.width = self.width + dup.width;
        self.bytes = self.bytes + dup.bytes;
    }

    /// Appends a string's clusters.
    pub fn concat_str(&mut self, s: &str)
        requires
            old(self).wf(),
            seg_bytes(old(self)@) + byte_count(s@) <= usize::MAX / 2,
        ensures
            final(self).wf(),
            final(self)@ == old(self)@ + cells_of(s@),
    {
        let n = self.bytes;
        proof {
            assert(old(self)@.take(old(self)@.len() as int) =~= old(self)@);
            assert(byte_at(old(self)@, old(self)@.len() as int) == seg_bytes(old(self)@));
        }
        self.insert_str(s, n);
        proof {
            let k = boundary_index(old(self)@, n as int);
            lemma_boundary_unique(old(self)@, k, old(self)@.len() as int);
            assert(old(self)@.take(old(self)@.len() as int) =~= old(self)@);
            assert(old(self)@.skip(old(self)@.len() as int) =~= Seq::<GrView>::empty());
            assert(old(self)@ + cells_of(s@) + Seq::<GrView>::empty() =~= old(self)@ + cells_of(
                s@,
            ));
        }
    }

    /// Truncates the line at a boundary and hands back the tail.
    pub fn split(&mut self, i: usize) -> (r: Line)
        requires
            old(self).wf(),
            is_boundary(old(self)@, i as int),
        ensures
            final(self).wf(),
            r.wf(),
            ({
                let k = boundary_index(old(self)@, i as int);
                &&& final(self)@ == old(self)@.take(k)
                &&& r@ == old(self)@.skip(k)
                &&& seg_bytes(final(self)@) == i
            }),
    {
        let k = self.locate(i);
        let (b0, w0) = self.prefix_metrics(k);
        let ghost ov = old(self)@;
        let tail_cells = self.cells.split_off(k);
        proof {
            assert(self.cells.deep_view() =~= ov.take(k as int));
            assert(tail_cells.deep_view() =~= ov.skip(k as int));
            lemma_seg_split(ov, k as int);
            lemma_cells_wf_sub(ov, 0, k as int);
            lemma_cells_wf_sub(ov, k as int, ov.len() as int);
        }
        let r = Line { cells: tail_cells, width: self.width - w0, bytes: self.bytes - b0 };
        self.width = w0;
        self.bytes = b0;
        r
    }

    /// Replaces the clusters in a byte range by one character (deletion, then
    /// insertion at the range start), returning the prior content.
    pub fn replace(&mut self, c: char, start: usize, end: usize) -> (r: Line)
        requires
            old(self).wf(),
            start <= end,
            is_boundary(old(self)@, start as int),
            is_boundary(old(self)@, end as int),
            seg_bytes(old(self)@) + 4 <= usize::MAX / 2,
        ensures
            final(self).wf(),
            r.wf(),
            ({
                let ks = boundary_index(old(self)@, start as int);
                let ke = boundary_index(old(self)@, end as int);
                let gap = old(self)@.take(ks) + old(self)@.skip(ke);
                &&& r@ == old(self)@.subrange(ks, ke)
                &&& (char_width_of(c) is None ==> final(self)@ == gap)
                &&& (char_width_of(c) is Some ==> final(self)@ == gap.insert(
                    ks,
                    (GrView { text: seq![c], width: width_of(seq![c]) }),
                ))
            }),
    {
        let ghost ov = old(self)@;
        let ghost ks = boundary_index(ov, start as int);
        let r = self.delete(start, end);
        proof {
            let gap = self@;
            assert(gap.take(ks) =~= ov.take(ks));
            lemma_seg_split(ov, ks);
            assert(byte_at(gap, ks) == start);
            assert(is_boundary(gap, start as int));
            lemma_boundary_unique(gap, ks, boundary_index(gap, start as int));
            lemma_seg_concat(ov.take(ks), ov.skip(boundary_index(ov, end as int)));
            lemma_seg_split(ov, boundary_index(ov, end as int));
        }
        self.insert(c, start);
        r
    }

    /// Replaces the clusters in a byte range by a string's clusters,
    /// returning the prior content.
    pub fn replace_str(&mut self, s: &str, start: usize, end: usize) -> (r: Line)
        requires
            old(self).wf(),
            start <= end,
            is_boundary(old(self)@, start as int),
            is_boundary(old(self)@, end as int),
            seg_bytes(old(self)@) + byte_count(s@) <= usize::MAX / 2,
        ensures
            final(self).wf(),
            r.wf(),
            ({
                let ks = boundary_index(old(self)@, start as int);
                let ke = boundary_index(old(self)@, end as int);
                &&& r@ == old(self)@.subrange(ks, ke)
                &&& final(self)@ == old(self)@.take(ks) + cells_of(s@) + old(self)@.skip(ke)
            }),
    {
        let ghost ov = old(self)@;
        let ghost ks = boundary_index(ov, start as int);
        let ghost ke = boundary_index(ov, end as int);
        let r = self.delete(start, end);
        proof {
            let gap = self@;
            assert(gap.take(ks) =~= ov.take(ks));
            lemma_seg_split(ov, ks);
            assert(byte_at(gap, ks) == start);
            assert(is_boundary(gap, start as int));
            lemma_boundary_unique(gap, ks, boundary_index(gap, start as int));
            lemma_seg_concat(ov.take(ks), ov.skip(ke));
            lemma_seg_split(ov, ke);
        }
        self.insert_str(s, start);
        proof {
            assert(self@ =~= ov.take(ks) + cells_of(s@) + ov.skip(ke)) by {
                let gap = ov.take(ks) + ov.skip(ke);
                assert(gap.take(ks) =~= ov.take(ks));
                assert(gap.skip(ks) =~= ov.skip(ke));
            }
        }
        r
    }

    pub(crate) fn remove_cell(&mut self, k: usize) -> (g: Grapheme)
        requires
            old(self).wf(),
            k < old(self)@.len(),
        ensures
            final(self).wf(),
            final(self)@ == old(self)@.remove(k as int),
            g@ == old(self)@[k as int],
            gr_wf(g@),
    {
        proof {
            assert(gr_wf(old(self)@[k as int]));
        }
        let g = self.cells.remove(k);
        proof {
            assert(self.cells.deep_view() =~= old(self)@.remove(k as int));
            lemma_seg_remove(old(self)@, k as int);
            let nv = old(self)@.remove(k as int);
            assert forall|i: int| 0 <= i < nv.len() implies gr_wf(#[trigger] nv[i]) by {
                if i < k {
                    assert(nv[i] == old(self)@[i]);
                } else {
                    assert(nv[i] == old(self)@[i + 1]);
                }
            }
        }
        let b = g.byte_len();
        self.width = self.width - g.width;
        self.bytes = self.bytes - b;
        g
    }
}

} // verus!
