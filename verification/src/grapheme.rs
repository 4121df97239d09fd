//! Grapheme clusters: the unit of user-perceived characters.
//!
//! A [`Grapheme`] pairs one cluster's text with its terminal display width.
//! Segmentation and width measurement come from the `unicode_segmentation`
//! and `unicode_width` crates through the trusted wrappers below; everything
//! built on top of them is verified against the names [`clusters_of`] and
//! [`width_of`].
use vstd::prelude::*;
use unicode_segmentation::UnicodeSegmentation;
use unicode_width::UnicodeWidthChar;
use unicode_width::UnicodeWidthStr;

verus! {

/// The grapheme clusters of a character sequence, in order, under the
/// extended (UAX #29) segmentation rules of `unicode_segmentation`.
pub uninterp spec fn clusters_of(s: Seq<char>) -> Seq<Seq<char>>;

/// The display width in terminal columns (CJK variant) that `unicode_width`
/// assigns to a character sequence.
pub uninterp spec fn width_of(s: Seq<char>) -> nat;

/// The per-character display width (CJK variant) that `unicode_width`
/// assigns to one character: `None` exactly for control characters.
pub uninterp spec fn char_width_of(c: char) -> Option<nat>;

/// UTF-8 byte length of a character sequence.
pub open spec fn byte_count(s: Seq<char>) -> nat {
    vstd::utf8::encode_utf8(s).len()
}

/// UTF-8 encodes character by character, so byte counts add up over
/// concatenation.
pub proof fn lemma_byte_count_concat(a: Seq<char>, b: Seq<char>)
    ensures
        byte_count(a + b) == byte_count(a) + byte_count(b),
    decreases a.len(),
{
    if a.len() == 0 {
        assert(a + b =~= b);
        assert(vstd::utf8::encode_utf8(a).len() == 0);
    } else {
        lemma_byte_count_concat(a.drop_first(), b);
        assert((a + b).drop_first() =~= a.drop_first() + b);
        assert((a + b)[0] == a[0]);
    }
}

/// Every character takes between one and four UTF-8 bytes.
pub proof fn lemma_byte_count_bounds(s: Seq<char>)
    ensures
        s.len() <= byte_count(s) <= 4 * s.len(),
    decreases s.len(),
{
    if s.len() > 0 {
        lemma_byte_count_bounds(s.drop_first());
        assert(1 <= vstd::utf8::encode_scalar(s[0] as u32).len() <= 4);
    }
}

/// Relies on `unicode_segmentation::UnicodeSegmentation::graphemes` (extended
/// mode): the returned substrings are the grapheme clusters of `s`; their
/// concatenation is exactly `s`, and a grapheme cluster is never empty.
#[verifier::external_body]
pub(crate) fn split_clusters(s: &str) -> (r: Vec<String>)
    ensures
        r.deep_view() == clusters_of(s@),
        r.deep_view().flatten() == s@,
        forall|i: int| 0 <= i < r@.len() ==> #[trigger] r@[i]@.len() >= 1,
        forall|i: int| 0 <= i < r@.len() ==> #[trigger] byte_count(r@[i]@) <= usize::MAX,
{
    s.graphemes(true).map(String::from).collect()
}

/// Relies on `unicode_width::UnicodeWidthStr::width_cjk`: a deterministic
/// function of the character sequence alone; every character contributes at
/// most two columns, so the total is at most twice the character count.
#[verifier::external_body]
pub(crate) fn text_width(s: &str) -> (w: usize)
    ensures
        w == width_of(s@),
        w <= 2 * s@.len(),
{
    s.width_cjk()
}

/// Relies on `unicode_width::UnicodeWidthChar::width_cjk`: a deterministic
/// function of the character, `None` exactly for control characters; for any
/// other character the width agrees with what `UnicodeWidthStr::width_cjk`
/// gives the one-character string, and is at most two columns.
#[verifier::external_body]
pub(crate) fn char_width(c: char) -> (r: Option<usize>)
    ensures
        (r is Some) == (char_width_of(c) is Some),
        r is Some ==> r->0 == char_width_of(c)->0 && r->0 == width_of(seq![c]) && r->0 <= 2,
{
    c.width_cjk()
}

/// Relies on `char::to_string` from std: the resulting string holds exactly
/// this one character.
#[verifier::external_body]
pub(crate) fn char_string(c: char) -> (r: String)
    ensures
        r@ == seq![c],
{
    c.to_string()
}

/// Abstract value of a [`Grapheme`]: its characters and its display width.
pub ghost struct GrView {
    pub text: Seq<char>,
    pub width: nat,
}

/// One grapheme cluster together with its display width in columns.
pub struct Grapheme {
    pub text: String,
    pub width: usize,
}

impl View for Grapheme {
    type V = GrView;

    open spec fn view(&self) -> GrView {
        GrView { text: self.text@, width: self.width as nat }
    }
}

impl DeepView for Grapheme {
    type V = GrView;

    open spec fn deep_view(&self) -> GrView {
        self.view()
    }
}

/// A well-formed cluster is nonempty and its width leaves arithmetic
/// headroom: at most two columns per character.
pub open spec fn gr_wf(g: GrView) -> bool {
    &&& g.text.len() >= 1
    &&& g.width <= 2 * g.text.len()
    &&& byte_count(g.text) <= usize::MAX
}

impl Grapheme {
    /// Builds the cluster for one non-control character; returns `None` for a
    /// character without a defined display width (a control character).
    /// A width-zero character is accepted and counts as a cluster of its own.
    pub fn from_char(c: char) -> (r: Option<Grapheme>)
        ensures
            (r is Some) == (char_width_of(c) is Some),
            r is Some ==> gr_wf(r->0@) && r->0@.text == seq![c] && r->0@.width == width_of(
                seq![c],
            ),
    {
        match char_width(c) {
            Some(w) => {
                let text = char_string(c);
                proof {
                    lemma_byte_count_bounds(seq![c]);
                }
                Some(Grapheme { text, width: w })
            },
            None => None,
        }
    }

    /// The cluster standing for a line break.
    pub fn line_break() -> (r: Grapheme)
        ensures
            gr_wf(r@),
            r@.text == seq!['\n'],
            r@.width == width_of(seq!['\n']),
    {
        let text = char_string('\n');
        let width = text_width(text.as_str());
        proof {
            lemma_byte_count_bounds(seq!['\n']);
        }
        Grapheme { text, width }
    }

    /// True when this cluster is the line-break marker.
    pub fn is_line_break(&self) -> (r: bool)
        ensures
            r == (self@.text == seq!['\n']),
    {
        let n = self.text.unicode_len();
        if n != 1 {
            proof {
                assert(self@.text != seq!['\n']) by {
                    assert(seq!['\n'].len() == 1);
                }
            }
            false
        } else {
            let c = self.text.get_char(0);
            proof {
                assert(seq![self@.text[0]] =~= self@.text);
            }
            c == '\n'
        }
    }

    /// A fresh cluster with the same text and width.
    pub fn copy_of(&self) -> (r: Grapheme)
        ensures
            r@ == self@,
    {
        Grapheme { text: self.text.clone(), width: self.width }
    }

    /// UTF-8 byte length of this cluster.
    pub fn byte_len(&self) -> (n: usize)
        requires
            gr_wf(self@),
        ensures
            n == byte_count(self@.text),
    {
        self.text.as_str().len()
    }
}

} // verus!
