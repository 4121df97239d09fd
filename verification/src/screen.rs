//! One editing session over one buffer: the cursor, the selection, the
//! undo and redo stacks, the status message and the scroll viewport.
//!
//! The undo and redo stacks are chains: a ghost history records the buffer
//! state that each stored inverse rewinds to, so replaying a stored edit is
//! always possible and lands exactly on its recorded checkpoint. Undo and
//! redo pop whole groups of same-kind edits in one call.
use vstd::prelude::*;
use crate::buffer::Buffer;
use crate::buffer::Edit;
use crate::buffer::EditV;
use crate::buffer::Point;
use crate::buffer::SaveError;
use crate::buffer::buf_weight;
use crate::buffer::edit_growth;
use crate::buffer::edit_kind;
use crate::buffer::edit_ok;
use crate::buffer::fits;
use crate::buffer::line_break_cell;
use crate::buffer::model_wf;
use crate::buffer::render_chars;
use crate::buffer::spec_execute;
use crate::buffer::spec_cut;
use crate::buffer::spec_delete;
use crate::buffer::spec_insert;
use crate::buffer::lemma_execute_inverse;
use crate::cursor::Cursor;
use crate::cursor::Direction;
use crate::cursor::cur_wf;
use crate::cursor::stepped;
use crate::cursor::lemma_origin_wf;
use crate::cursor::lemma_pos_bounds;
use crate::cursor::lemma_pos_unique;
use crate::cursor::lemma_slots_step;
use crate::cursor::max_pos;
use crate::cursor::pos_at;
use crate::grapheme::Grapheme;
use crate::grapheme::GrView;
use crate::grapheme::char_width_of;
use crate::grapheme::width_of;
use crate::line::byte_at;
use crate::line::col_at;
use crate::line::lemma_bi_at;
use crate::line::lemma_byte_at_mono;
use crate::line::lemma_seg_width_le_bytes;
use crate::line::boundary_index;
use crate::line::cells_wf;
use crate::line::seg_width;

verus! {

/// A transient status message for the user.
pub enum Message {
    Info(String),
    Warning(String),
    Error(String),
}

impl Message {
    /// The message's text.
    pub fn content(&self) -> (r: &String)
        ensures
            match self {
                Message::Info(s) => r == s,
                Message::Warning(s) => r == s,
                Message::Error(s) => r == s,
            },
    {
        match self {
            Message::Info(s) => s,
            Message::Warning(s) => s,
            Message::Error(s) => s,
        }
    }
}

/// The link invariant of an undo or redo stack. `hist[i]` is the buffer
/// state that entry `i`'s stored edit rewinds to; the state the edit is
/// applied at is the next checkpoint above it (`hist[i + 1]`, or the
/// current buffer for the top entry). Every stored edit applies there,
/// fits there, and lands exactly on its checkpoint, where its stored
/// cursor snapshot is valid.
#[verifier::opaque]
pub open spec fn chain_ok(
    entries: Seq<(Cursor, Edit)>,
    hist: Seq<Seq<Seq<GrView>>>,
    cur: Seq<Seq<GrView>>,
) -> bool {
    &&& hist.len() == entries.len()
    &&& forall|i: int|
        0 <= i < entries.len() ==> {
            let above = if i + 1 < entries.len() {
                hist[i + 1]
            } else {
                cur
            };
            &&& (#[trigger] entries[i]).1.wf()
            &&& edit_ok(above, entries[i].1@)
            &&& fits(above, edit_growth(entries[i].1@))
            &&& spec_execute(above, entries[i].1@) is Some
            &&& (spec_execute(above, entries[i].1@)->0).0 == hist[i]
            &&& cur_wf(entries[i].0, hist[i])
            &&& model_wf(hist[i])
        }
}

/// The length of the maximal suffix of entries sharing the top entry's
/// edit kind: the group one undo or redo call replays.
pub open spec fn group_len(es: Seq<(Cursor, Edit)>) -> int
    decreases es.len(),
{
    if es.len() == 0 {
        0
    } else if es.len() == 1 {
        1
    } else if edit_kind(es[es.len() - 2].1@) == edit_kind(es.last().1@) {
        1 + group_len(es.drop_last())
    } else {
        1
    }
}

proof fn lemma_group_count(es: Seq<(Cursor, Edit)>, c: int)
    requires
        1 <= c <= es.len(),
        forall|i: int|
            es.len() - c <= i < es.len() ==> edit_kind((#[trigger] es[i]).1@) == edit_kind(
                es.last().1@,
            ),
        es.len() - c == 0 || edit_kind(es[es.len() - c - 1].1@) != edit_kind(es.last().1@),
    ensures
        group_len(es) == c,
    decreases c,
{
    if c == 1 {
    } else {
        assert(edit_kind(es[es.len() - 2].1@) == edit_kind(es.last().1@));
        let d = es.drop_last();
        assert(d.last() == es[es.len() - 2]);
        lemma_group_count(d, c - 1);
    }
}

/// Of a selection pair, the snapshot that comes first in the buffer,
/// compared by row and then byte: where a cut over the selection starts.
pub open spec fn sel_start(l: Cursor, r: Cursor) -> Cursor {
    if r.row < l.row || (r.row == l.row && r.byte < l.byte) {
        r
    } else {
        l
    }
}

/// The other end of the pair: where a cut over the selection ends.
pub open spec fn sel_end(l: Cursor, r: Cursor) -> Cursor {
    if r.row < l.row || (r.row == l.row && r.byte < l.byte) {
        l
    } else {
        r
    }
}

/// One editing session: a buffer with its cursor, selection, undo and redo
/// stacks, viewport origin and status message.
pub struct Screen {
    pub buffer: Buffer,
    pub origin: Point,
    pub cursor: Cursor,
    pub overwrite: bool,
    pub message: Option<Message>,
    pub undo_stack: Vec<(Cursor, Edit)>,
    pub redo_stack: Vec<(Cursor, Edit)>,
    pub selection: Option<(Cursor, Cursor)>,
    pub history: Ghost<Seq<Seq<Seq<GrView>>>>,
    pub redo_history: Ghost<Seq<Seq<Seq<GrView>>>>,
}

impl Screen {
    /// The session invariant: a well-formed buffer, a valid cursor, an
    /// ordered selection of valid cursors, and linked undo/redo chains.
    pub open spec fn wf(&self) -> bool {
        &&& self.buffer.wf()
        &&& cur_wf(self.cursor, self.buffer@)
        &&& match self.selection {
            Some(sel) => cur_wf(sel.0, self.buffer@) && cur_wf(sel.1, self.buffer@)
                && sel.0.offset <= sel.1.offset,
            None => true,
        }
        &&& chain_ok(self.undo_stack@, self.history@, self.buffer@)
        &&& chain_ok(self.redo_stack@, self.redo_history@, self.buffer@)
    }

    /// A fresh session over a buffer, with the cursor at the origin.
    pub fn new(buffer: Buffer) -> (r: Screen)
        requires
            buffer.wf(),
        ensures
            r.wf(),
            r.buffer == buffer,
            r.undo_stack@.len() == 0,
            r.redo_stack@.len() == 0,
            r.selection is None,
            r.cursor.row == 0 && r.cursor.index == 0,
            r.overwrite == false,
            r.message is None,
    {
        let r = Screen {
            buffer,
            origin: Point::new(),
            cursor: Cursor::new(),
            overwrite: false,
            message: None,
            undo_stack: Vec::new(),
            redo_stack: Vec::new(),
            selection: None,
            history: Ghost(Seq::empty()),
            redo_history: Ghost(Seq::empty()),
        };
        proof {
            reveal(chain_ok);
            lemma_origin_wf(r.cursor, r.buffer@);
        }
        r
    }

    /// Clears any selection.
    pub fn deselect(&mut self)
        requires
            old(self).wf(),
        ensures
            final(self).wf(),
            final(self).selection is None,
            final(self).buffer == old(self).buffer,
            final(self).cursor == old(self).cursor,
            final(self).undo_stack == old(self).undo_stack,
            final(self).redo_stack == old(self).redo_stack,
            final(self).history == old(self).history,
            final(self).redo_history == old(self).redo_history,
    {
        self.selection = None;
    }

    /// Single-step cursor movement; any selection is cleared, and nothing
    /// else changes: the cursor advances by exactly one `step_cursor` step.
    pub fn move_cursor(&mut self, direction: Direction)
        requires
            old(self).wf(),
        ensures
            final(self).wf(),
            final(self).selection is None,
            final(self).buffer == old(self).buffer,
            stepped(old(self).buffer@, old(self).cursor, final(self).cursor, direction),
            final(self).undo_stack == old(self).undo_stack,
            final(self).redo_stack == old(self).redo_stack,
            final(self).history == old(self).history,
            final(self).redo_history == old(self).redo_history,
    {
        self.cursor.step_cursor(&self.buffer, direction);
        self.deselect();
    }

    /// Jump to column 0 of the current line.
    pub fn home(&mut self)
        requires
            old(self).wf(),
        ensures
            final(self).wf(),
            final(self).selection is None,
            final(self).buffer == old(self).buffer,
            final(self).cursor.index == 0,
            final(self).cursor.row == old(self).cursor.row,
    {
        self.cursor.home(&self.buffer);
        self.deselect();
    }

    /// Jump to the end of the current line.
    pub fn end(&mut self)
        requires
            old(self).wf(),
        ensures
            final(self).wf(),
            final(self).selection is None,
            final(self).buffer == old(self).buffer,
            final(self).cursor.index == old(self).buffer@[old(self).cursor.row as int].len(),
            final(self).cursor.row == old(self).cursor.row,
    {
        self.cursor.end(&self.buffer);
        self.deselect();
    }

    /// Jump to the buffer's first position.
    pub fn top(&mut self)
        requires
            old(self).wf(),
        ensures
            final(self).wf(),
            final(self).selection is None,
            final(self).buffer == old(self).buffer,
            final(self).cursor.row == 0 && final(self).cursor.index == 0,
    {
        self.cursor.top(&self.buffer);
        self.deselect();
    }

    /// Jump to the buffer's last position.
    pub fn bottom(&mut self)
        requires
            old(self).wf(),
        ensures
            final(self).wf(),
            final(self).selection is None,
            final(self).buffer == old(self).buffer,
            final(self).cursor.row == old(self).buffer@.len() - 1,
            final(self).cursor.index == old(self).buffer@[old(self).buffer@.len() - 1].len(),
    {
        self.cursor.bottom(&self.buffer);
        self.deselect();
    }

    /// Shows a status message.
    pub fn set_message(&mut self, m: Message)
        requires
            old(self).wf(),
        ensures
            final(self).wf(),
            final(self).message is Some,
            final(self).buffer == old(self).buffer,
    {
        self.message = Some(m);
    }

    /// Clears the status message.
    pub fn clear_message(&mut self)
        requires
            old(self).wf(),
        ensures
            final(self).wf(),
            final(self).message is None,
            final(self).buffer == old(self).buffer,
    {
        self.message = None;
    }

    /// Whether the buffer has unsaved changes.
    pub fn is_dirty(&self) -> (r: bool)
        ensures
            r == self.buffer.dirty,
    {
        self.buffer.is_dirty()
    }

    /// The buffer's file path.
    pub fn path(&self) -> (r: &String)
        ensures
            r == &self.buffer.path,
    {
        self.buffer.path()
    }

    /// Serializes the buffer for a save to its own path; see
    /// [`Buffer::save`].
    pub fn save(&self, overwrite: bool, disk_modified: Option<u64>) -> (r: Result<
        String,
        SaveError,
    >)
        requires
            self.wf(),
        ensures
            self.buffer.readonly ==> r == Result::<String, SaveError>::Err(SaveError::Readonly),
            !self.buffer.readonly && (disk_modified is Some && disk_modified->0
                > self.buffer.modified && !overwrite) ==> r == Result::<String, SaveError>::Err(
                SaveError::Conflict,
            ),
            !self.buffer.readonly && !(disk_modified is Some && disk_modified->0
                > self.buffer.modified && !overwrite) ==> r is Ok && r->Ok_0@ == render_chars(
                self.buffer@,
                self.buffer.ending,
            ),
    {
        self.buffer.save(overwrite, disk_modified)
    }

    /// Serializes the buffer for a save to another path; see
    /// [`Buffer::save_as`].
    pub fn save_as(&self, exists: bool, overwrite: bool, disk_modified: Option<u64>) -> (r:
        Result<String, SaveError>)
        requires
            self.wf(),
        ensures
            exists && !overwrite ==> r == Result::<String, SaveError>::Err(SaveError::PathExists),
            !(exists && !overwrite) && self.buffer.readonly ==> r == Result::<
                String,
                SaveError,
            >::Err(SaveError::Readonly),
            !(exists && !overwrite) && !self.buffer.readonly && (disk_modified is Some
                && disk_modified->0 > self.buffer.modified && !overwrite) ==> r == Result::<
                String,
                SaveError,
            >::Err(SaveError::Conflict),
            !(exists && !overwrite) && !self.buffer.readonly && !(disk_modified is Some
                && disk_modified->0 > self.buffer.modified && !overwrite) ==> r is Ok
                && r->Ok_0@ == render_chars(self.buffer@, self.buffer.ending),
    {
        self.buffer.save_as(exists, overwrite, disk_modified)
    }

    /// Records a successful write; see [`Buffer::mark_saved`].
    pub fn mark_saved(&mut self, modified: u64)
        requires
            old(self).wf(),
        ensures
            final(self).wf(),
            final(self).buffer.dirty == false,
            final(self).buffer@ == old(self).buffer@,
    {
        proof {
            assert(old(self).buffer.lines == self.buffer.lines);
        }
        self.buffer.mark_saved(modified);
        proof {
            assert(self.buffer@ == old(self).buffer@);
            assert(chain_ok(self.undo_stack@, self.history@, self.buffer@));
            assert(chain_ok(self.redo_stack@, self.redo_history@, self.buffer@));
        }
    }
}

impl Screen {
    fn push_undo(&mut self, item: (Cursor, Edit), Ghost(pre): Ghost<Seq<Seq<GrView>>>)
        requires
            old(self).buffer.wf(),
            chain_ok(old(self).undo_stack@, old(self).history@, pre),
            item.1.wf(),
            edit_ok(old(self).buffer@, item.1@),
            fits(old(self).buffer@, edit_growth(item.1@)),
            spec_execute(old(self).buffer@, item.1@) is Some,
            (spec_execute(old(self).buffer@, item.1@)->0).0 == pre,
            cur_wf(item.0, pre),
            model_wf(pre),
        ensures
            final(self).buffer == old(self).buffer,
            final(self).cursor == old(self).cursor,
            final(self).selection == old(self).selection,
            final(self).message == old(self).message,
            final(self).origin == old(self).origin,
            final(self).overwrite == old(self).overwrite,
            chain_ok(final(self).undo_stack@, final(self).history@, final(self).buffer@),
            chain_ok(final(self).redo_stack@, final(self).redo_history@, final(self).buffer@),
            final(self).undo_stack@ == old(self).undo_stack@.push(item),
            final(self).history@ == old(self).history@.push(pre),
            final(self).redo_stack@.len() == 0,
    {
        self.redo_stack.clear();
        self.redo_history = Ghost(Seq::empty());
        self.undo_stack.push(item);
        let ghost oh = self.history@;
        self.history = Ghost(oh.push(pre));
        proof {
            reveal(chain_ok);
            let es = self.undo_stack@;
            let hist = self.history@;
            let cur = self.buffer@;
            let n = es.len() as int;
            assert forall|i: int|
                0 <= i < n implies {
                let above = if i + 1 < n {
                    hist[i + 1]
                } else {
                    cur
                };
                &&& (#[trigger] es[i]).1.wf()
                &&& edit_ok(above, es[i].1@)
                &&& fits(above, edit_growth(es[i].1@))
                &&& spec_execute(above, es[i].1@) is Some
                &&& (spec_execute(above, es[i].1@)->0).0 == hist[i]
                &&& cur_wf(es[i].0, hist[i])
                &&& model_wf(hist[i])
            } by {
                if i < n - 1 {
                    assert(es[i] == old(self).undo_stack@[i]);
                    let old_above = if i + 1 < n - 1 {
                        old(self).history@[i + 1]
                    } else {
                        pre
                    };
                    assert(hist[i + 1] == old_above || i + 1 == n - 1);
                }
            }
            assert(chain_ok(self.redo_stack@, self.redo_history@, self.buffer@));
        }
    }

    /// Inserts one user-perceived character at the cursor: a line break
    /// splits the line; a control character without a display width is
    /// skipped entirely; anything else (a width-zero character included)
    /// becomes one cluster. On success the cursor steps right, the inverse
    /// goes onto the undo stack, the redo stack empties and any selection
    /// is cleared.
    #[verifier::rlimit(100)]
    pub fn insert(&mut self, ch: char)
        requires
            old(self).wf(),
            fits(old(self).buffer@, 4),
        ensures
            final(self).wf(),
            ch != '\n' && char_width_of(ch) is None ==> final(self).buffer@ == old(
                self,
            ).buffer@ && final(self).undo_stack == old(self).undo_stack && final(self).cursor
                == old(self).cursor,
            (ch == '\n' || char_width_of(ch) is Some) ==> ({
                let g = if ch == '\n' {
                    line_break_cell()
                } else {
                    GrView { text: seq![ch], width: width_of(seq![ch]) }
                };
                let pt = Point { x: old(self).cursor.byte, y: old(self).cursor.row };
                &&& spec_insert(old(self).buffer@, g, pt) is Some
                &&& final(self).buffer@ == (spec_insert(old(self).buffer@, g, pt)->0).0
                &&& final(self).buffer.dirty
                &&& final(self).undo_stack@.len() == old(self).undo_stack@.len() + 1
                &&& final(self).undo_stack@.drop_last() == old(self).undo_stack@
                &&& final(self).history@ == old(self).history@.push(old(self).buffer@)
                &&& final(self).undo_stack@.last().0 == old(self).cursor
                &&& final(self).undo_stack@.last().1@ == (spec_insert(
                    old(self).buffer@,
                    g,
                    pt,
                )->0).1
                &&& final(self).redo_stack@.len() == 0
                &&& final(self).selection is None
                &&& stepped(
                    (spec_insert(old(self).buffer@, g, pt)->0).0,
                    old(self).cursor,
                    final(self).cursor,
                    Direction::Right,
                )
            }),
    {
        let g_opt: Option<Grapheme> = if ch == '\n' {
            Some(Grapheme::line_break())
        } else {
            Grapheme::from_char(ch)
        };
        match g_opt {
            None => {},
            Some(g) => {
                let pt = Point { x: self.cursor.byte, y: self.cursor.row };
                let ghost pre = self.buffer@;
                let ghost l = pre[pt.y as int];
                let ghost k0 = self.cursor.index as int;
                proof {
                    assert(self.buffer.lines@[pt.y as int].wf());
                    assert(l == self.buffer.lines@[pt.y as int]@);
                    lemma_bi_at(l, k0);
                    crate::grapheme::lemma_byte_count_bounds(g@.text);
                }
                let e = Edit::Insert(g, pt);
                let before = self.cursor;
                proof {
                    assert(spec_execute(self.buffer@, e@) == spec_insert(
                        self.buffer@,
                        g@,
                        pt,
                    )) by {
                        reveal(crate::buffer::spec_execute);
                    }
                }
                let und = self.buffer.execute(&e);
                match und {
                    Some(inv) => {
                        proof {
                            let nb = self.buffer@;
                            assert(nb.take(pt.y as int) =~= pre.take(pt.y as int));
                            if e@->Insert_0.text == seq!['\n'] {
                                let head = l.take(k0);
                                assert(nb[pt.y as int] == head);
                                assert(head.take(k0) =~= head);
                            } else {
                                let nl = l.insert(k0, e@->Insert_0);
                                assert(nb[pt.y as int] == nl);
                                assert(nl.take(k0) =~= l.take(k0));
                            }
                            assert(cur_wf(self.cursor, nb));
                            crate::buffer::lemma_model_wf(&old(self).buffer);
                            lemma_execute_inverse(pre, e@);
                        }
                        self.cursor.step_cursor(&self.buffer, Direction::Right);
                        self.push_undo((before, inv), Ghost(pre));
                        self.selection = None;
                    },
                    None => {
                        proof {
                            assert(false);
                        }
                    },
                }
            },
        }
    }

    /// Replaces the cluster under the cursor by one character, or appends
    /// at the line's end. A line break or a character without a display
    /// width is skipped entirely. On success the cursor steps right, the
    /// inverse goes onto the undo stack and any selection is cleared.
    #[verifier::rlimit(100)]
    pub fn overwrite(&mut self, ch: char)
        requires
            old(self).wf(),
            fits(old(self).buffer@, 4),
        ensures
            final(self).wf(),
            ch == '\n' || char_width_of(ch) is None ==> final(self).buffer@ == old(self).buffer@
                && final(self).undo_stack == old(self).undo_stack && final(self).cursor == old(
                self,
            ).cursor,
            ch != '\n' && char_width_of(ch) is Some ==> ({
                let g = GrView { text: seq![ch], width: width_of(seq![ch]) };
                let pt = Point { x: old(self).cursor.byte, y: old(self).cursor.row };
                &&& crate::buffer::spec_overwrite(old(self).buffer@, g, pt) is Some
                &&& final(self).buffer@ == (crate::buffer::spec_overwrite(
                    old(self).buffer@,
                    g,
                    pt,
                )->0).0
                &&& final(self).buffer.dirty
                &&& final(self).undo_stack@.len() == old(self).undo_stack@.len() + 1
                &&& final(self).undo_stack@.drop_last() == old(self).undo_stack@
                &&& final(self).history@ == old(self).history@.push(old(self).buffer@)
                &&& final(self).undo_stack@.last().0 == old(self).cursor
                &&& final(self).undo_stack@.last().1@ == (crate::buffer::spec_overwrite(
                    old(self).buffer@,
                    g,
                    pt,
                )->0).1
                &&& final(self).redo_stack@.len() == 0
                &&& final(self).selection is None
                &&& stepped(
                    (crate::buffer::spec_overwrite(old(self).buffer@, g, pt)->0).0,
                    old(self).cursor,
                    final(self).cursor,
                    Direction::Right,
                )
            }),
    {
        if ch == '\n' {
            return ;
        }
        match Grapheme::from_char(ch) {
            None => {},
            Some(g) => {
                let pt = Point { x: self.cursor.byte, y: self.cursor.row };
                let ghost pre = self.buffer@;
                let ghost l = pre[pt.y as int];
                let ghost k0 = self.cursor.index as int;
                proof {
                    assert(self.buffer.lines@[pt.y as int].wf());
                    assert(l == self.buffer.lines@[pt.y as int]@);
                    lemma_bi_at(l, k0);
                    crate::grapheme::lemma_byte_count_bounds(g@.text);
                    assert(g@.text != seq!['\n']) by {
                        assert(g@.text[0] == ch);
                    }
                }
                let e = Edit::Overwrite(g, pt);
                let before = self.cursor;
                proof {
                    assert(spec_execute(self.buffer@, e@) == crate::buffer::spec_overwrite(
                        self.buffer@,
                        g@,
                        pt,
                    )) by {
                        reveal(crate::buffer::spec_execute);
                    }
                }
                let und = self.buffer.execute(&e);
                match und {
                    Some(inv) => {
                        proof {
                            let nb = self.buffer@;
                            assert(nb.take(pt.y as int) =~= pre.take(pt.y as int));
                            if k0 < l.len() {
                                let nl = l.update(k0, e@->Overwrite_0);
                                assert(nb[pt.y as int] == nl);
                                assert(nl.take(k0) =~= l.take(k0));
                            } else {
                                let nl = l.insert(k0, e@->Overwrite_0);
                                assert(nb[pt.y as int] == nl);
                                assert(nl.take(k0) =~= l.take(k0));
                            }
                            assert(cur_wf(self.cursor, nb));
                            crate::buffer::lemma_model_wf(&old(self).buffer);
                            lemma_execute_inverse(pre, e@);
                        }
                        self.cursor.step_cursor(&self.buffer, Direction::Right);
                        self.push_undo((before, inv), Ghost(pre));
                        self.selection = None;
                    },
                    None => {
                        proof {
                            assert(false);
                        }
                    },
                }
            },
        }
    }

    /// Forward delete: removes the cluster under the cursor, or joins the
    /// next line at a line's end; a no-op at the buffer's very end. With an
    /// active selection it behaves as backspace does: the whole selection
    /// is cut. The cursor does not move; the inverse goes onto the undo
    /// stack and the redo stack empties.
    #[verifier::rlimit(100)]
    pub fn delete(&mut self)
        requires
            old(self).wf(),
        ensures
            final(self).wf(),
            old(self).selection is None ==> ({
                let pt = Point { x: old(self).cursor.byte, y: old(self).cursor.row };
                &&& final(self).cursor == old(self).cursor
                &&& (spec_delete(old(self).buffer@, pt) is None ==> {
                    &&& final(self).buffer@ == old(self).buffer@
                    &&& final(self).buffer.dirty == old(self).buffer.dirty
                    &&& final(self).undo_stack == old(self).undo_stack
                    &&& final(self).redo_stack == old(self).redo_stack
                })
                &&& (spec_delete(old(self).buffer@, pt) is Some ==> ({
                    &&& final(self).buffer@ == (spec_delete(old(self).buffer@, pt)->0).0
                    &&& final(self).buffer.dirty
                    &&& final(self).undo_stack@.len() == old(self).undo_stack@.len() + 1
                    &&& final(self).undo_stack@.drop_last() == old(self).undo_stack@
                    &&& final(self).history@ == old(self).history@.push(old(self).buffer@)
                    &&& final(self).undo_stack@.last().0 == old(self).cursor
                    &&& final(self).undo_stack@.last().1@ == (spec_delete(
                        old(self).buffer@,
                        pt,
                    )->0).1
                    &&& final(self).redo_stack@.len() == 0
                    &&& final(self).selection is None
                }))
            }),
            old(self).selection is Some ==> ({
                let sl = (old(self).selection->0).0;
                let sr = (old(self).selection->0).1;
                let a = Point { x: sel_start(sl, sr).byte, y: sel_start(sl, sr).row };
                let b = Point { x: sel_end(sl, sr).byte, y: sel_end(sl, sr).row };
                &&& spec_cut(old(self).buffer@, a, b) is Some
                &&& final(self).buffer@ == (spec_cut(old(self).buffer@, a, b)->0).0
                &&& final(self).cursor == sel_start(sl, sr)
                &&& final(self).buffer.dirty
                &&& final(self).undo_stack@.len() == old(self).undo_stack@.len() + 1
                &&& final(self).undo_stack@.drop_last() == old(self).undo_stack@
                &&& final(self).history@ == old(self).history@.push(old(self).buffer@)
                &&& final(self).undo_stack@.last().0 == old(self).cursor
                &&& final(self).undo_stack@.last().1@ == (spec_cut(old(self).buffer@, a, b)->0).1
                &&& final(self).redo_stack@.len() == 0
                &&& final(self).selection is None
            }),
    {
        if self.selection.is_some() {
            self.backspace();
            return ;
        }
        let pt = Point { x: self.cursor.byte, y: self.cursor.row };
        let ghost pre = self.buffer@;
        let ghost l = pre[pt.y as int];
        let ghost k0 = self.cursor.index as int;
        proof {
            assert(self.buffer.lines@[pt.y as int].wf());
            assert(l == self.buffer.lines@[pt.y as int]@);
            lemma_bi_at(l, k0);
        }
        let e = Edit::Delete(pt);
        let before = self.cursor;
        proof {
            assert(spec_execute(self.buffer@, e@) == spec_delete(self.buffer@, pt)) by {
                reveal(crate::buffer::spec_execute);
            }
        }
        let und = self.buffer.execute(&e);
        match und {
            Some(inv) => {
                proof {
                    let nb = self.buffer@;
                    assert(nb.take(pt.y as int) =~= pre.take(pt.y as int));
                    if k0 < l.len() {
                        let nl = l.remove(k0);
                        assert(nb[pt.y as int] == nl);
                        assert(nl.take(k0) =~= l.take(k0));
                    } else {
                        let nl = l + pre[pt.y + 1];
                        assert(nb[pt.y as int] == nl);
                        assert(nl.take(k0) =~= l.take(k0));
                        assert(l.take(k0) =~= l);
                    }
                    assert(cur_wf(self.cursor, nb));
                    crate::buffer::lemma_model_wf(&old(self).buffer);
                    lemma_execute_inverse(pre, e@);
                }
                self.push_undo((before, inv), Ghost(pre));
                self.selection = None;
            },
            None => {},
        }
    }

    /// Backspace: with a selection, removes the whole selected range as one
    /// cut and puts the cursor at its start; otherwise steps left once and
    /// deletes there (joining lines across a line break). A no-op at
    /// display column 0 of the first line, as the reference behaves, even
    /// when zero-width clusters precede that column byte-wise. The inverse
    /// goes onto the undo stack and the redo stack empties.
    #[verifier::rlimit(100)]
    pub fn backspace(&mut self)
        requires
            old(self).wf(),
        ensures
            final(self).wf(),
            final(self).selection is None,
            old(self).selection is Some ==> ({
                let sl = (old(self).selection->0).0;
                let sr = (old(self).selection->0).1;
                let a = Point { x: sel_start(sl, sr).byte, y: sel_start(sl, sr).row };
                let b = Point { x: sel_end(sl, sr).byte, y: sel_end(sl, sr).row };
                &&& spec_cut(old(self).buffer@, a, b) is Some
                &&& final(self).buffer@ == (spec_cut(old(self).buffer@, a, b)->0).0
                &&& final(self).cursor == sel_start(sl, sr)
                &&& final(self).buffer.dirty
                &&& final(self).undo_stack@.len() == old(self).undo_stack@.len() + 1
                &&& final(self).undo_stack@.drop_last() == old(self).undo_stack@
                &&& final(self).history@ == old(self).history@.push(old(self).buffer@)
                &&& final(self).undo_stack@.last().0 == old(self).cursor
                &&& final(self).undo_stack@.last().1@ == (spec_cut(old(self).buffer@, a, b)->0).1
                &&& final(self).redo_stack@.len() == 0
            }),
            old(self).selection is None && old(self).cursor.row == 0 && old(self).cursor.column
                == 0 ==> {
                &&& final(self).buffer == old(self).buffer
                &&& final(self).cursor == old(self).cursor
                &&& final(self).undo_stack == old(self).undo_stack
                &&& final(self).redo_stack == old(self).redo_stack
            },
            old(self).selection is None && !(old(self).cursor.row == 0
                && old(self).cursor.column == 0) ==> ({
                let pt = Point { x: final(self).cursor.byte, y: final(self).cursor.row };
                &&& stepped(old(self).buffer@, old(self).cursor, final(self).cursor, Direction::Left)
                &&& spec_delete(old(self).buffer@, pt) is Some
                &&& final(self).buffer@ == (spec_delete(old(self).buffer@, pt)->0).0
                &&& final(self).buffer.dirty
                &&& final(self).undo_stack@.len() == old(self).undo_stack@.len() + 1
                &&& final(self).undo_stack@.drop_last() == old(self).undo_stack@
                &&& final(self).history@ == old(self).history@.push(old(self).buffer@)
                &&& final(self).undo_stack@.last().0 == old(self).cursor
                &&& final(self).undo_stack@.last().1@ == (spec_delete(old(self).buffer@, pt)->0).1
                &&& final(self).redo_stack@.len() == 0
            }),
    {
        let sel = self.selection;
        match sel {
            Some(sel_pair) => {
                let (sl, sr) = sel_pair;
                let swap = sr.row < sl.row || (sr.row == sl.row && sr.byte < sl.byte);
                let (cl, cr) = if swap {
                    (sr, sl)
                } else {
                    (sl, sr)
                };
                let before = self.cursor;
                self.cursor = cl;
                let a = Point { x: cl.byte, y: cl.row };
                let b = Point { x: cr.byte, y: cr.row };
                let ghost pre = self.buffer@;
                let ghost la = pre[a.y as int];
                let ghost lb = pre[b.y as int];
                proof {
                    assert(self.buffer.lines@[a.y as int].wf());
                    assert(self.buffer.lines@[b.y as int].wf());
                    assert(la == self.buffer.lines@[a.y as int]@);
                    assert(lb == self.buffer.lines@[b.y as int]@);
                    lemma_bi_at(la, cl.index as int);
                    lemma_bi_at(lb, cr.index as int);
                    if a.y == b.y && a.x > b.x {
                        lemma_byte_at_mono(la, cr.index as int, cl.index as int);
                    }
                }
                let e = Edit::Cut(a, b);
                proof {
                    assert(spec_execute(self.buffer@, e@) == spec_cut(self.buffer@, a, b)) by {
                        reveal(crate::buffer::spec_execute);
                    }
                }
                let und = self.buffer.execute(&e);
                match und {
                    Some(inv) => {
                        proof {
                            let nb = self.buffer@;
                            let ka = boundary_index(la, a.x as int);
                            assert(ka == cl.index);
                            assert(nb.take(a.y as int) =~= pre.take(a.y as int));
                            if a.y == b.y {
                                let kb = boundary_index(lb, b.x as int);
                                let nl = la.take(ka) + la.skip(kb);
                                assert(nb[a.y as int] == nl);
                                assert(nl.take(ka) =~= la.take(ka));
                                assert(la.take(ka).take(ka) =~= la.take(ka));
                            } else {
                                let kb = boundary_index(lb, b.x as int);
                                let nl = la.take(ka) + lb.skip(kb);
                                assert(nb[a.y as int] == nl);
                                assert(nl.take(ka) =~= la.take(ka));
                                assert(la.take(ka).take(ka) =~= la.take(ka));
                            }
                            assert(cur_wf(self.cursor, nb));
                            crate::buffer::lemma_model_wf(&old(self).buffer);
                            lemma_execute_inverse(pre, e@);
                        }
                        self.push_undo((before, inv), Ghost(pre));
                    },
                    None => {
                        proof {
                            assert(false);
                        }
                    },
                }
                self.selection = None;
            },
            None => {
                if self.cursor.row == 0 && self.cursor.column == 0 {
                    self.selection = None;
                    return ;
                }
                let before = self.cursor;
                let ghost pre = self.buffer@;
                proof {
                    assert(pos_at(pre, 0, 0) == 0) by {
                        assert(pre.take(0int) =~= Seq::<Seq<GrView>>::empty());
                    }
                    let oc = old(self).cursor;
                    if pos_at(pre, oc.row as int, oc.index as int) == 0 {
                        lemma_pos_unique(pre, oc.row as int, oc.index as int, 0, 0);
                        assert(col_at(pre[0], 0) == 0) by {
                            assert(pre[0].take(0int) =~= Seq::<GrView>::empty());
                        }
                        assert(false);
                    }
                    lemma_pos_bounds(pre, oc.row as int, oc.index as int);
                }
                self.cursor.step_cursor(&self.buffer, Direction::Left);
                let pt = Point { x: self.cursor.byte, y: self.cursor.row };
                let ghost l = pre[pt.y as int];
                let ghost k0 = self.cursor.index as int;
                proof {
                    assert(self.buffer.lines@[pt.y as int].wf());
                    assert(l == self.buffer.lines@[pt.y as int]@);
                    lemma_bi_at(l, k0);
                    if k0 >= l.len() && pt.y + 1 >= pre.len() {
                        lemma_slots_step(pre, pre.len() - 1);
                        assert(pre.take(pre.len() as int) =~= pre);
                        assert(false);
                    }
                }
                let e = Edit::Delete(pt);
                proof {
                    assert(spec_execute(self.buffer@, e@) == spec_delete(self.buffer@, pt)) by {
                        reveal(crate::buffer::spec_execute);
                    }
                }
                let und = self.buffer.execute(&e);
                match und {
                    Some(inv) => {
                        proof {
                            let nb = self.buffer@;
                            assert(nb.take(pt.y as int) =~= pre.take(pt.y as int));
                            if k0 < l.len() {
                                let nl = l.remove(k0);
                                assert(nb[pt.y as int] == nl);
                                assert(nl.take(k0) =~= l.take(k0));
                            } else {
                                let nl = l + pre[pt.y + 1];
                                assert(nb[pt.y as int] == nl);
                                assert(nl.take(k0) =~= l.take(k0));
                                assert(l.take(k0) =~= l);
                            }
                            assert(cur_wf(self.cursor, nb));
                            crate::buffer::lemma_model_wf(&old(self).buffer);
                            lemma_execute_inverse(pre, e@);
                        }
                        self.push_undo((before, inv), Ghost(pre));
                    },
                    None => {
                        proof {
                            assert(false);
                        }
                    },
                }
                self.selection = None;
            },
        }
    }

    /// Extends (or starts) the selection by one cursor step. The cursor
    /// takes exactly one step; a fresh selection is anchored at the
    /// before/after snapshots of that step, ordered by offset — two
    /// positions around a line break share an offset, so ties order by row
    /// and byte, never anchoring a reversed pair; an existing
    /// pair is reshaped from the stepped cursor through the four
    /// shrink/extend/flip cases, always keeping its left end at or before
    /// its right end. Nothing else changes.
    pub fn select(&mut self, direction: Direction)
        requires
            old(self).wf(),
        ensures
            final(self).wf(),
            final(self).selection is Some,
            (final(self).selection->0).0.offset <= (final(self).selection->0).1.offset,
            final(self).buffer == old(self).buffer,
            final(self).undo_stack == old(self).undo_stack,
            final(self).redo_stack == old(self).redo_stack,
            stepped(old(self).buffer@, old(self).cursor, final(self).cursor, direction),
            old(self).selection is None ==> ({
                let b = old(self).cursor;
                let a = final(self).cursor;
                let fwd = b.offset < a.offset || (b.offset == a.offset && (b.row < a.row || (
                b.row == a.row && b.byte <= a.byte)));
                final(self).selection->0 == (if fwd {
                    (b, a)
                } else {
                    (a, b)
                })
            }),
            old(self).selection is Some ==> ({
                let l = (old(self).selection->0).0;
                let r = (old(self).selection->0).1;
                let b = old(self).cursor;
                let a = final(self).cursor;
                final(self).selection->0 == (if a.offset < b.offset {
                    if b.offset == l.offset {
                        (a, r)
                    } else if a.offset < l.offset {
                        (a, l)
                    } else {
                        (l, a)
                    }
                } else {
                    if b.offset == r.offset {
                        (l, a)
                    } else if a.offset > r.offset {
                        (r, a)
                    } else {
                        (a, r)
                    }
                })
            }),
    {
        let before = self.cursor;
        self.cursor.step_cursor(&self.buffer, direction);
        let after = self.cursor;
        let a = after.offset;
        let b = before.offset;
        let sel = self.selection;
        match sel {
            Some(pair) => {
                let (left, right) = pair;
                let l = left.offset;
                let r = right.offset;
                if a < b {
                    if b == l {
                        self.selection = Some((after, right));
                    } else if a < l {
                        self.selection = Some((after, left));
                    } else {
                        self.selection = Some((left, after));
                    }
                } else {
                    if b == r {
                        self.selection = Some((left, after));
                    } else if a > r {
                        self.selection = Some((right, after));
                    } else {
                        self.selection = Some((after, right));
                    }
                }
            },
            None => {
                let fwd = b < a || (b == a && (before.row < after.row || (before.row == after.row
                    && before.byte <= after.byte)));
                self.selection = if fwd {
                    Some((before, after))
                } else {
                    Some((after, before))
                };
            },
        }
    }
}

impl Screen {
    #[verifier::rlimit(100)]
    fn unwind_one(&mut self)
        requires
            old(self).buffer.wf(),
            cur_wf(old(self).cursor, old(self).buffer@),
            chain_ok(old(self).undo_stack@, old(self).history@, old(self).buffer@),
            chain_ok(old(self).redo_stack@, old(self).redo_history@, old(self).buffer@),
            old(self).undo_stack@.len() > 0,
        ensures
            final(self).buffer.wf(),
            cur_wf(final(self).cursor, final(self).buffer@),
            chain_ok(final(self).undo_stack@, final(self).history@, final(self).buffer@),
            chain_ok(final(self).redo_stack@, final(self).redo_history@, final(self).buffer@),
            final(self).undo_stack@ == old(self).undo_stack@.drop_last(),
            final(self).history@ == old(self).history@.drop_last(),
            final(self).buffer@ == old(self).history@.last(),
            final(self).cursor == old(self).undo_stack@.last().0,
            final(self).redo_stack@.len() == old(self).redo_stack@.len() + 1,
            final(self).redo_stack@.drop_last() == old(self).redo_stack@,
            final(self).redo_stack@.last().0 == old(self).cursor,
            final(self).redo_stack@.last().1@ == (spec_execute(
                old(self).buffer@,
                old(self).undo_stack@.last().1@,
            )->0).1,
            final(self).redo_history@ == old(self).redo_history@.push(old(self).buffer@),
            final(self).selection == old(self).selection,
            final(self).message == old(self).message,
    {
        proof {
            reveal(chain_ok);
            let es = old(self).undo_stack@;
            assert(es[es.len() - 1] == es.last());
        }
        let popped = self.undo_stack.pop();
        match popped {
            Some(entry) => {
                let (snap, inv) = entry;
                let ghost prevb = self.buffer@;
                proof {
                    crate::buffer::lemma_model_wf(&self.buffer);
                    lemma_execute_inverse(self.buffer@, inv@);
                }
                let redo_e = self.buffer.execute(&inv);
                match redo_e {
                    Some(re) => {
                        let presnap = self.cursor;
                        self.redo_stack.push((presnap, re));
                        self.redo_history = Ghost(self.redo_history@.push(prevb));
                        self.cursor = snap;
                        self.history = Ghost(self.history@.drop_last());
                        proof {
                            reveal(chain_ok);
                            let es = self.undo_stack@;
                            let hist = self.history@;
                            let cur = self.buffer@;
                            let n = es.len() as int;
                            assert(es =~= old(self).undo_stack@.drop_last());
                            assert(hist =~= old(self).history@.drop_last());
                            assert forall|i: int|
                                0 <= i < n implies {
                                let above = if i + 1 < n {
                                    hist[i + 1]
                                } else {
                                    cur
                                };
                                &&& (#[trigger] es[i]).1.wf()
                                &&& edit_ok(above, es[i].1@)
                                &&& fits(above, edit_growth(es[i].1@))
                                &&& spec_execute(above, es[i].1@) is Some
                                &&& (spec_execute(above, es[i].1@)->0).0 == hist[i]
                                &&& cur_wf(es[i].0, hist[i])
                                &&& model_wf(hist[i])
                            } by {
                                assert(es[i] == old(self).undo_stack@[i]);
                                assert(old(self).history@[i] == hist[i]);
                                if i + 1 < n {
                                    assert(old(self).history@[i + 1] == hist[i + 1]);
                                } else {
                                    assert(old(self).history@[i + 1] == cur);
                                }
                            }
                            let rs = self.redo_stack@;
                            let rh = self.redo_history@;
                            let rn = rs.len() as int;
                            assert forall|i: int|
                                0 <= i < rn implies {
                                let above = if i + 1 < rn {
                                    rh[i + 1]
                                } else {
                                    cur
                                };
                                &&& (#[trigger] rs[i]).1.wf()
                                &&& edit_ok(above, rs[i].1@)
                                &&& fits(above, edit_growth(rs[i].1@))
                                &&& spec_execute(above, rs[i].1@) is Some
                                &&& (spec_execute(above, rs[i].1@)->0).0 == rh[i]
                                &&& cur_wf(rs[i].0, rh[i])
                                &&& model_wf(rh[i])
                            } by {
                                if i < rn - 1 {
                                    assert(rs[i] == old(self).redo_stack@[i]);
                                    assert(rh[i] == old(self).redo_history@[i]);
                                    if i + 1 < rn - 1 {
                                        assert(rh[i + 1] == old(self).redo_history@[i + 1]);
                                    } else {
                                        assert(rh[i + 1] == prevb);
                                    }
                                } else {
                                    assert(rs[i] == (presnap, re));
                                    assert(rh[i] == prevb);
                                    crate::buffer::lemma_model_wf(&self.buffer);
                                }
                            }
                        }
                    },
                    None => {
                        proof {
                            assert(false);
                        }
                    },
                }
            },
            None => {
                proof {
                    assert(false);
                }
            },
        }
    }

    /// Undoes the top group of edits: pops consecutive undo entries of the
    /// top entry's kind, executes each stored inverse (each lands exactly
    /// on its recorded checkpoint), pushes the matching redo entry per pop
    /// (the pre-pop cursor and the re-do edit the buffer returned),
    /// restores the cursor snapshot of the last entry popped and clears
    /// the selection. With an empty undo stack, only the selection clears.
    #[verifier::rlimit(100)]
    pub fn undo(&mut self)
        requires
            old(self).wf(),
        ensures
            final(self).wf(),
            final(self).selection is None,
            old(self).undo_stack@.len() == 0 ==> final(self).buffer@ == old(self).buffer@
                && final(self).undo_stack@ == old(self).undo_stack@ && final(self).redo_stack@
                == old(self).redo_stack@ && final(self).cursor == old(self).cursor,
            old(self).undo_stack@.len() > 0 ==> ({
                let n = old(self).undo_stack@.len() as int;
                let g = group_len(old(self).undo_stack@);
                let m = old(self).redo_stack@.len() as int;
                &&& final(self).undo_stack@ == old(self).undo_stack@.take(n - g)
                &&& final(self).history@ == old(self).history@.take(n - g)
                &&& final(self).buffer@ == old(self).history@[n - g]
                &&& final(self).cursor == old(self).undo_stack@[n - g].0
                &&& final(self).redo_stack@.len() == m + g
                &&& final(self).redo_stack@.take(m) == old(self).redo_stack@
                &&& final(self).redo_history@.take(m) == old(self).redo_history@
                &&& forall|k: int|
                    #![trigger final(self).redo_stack@[old(self).redo_stack@.len() + k]]
                    0 <= k < g ==> {
                        let above = if k == 0 {
                            old(self).buffer@
                        } else {
                            old(self).history@[n - k]
                        };
                        &&& final(self).redo_history@[m + k] == above
                        &&& final(self).redo_stack@[m + k].0 == (if k == 0 {
                            old(self).cursor
                        } else {
                            old(self).undo_stack@[n - k].0
                        })
                        &&& final(self).redo_stack@[m + k].1@ == (spec_execute(
                            above,
                            old(self).undo_stack@[n - 1 - k].1@,
                        )->0).1
                    }
            }),
    {
        self.selection = None;
        let n0 = self.undo_stack.len();
        if n0 == 0 {
            return ;
        }
        let ghost os = old(self).undo_stack@;
        let ghost oh = old(self).history@;
        let ghost ors = old(self).redo_stack@;
        let ghost orh = old(self).redo_history@;
        let ghost mut spill: Seq<(Cursor, Edit)> = Seq::empty();
        let ghost mut spill_h: Seq<Seq<Seq<GrView>>> = Seq::empty();
        proof {
            assert(oh.len() == os.len() && orh.len() == ors.len()) by {
                reveal(chain_ok);
            }
            assert(os.take(n0 as int) =~= os);
            assert(oh.take(n0 as int) =~= oh);
            assert(self.redo_stack@ =~= ors + spill);
            assert(self.redo_history@ =~= orh + spill_h);
        }
        let kind0 = self.undo_stack[n0 - 1].1.kind();
        let mut c: usize = 0;
        let mut stopped = false;
        while !stopped && c < n0
            invariant
                0 <= c <= n0,
                stopped ==> c < n0 && edit_kind(os[n0 - c - 1].1@) != kind0,
                n0 == os.len(),
                n0 == oh.len(),
                kind0 == edit_kind(os.last().1@),
                self.undo_stack@ == os.take(n0 - c),
                self.history@ == oh.take(n0 - c),
                forall|i: int|
                    n0 - c <= i < n0 ==> edit_kind((#[trigger] os[i]).1@) == kind0,
                c == 0 ==> self.buffer@ == old(self).buffer@ && self.cursor == old(self).cursor,
                c > 0 ==> self.buffer@ == oh[n0 - c] && self.cursor == os[n0 - c].0,
                self.buffer.wf(),
                cur_wf(self.cursor, self.buffer@),
                chain_ok(self.undo_stack@, self.history@, self.buffer@),
                chain_ok(self.redo_stack@, self.redo_history@, self.buffer@),
                spill.len() == c,
                spill_h.len() == c,
                self.redo_stack@ == ors + spill,
                self.redo_history@ == orh + spill_h,
                forall|k: int|
                    #![trigger spill[k]]
                    0 <= k < c ==> {
                        let above = if k == 0 {
                            old(self).buffer@
                        } else {
                            oh[n0 - k]
                        };
                        &&& spill[k].0 == (if k == 0 {
                            old(self).cursor
                        } else {
                            os[n0 - k].0
                        })
                        &&& spill[k].1@ == (spec_execute(above, os[n0 - 1 - k].1@)->0).1
                    },
                forall|k: int|
                    #![trigger spill_h[k]]
                    0 <= k < c ==> spill_h[k] == (if k == 0 {
                        old(self).buffer@
                    } else {
                        oh[n0 - k]
                    }),
                self.selection is None,
            decreases 2 * (n0 - c) + (if stopped { 0int } else { 1int }),
        {
            let m = self.undo_stack.len();
            let k = self.undo_stack[m - 1].1.kind();
            proof {
                assert(self.undo_stack@[m - 1] == os[n0 - c - 1]);
            }
            if k != kind0 {
                stopped = true;
            } else {
                let ghost before_stack = self.undo_stack@;
                let ghost before_buf = self.buffer@;
                let ghost before_redo = self.redo_stack@;
                let ghost before_rh = self.redo_history@;
                let ghost old_spill = spill;
                let ghost old_spill_h = spill_h;
                self.unwind_one();
                proof {
                    assert(self.undo_stack@ =~= os.take(n0 - (c + 1)));
                    assert(self.history@ =~= oh.take(n0 - (c + 1)));
                    assert(before_stack.last() == os[n0 - c - 1]);
                    assert(oh.take(n0 - c).last() == oh[n0 - c - 1]);
                    spill = spill.push(self.redo_stack@.last());
                    spill_h = spill_h.push(before_buf);
                    assert(before_redo == ors + old_spill);
                    assert(self.redo_stack@.drop_last() == before_redo);
                    assert(self.redo_history@ == before_rh.push(before_buf));
                    assert(self.redo_stack@.len() == ors.len() + spill.len());
                    assert forall|i: int|
                        0 <= i < self.redo_stack@.len() implies self.redo_stack@[i] == (ors
                        + spill)[i] by {
                        if i < ors.len() + old_spill.len() {
                            assert(self.redo_stack@[i] == self.redo_stack@.drop_last()[i]);
                            assert(before_redo[i] == (ors + old_spill)[i]);
                            if i >= ors.len() {
                                assert(spill[i - ors.len()] == old_spill[i - ors.len()]);
                            }
                        } else {
                            assert(self.redo_stack@[i] == self.redo_stack@.last());
                            assert(spill[i - ors.len()] == self.redo_stack@.last());
                        }
                    }
                    assert(self.redo_stack@ =~= ors + spill);
                    assert(self.redo_history@ =~= orh + spill_h);
                    assert forall|k2: int|
                        #![trigger spill[k2]]
                        0 <= k2 < c + 1 implies {
                        let above = if k2 == 0 {
                            old(self).buffer@
                        } else {
                            oh[n0 - k2]
                        };
                        &&& spill[k2].0 == (if k2 == 0 {
                            old(self).cursor
                        } else {
                            os[n0 - k2].0
                        })
                        &&& spill[k2].1@ == (spec_execute(above, os[n0 - 1 - k2].1@)->0).1
                    } by {
                        if k2 < c {
                            assert(spill[k2] == old_spill[k2]);
                        } else {
                            assert(spill[k2] == self.redo_stack@.last());
                        }
                    }
                    assert forall|k2: int|
                        #![trigger spill_h[k2]]
                        0 <= k2 < c + 1 implies spill_h[k2] == (if k2 == 0 {
                        old(self).buffer@
                    } else {
                        oh[n0 - k2]
                    }) by {
                        if k2 < c {
                            assert(spill_h[k2] == old_spill_h[k2]);
                        } else {
                            assert(spill_h[k2] == before_buf);
                        }
                    }
                }
                c = c + 1;
            }
        }
        proof {
            if c == 0 {
                assert(os[n0 - 1] == os.last());
                assert(false);
            }
            lemma_group_count(os, c as int);
            let m0 = ors.len() as int;
            assert(self.redo_stack@.take(m0) =~= ors);
            assert(self.redo_history@.take(m0) =~= orh);
            assert forall|k2: int|
                #![trigger self.redo_stack@[old(self).redo_stack@.len() + k2]]
                0 <= k2 < c implies {
                let above = if k2 == 0 {
                    old(self).buffer@
                } else {
                    oh[n0 - k2]
                };
                &&& self.redo_history@[m0 + k2] == above
                &&& self.redo_stack@[m0 + k2].0 == (if k2 == 0 {
                    old(self).cursor
                } else {
                    os[n0 - k2].0
                })
                &&& self.redo_stack@[m0 + k2].1@ == (spec_execute(
                    above,
                    os[n0 - 1 - k2].1@,
                )->0).1
            } by {
                assert(self.redo_stack@[m0 + k2] == spill[k2]);
                assert(self.redo_history@[m0 + k2] == spill_h[k2]);
            }
        }
    }


    /// Redoes the top group of edits: the mirror image of
    /// [`Screen::undo`]. Pops consecutive redo entries of the top entry's
    /// kind, executes each (landing exactly on its recorded checkpoint),
    /// pushes the matching undo entry per pop (the pre-pop cursor and the
    /// inverse the buffer returned), restores the cursor snapshot of the
    /// last entry popped and clears the selection.
    #[verifier::rlimit(100)]
    pub fn redo(&mut self)
        requires
            old(self).wf(),
        ensures
            final(self).wf(),
            final(self).selection is None,
            old(self).redo_stack@.len() == 0 ==> final(self).buffer@ == old(self).buffer@
                && final(self).undo_stack@ == old(self).undo_stack@ && final(self).redo_stack@
                == old(self).redo_stack@ && final(self).cursor == old(self).cursor,
            old(self).redo_stack@.len() > 0 ==> ({
                let n = old(self).redo_stack@.len() as int;
                let g = group_len(old(self).redo_stack@);
                let m = old(self).undo_stack@.len() as int;
                &&& final(self).redo_stack@ == old(self).redo_stack@.take(n - g)
                &&& final(self).redo_history@ == old(self).redo_history@.take(n - g)
                &&& final(self).buffer@ == old(self).redo_history@[n - g]
                &&& final(self).cursor == old(self).redo_stack@[n - g].0
                &&& final(self).undo_stack@.len() == m + g
                &&& final(self).undo_stack@.take(m) == old(self).undo_stack@
                &&& final(self).history@.take(m) == old(self).history@
                &&& forall|k: int|
                    #![trigger final(self).undo_stack@[old(self).undo_stack@.len() + k]]
                    0 <= k < g ==> {
                        let above = if k == 0 {
                            old(self).buffer@
                        } else {
                            old(self).redo_history@[n - k]
                        };
                        &&& final(self).history@[m + k] == above
                        &&& final(self).undo_stack@[m + k].0 == (if k == 0 {
                            old(self).cursor
                        } else {
                            old(self).redo_stack@[n - k].0
                        })
                        &&& final(self).undo_stack@[m + k].1@ == (spec_execute(
                            above,
                            old(self).redo_stack@[n - 1 - k].1@,
                        )->0).1
                    }
            }),
    {
        self.selection = None;
        let n0 = self.redo_stack.len();
        if n0 == 0 {
            return ;
        }
        let ghost os = old(self).redo_stack@;
        let ghost oh = old(self).redo_history@;
        let ghost ous = old(self).undo_stack@;
        let ghost ouh = old(self).history@;
        let ghost mut spill: Seq<(Cursor, Edit)> = Seq::empty();
        let ghost mut spill_h: Seq<Seq<Seq<GrView>>> = Seq::empty();
        proof {
            assert(oh.len() == os.len() && ouh.len() == ous.len()) by {
                reveal(chain_ok);
            }
            assert(os.take(n0 as int) =~= os);
            assert(oh.take(n0 as int) =~= oh);
            assert(self.undo_stack@ =~= ous + spill);
            assert(self.history@ =~= ouh + spill_h);
        }
        let kind0 = self.redo_stack[n0 - 1].1.kind();
        let mut c: usize = 0;
        let mut stopped = false;
        while !stopped && c < n0
            invariant
                0 <= c <= n0,
                stopped ==> c < n0 && edit_kind(os[n0 - c - 1].1@) != kind0,
                n0 == os.len(),
                n0 == oh.len(),
                kind0 == edit_kind(os.last().1@),
                self.redo_stack@ == os.take(n0 - c),
                self.redo_history@ == oh.take(n0 - c),
                forall|i: int|
                    n0 - c <= i < n0 ==> edit_kind((#[trigger] os[i]).1@) == kind0,
                c == 0 ==> self.buffer@ == old(self).buffer@ && self.cursor == old(self).cursor,
                c > 0 ==> self.buffer@ == oh[n0 - c] && self.cursor == os[n0 - c].0,
                self.buffer.wf(),
                cur_wf(self.cursor, self.buffer@),
                chain_ok(self.undo_stack@, self.history@, self.buffer@),
                chain_ok(self.redo_stack@, self.redo_history@, self.buffer@),
                spill.len() == c,
                spill_h.len() == c,
                self.undo_stack@ == ous + spill,
                self.history@ == ouh + spill_h,
                forall|k: int|
                    #![trigger spill[k]]
                    0 <= k < c ==> {
                        let above = if k == 0 {
                            old(self).buffer@
                        } else {
                            oh[n0 - k]
                        };
                        &&& spill[k].0 == (if k == 0 {
                            old(self).cursor
                        } else {
                            os[n0 - k].0
                        })
                        &&& spill[k].1@ == (spec_execute(above, os[n0 - 1 - k].1@)->0).1
                    },
                forall|k: int|
                    #![trigger spill_h[k]]
                    0 <= k < c ==> spill_h[k] == (if k == 0 {
                        old(self).buffer@
                    } else {
                        oh[n0 - k]
                    }),
                self.selection is None,
            decreases 2 * (n0 - c) + (if stopped { 0int } else { 1int }),
        {
            let m = self.redo_stack.len();
            let k = self.redo_stack[m - 1].1.kind();
            proof {
                assert(self.redo_stack@[m - 1] == os[n0 - c - 1]);
            }
            if k != kind0 {
                stopped = true;
            } else {
                let ghost before_stack = self.redo_stack@;
                let ghost before_buf = self.buffer@;
                let ghost before_undo = self.undo_stack@;
                let ghost before_uh = self.history@;
                let ghost old_spill = spill;
                let ghost old_spill_h = spill_h;
                self.rewind_one();
                proof {
                    assert(self.redo_stack@ =~= os.take(n0 - (c + 1)));
                    assert(self.redo_history@ =~= oh.take(n0 - (c + 1)));
                    assert(before_stack.last() == os[n0 - c - 1]);
                    assert(oh.take(n0 - c).last() == oh[n0 - c - 1]);
                    spill = spill.push(self.undo_stack@.last());
                    spill_h = spill_h.push(before_buf);
                    assert(before_undo == ous + old_spill);
                    assert(self.undo_stack@.drop_last() == before_undo);
                    assert(self.history@ == before_uh.push(before_buf));
                    assert(self.undo_stack@.len() == ous.len() + spill.len());
                    assert forall|i: int|
                        0 <= i < self.undo_stack@.len() implies self.undo_stack@[i] == (ous
                        + spill)[i] by {
                        if i < ous.len() + old_spill.len() {
                            assert(self.undo_stack@[i] == self.undo_stack@.drop_last()[i]);
                            assert(before_undo[i] == (ous + old_spill)[i]);
                            if i >= ous.len() {
                                assert(spill[i - ous.len()] == old_spill[i - ous.len()]);
                            }
                        } else {
                            assert(self.undo_stack@[i] == self.undo_stack@.last());
                            assert(spill[i - ous.len()] == self.undo_stack@.last());
                        }
                    }
                    assert(self.undo_stack@ =~= ous + spill);
                    assert(self.history@ =~= ouh + spill_h);
                    assert forall|k2: int|
                        #![trigger spill[k2]]
                        0 <= k2 < c + 1 implies {
                        let above = if k2 == 0 {
                            old(self).buffer@
                        } else {
                            oh[n0 - k2]
                        };
                        &&& spill[k2].0 == (if k2 == 0 {
                            old(self).cursor
                        } else {
                            os[n0 - k2].0
                        })
                        &&& spill[k2].1@ == (spec_execute(above, os[n0 - 1 - k2].1@)->0).1
                    } by {
                        if k2 < c {
                            assert(spill[k2] == old_spill[k2]);
                        } else {
                            assert(spill[k2] == self.undo_stack@.last());
                        }
                    }
                    assert forall|k2: int|
                        #![trigger spill_h[k2]]
                        0 <= k2 < c + 1 implies spill_h[k2] == (if k2 == 0 {
                        old(self).buffer@
                    } else {
                        oh[n0 - k2]
                    }) by {
                        if k2 < c {
                            assert(spill_h[k2] == old_spill_h[k2]);
                        } else {
                            assert(spill_h[k2] == before_buf);
                        }
                    }
                }
                c = c + 1;
            }
        }
        proof {
            if c == 0 {
                assert(os[n0 - 1] == os.last());
                assert(false);
            }
            lemma_group_count(os, c as int);
            let m0 = ous.len() as int;
            assert(self.undo_stack@.take(m0) =~= ous);
            assert(self.history@.take(m0) =~= ouh);
            assert forall|k2: int|
                #![trigger self.undo_stack@[old(self).undo_stack@.len() + k2]]
                0 <= k2 < c implies {
                let above = if k2 == 0 {
                    old(self).buffer@
                } else {
                    oh[n0 - k2]
                };
                &&& self.history@[m0 + k2] == above
                &&& self.undo_stack@[m0 + k2].0 == (if k2 == 0 {
                    old(self).cursor
                } else {
                    os[n0 - k2].0
                })
                &&& self.undo_stack@[m0 + k2].1@ == (spec_execute(
                    above,
                    os[n0 - 1 - k2].1@,
                )->0).1
            } by {
                assert(self.undo_stack@[m0 + k2] == spill[k2]);
                assert(self.history@[m0 + k2] == spill_h[k2]);
            }
        }
    }


    #[verifier::rlimit(100)]
    fn rewind_one(&mut self)
        requires
            old(self).buffer.wf(),
            cur_wf(old(self).cursor, old(self).buffer@),
            chain_ok(old(self).undo_stack@, old(self).history@, old(self).buffer@),
            chain_ok(old(self).redo_stack@, old(self).redo_history@, old(self).buffer@),
            old(self).redo_stack@.len() > 0,
        ensures
            final(self).buffer.wf(),
            cur_wf(final(self).cursor, final(self).buffer@),
            chain_ok(final(self).undo_stack@, final(self).history@, final(self).buffer@),
            chain_ok(final(self).redo_stack@, final(self).redo_history@, final(self).buffer@),
            final(self).redo_stack@ == old(self).redo_stack@.drop_last(),
            final(self).redo_history@ == old(self).redo_history@.drop_last(),
            final(self).buffer@ == old(self).redo_history@.last(),
            final(self).cursor == old(self).redo_stack@.last().0,
            final(self).undo_stack@.len() == old(self).undo_stack@.len() + 1,
            final(self).undo_stack@.drop_last() == old(self).undo_stack@,
            final(self).undo_stack@.last().0 == old(self).cursor,
            final(self).undo_stack@.last().1@ == (spec_execute(
                old(self).buffer@,
                old(self).redo_stack@.last().1@,
            )->0).1,
            final(self).history@ == old(self).history@.push(old(self).buffer@),
            final(self).selection == old(self).selection,
            final(self).message == old(self).message,
    {
        proof {
            reveal(chain_ok);
            let es = old(self).redo_stack@;
            assert(es[es.len() - 1] == es.last());
        }
        let popped = self.redo_stack.pop();
        match popped {
            Some(entry) => {
                let (snap, fwd) = entry;
                let ghost prevb = self.buffer@;
                proof {
                    crate::buffer::lemma_model_wf(&self.buffer);
                    lemma_execute_inverse(self.buffer@, fwd@);
                }
                let undo_e = self.buffer.execute(&fwd);
                match undo_e {
                    Some(ue) => {
                        let presnap = self.cursor;
                        self.undo_stack.push((presnap, ue));
                        self.history = Ghost(self.history@.push(prevb));
                        self.cursor = snap;
                        self.redo_history = Ghost(self.redo_history@.drop_last());
                        proof {
                            reveal(chain_ok);
                            let es = self.redo_stack@;
                            let hist = self.redo_history@;
                            let cur = self.buffer@;
                            let n = es.len() as int;
                            assert(es =~= old(self).redo_stack@.drop_last());
                            assert(hist =~= old(self).redo_history@.drop_last());
                            assert forall|i: int|
                                0 <= i < n implies {
                                let above = if i + 1 < n {
                                    hist[i + 1]
                                } else {
                                    cur
                                };
                                &&& (#[trigger] es[i]).1.wf()
                                &&& edit_ok(above, es[i].1@)
                                &&& fits(above, edit_growth(es[i].1@))
                                &&& spec_execute(above, es[i].1@) is Some
                                &&& (spec_execute(above, es[i].1@)->0).0 == hist[i]
                                &&& cur_wf(es[i].0, hist[i])
                                &&& model_wf(hist[i])
                            } by {
                                assert(es[i] == old(self).redo_stack@[i]);
                                assert(old(self).redo_history@[i] == hist[i]);
                                if i + 1 < n {
                                    assert(old(self).redo_history@[i + 1] == hist[i + 1]);
                                } else {
                                    assert(old(self).redo_history@[i + 1] == cur);
                                }
                            }
                            let rs = self.undo_stack@;
                            let rh = self.history@;
                            let rn = rs.len() as int;
                            assert forall|i: int|
                                0 <= i < rn implies {
                                let above = if i + 1 < rn {
                                    rh[i + 1]
                                } else {
                                    cur
                                };
                                &&& (#[trigger] rs[i]).1.wf()
                                &&& edit_ok(above, rs[i].1@)
                                &&& fits(above, edit_growth(rs[i].1@))
                                &&& spec_execute(above, rs[i].1@) is Some
                                &&& (spec_execute(above, rs[i].1@)->0).0 == rh[i]
                                &&& cur_wf(rs[i].0, rh[i])
                                &&& model_wf(rh[i])
                            } by {
                                if i < rn - 1 {
                                    assert(rs[i] == old(self).undo_stack@[i]);
                                    assert(rh[i] == old(self).history@[i]);
                                    if i + 1 < rn - 1 {
                                        assert(rh[i + 1] == old(self).history@[i + 1]);
                                    } else {
                                        assert(rh[i + 1] == prevb);
                                    }
                                } else {
                                    assert(rs[i] == (presnap, ue));
                                    assert(rh[i] == prevb);
                                    crate::buffer::lemma_model_wf(&self.buffer);
                                }
                            }
                        }
                    },
                    None => {
                        proof {
                            assert(false);
                        }
                    },
                }
            },
            None => {
                proof {
                    assert(false);
                }
            },
        }
    }
}

/// The number of decimal digits in a line count.
pub open spec fn dec_digits(n: nat) -> nat
    decreases n,
{
    if n < 10 {
        1
    } else {
        1 + dec_digits(n / 10)
    }
}

proof fn lemma_dec_digits_le(n: nat)
    requires
        n >= 1,
    ensures
        dec_digits(n) <= n,
    decreases n,
{
    if n >= 10 {
        lemma_dec_digits_le(n / 10);
    }
}

impl Screen {
    /// The width of the line-number gutter: the decimal digits of the
    /// line count.
    pub fn line_number_width(&self) -> (r: usize)
        requires
            self.wf(),
        ensures
            r == dec_digits(self.buffer@.len() as nat),
    {
        let ghost total = self.buffer@.len() as nat;
        let mut n = self.buffer.line_count();
        let mut w: usize = 1;
        proof {
            lemma_dec_digits_le(total);
            assert(2 * self.buffer@.len() <= usize::MAX / 2);
        }
        while n >= 10
            invariant
                total >= 1,
                n >= 1,
                w >= 1,
                dec_digits(total) == w - 1 + dec_digits(n as nat),
                w + dec_digits(n as nat) <= total + 1,
                total <= usize::MAX / 4,
            decreases n,
        {
            n = n / 10;
            w = w + 1;
        }
        w
    }

    /// Scrolls the viewport origin the least amount that keeps the cursor
    /// inside a `width` by `height` window, with a four-column horizontal
    /// margin where the width allows one: a row already in view leaves the
    /// vertical origin unchanged; the horizontal origin moves only by the
    /// margin rule. The resulting origin is pinned exactly. The window must
    /// be wider than the four-column margin for the margin rule to leave
    /// the cursor in view.
    pub fn update_viewport(&mut self, width: usize, height: usize)
        requires
            old(self).wf(),
            width > 4,
            height >= 1,
        ensures
            final(self).wf(),
            final(self).origin.y <= final(self).cursor.row < final(self).origin.y + height,
            final(self).origin.x <= final(self).cursor.column < final(self).origin.x + width,
            final(self).origin.y == ({
                let row = old(self).cursor.row as int;
                let oy = old(self).origin.y as int;
                if row >= oy && row - oy >= height {
                    row - (height - 1)
                } else if row < oy {
                    row
                } else {
                    oy
                }
            }),
            final(self).origin.x == ({
                let padded: int = if width > 4 {
                    width - 4
                } else {
                    width as int
                };
                let col = old(self).cursor.column as int;
                let ox = old(self).origin.x as int;
                if col >= ox && col - ox >= padded {
                    col - (padded - 1)
                } else if col < ox || col - ox <= 4 {
                    if col >= 4 {
                        col - 4
                    } else {
                        0
                    }
                } else {
                    ox
                }
            }),
            final(self).buffer == old(self).buffer,
            final(self).cursor == old(self).cursor,
            final(self).undo_stack == old(self).undo_stack,
            final(self).redo_stack == old(self).redo_stack,
            final(self).selection == old(self).selection,
    {
        let mut origin_x = self.origin.x;
        let mut origin_y = self.origin.y;
        let cursor_y = self.cursor.row;
        let column = self.cursor.column;

        if cursor_y >= origin_y && cursor_y - origin_y >= height {
            origin_y = cursor_y - (height - 1);
        } else if cursor_y < origin_y {
            origin_y = cursor_y;
        }

        let padding: usize = 4;
        let padded_width = if width > padding {
            width - padding
        } else {
            width
        };
        if column >= origin_x && column - origin_x >= padded_width {
            origin_x = column - (padded_width - 1);
        } else if column < origin_x || column - origin_x <= padding {
            origin_x = if column >= padding {
                column - padding
            } else {
                0
            };
        }

        self.origin = Point { x: origin_x, y: origin_y };
    }

    /// Places the cursor from screen coordinates: the column is taken
    /// relative to the line-number gutter and the viewport origin (clamped
    /// at the edges), the row is clamped into the buffer, and the target
    /// column resolves by the column-lookup rule.
    pub fn set_cursor(&mut self, x: usize, y: usize)
        requires
            old(self).wf(),
        ensures
            final(self).wf(),
            final(self).selection is None,
            final(self).buffer == old(self).buffer,
            final(self).undo_stack == old(self).undo_stack,
            final(self).redo_stack == old(self).redo_stack,
            ({
                let lnw = dec_digits(old(self).buffer@.len() as nat);
                let xr: int = if x > lnw {
                    x - lnw
                } else {
                    0
                };
                let xcol: int = if xr + old(self).origin.x <= usize::MAX {
                    xr + old(self).origin.x
                } else {
                    usize::MAX as int
                };
                let count = old(self).buffer@.len() as int;
                let yr: int = if y + old(self).origin.y < count {
                    y + old(self).origin.y
                } else {
                    count - 1
                };
                &&& final(self).cursor.row == yr
                &&& final(self).cursor.index == crate::cursor::col_lookup(
                    old(self).buffer@[yr],
                    xcol,
                )
                &&& final(self).cursor.desired_column == 0
            }),
    {
        let lnw = self.line_number_width();
        let xr = if x > lnw {
            x - lnw
        } else {
            0
        };
        let xcol = if xr <= usize::MAX - self.origin.x {
            xr + self.origin.x
        } else {
            usize::MAX
        };
        let count = self.buffer.line_count();
        let yr = if y < count && self.origin.y < count && y + self.origin.y < count {
            y + self.origin.y
        } else {
            count - 1
        };
        self.cursor = Cursor::from(&self.buffer, xcol, yr);
        self.deselect();
    }
}

} // verus!
