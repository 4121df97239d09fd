//! The cursor: a logical position against a buffer, kept consistent in all
//! coordinate systems at once — line row, byte offset and grapheme index in
//! the line, display column, and absolute byte offset in the buffer.
//!
//! Horizontal movement walks grapheme positions. The positions of a buffer
//! form one line of `size + 1` boundaries per row; crossing a line boundary
//! consumes one step. [`pos_at`] numbers all positions left to right, which
//! makes movement arithmetic: stepping right adds one, stepping left
//! subtracts one.
use vstd::prelude::*;
use crate::buffer::Buffer;
use crate::buffer::buf_bytes;
use crate::grapheme::GrView;
use crate::grapheme::byte_count;
use crate::line::Line;
use crate::line::byte_at;
use crate::line::cells_wf;
use crate::line::col_at;
use crate::line::lemma_at_step;
use crate::line::lemma_byte_at_mono;
use crate::line::lemma_seg_split;
use crate::line::seg_bytes;
use crate::line::seg_width;

verus! {

/// A direction of cursor movement.
#[derive(Clone, Copy, PartialEq, Eq, Structural, Debug)]
pub enum Direction {
    Up,
    Down,
    Left,
    Right,
}

/// Sum of bytes of the lines before row `r`: the absolute byte offset of
/// that row's first character.
pub open spec fn prefix_bytes(ls: Seq<Seq<GrView>>, r: int) -> nat {
    buf_bytes(ls.take(r))
}

/// The number of cursor positions a buffer offers: each line holds its
/// cluster count plus one (the position at its end).
pub open spec fn slots(ls: Seq<Seq<GrView>>) -> nat
    decreases ls.len(),
{
    if ls.len() == 0 {
        0
    } else {
        slots(ls.drop_last()) + ls.last().len() + 1
    }
}

/// The absolute number of the position at row `r`, cluster index `i`.
pub open spec fn pos_at(ls: Seq<Seq<GrView>>, r: int, i: int) -> int {
    slots(ls.take(r)) as int + i
}

/// `(r, i)` addresses a position: an existing row and a cluster index up to
/// and including that line's size.
pub open spec fn valid_rc(ls: Seq<Seq<GrView>>, r: int, i: int) -> bool {
    0 <= r < ls.len() && 0 <= i <= ls[r].len()
}

/// The last position: the end of the last line.
pub open spec fn max_pos(ls: Seq<Seq<GrView>>) -> int {
    slots(ls) as int - 1
}

pub proof fn lemma_slots_step(ls: Seq<Seq<GrView>>, r: int)
    requires
        0 <= r < ls.len(),
    ensures
        slots(ls.take(r + 1)) == slots(ls.take(r)) + ls[r].len() + 1,
{
    assert(ls.take(r + 1).drop_last() =~= ls.take(r));
    assert(ls.take(r + 1).last() == ls[r]);
}

pub proof fn lemma_prefix_step(ls: Seq<Seq<GrView>>, r: int)
    requires
        0 <= r < ls.len(),
    ensures
        prefix_bytes(ls, r + 1) == prefix_bytes(ls, r) + seg_bytes(ls[r]),
{
    assert(ls.take(r + 1).drop_last() =~= ls.take(r));
    assert(ls.take(r + 1).last() == ls[r]);
}

/// Positions grow with the row, and every valid position lies between the
/// first and the last one.
pub proof fn lemma_pos_bounds(ls: Seq<Seq<GrView>>, r: int, i: int)
    requires
        valid_rc(ls, r, i),
    ensures
        0 <= pos_at(ls, r, i),
        pos_at(ls, r, i) + (ls[r].len() - i) <= max_pos(ls),
    decreases ls.len() - r,
{
    lemma_slots_step(ls, r);
    if r + 1 == ls.len() {
        assert(ls.take(r + 1) =~= ls);
    } else {
        lemma_pos_bounds(ls, r + 1, 0);
    }
}

/// A position number determines its row and cluster index uniquely.
pub proof fn lemma_pos_unique(ls: Seq<Seq<GrView>>, r1: int, i1: int, r2: int, i2: int)
    requires
        valid_rc(ls, r1, i1),
        valid_rc(ls, r2, i2),
        pos_at(ls, r1, i1) == pos_at(ls, r2, i2),
    ensures
        r1 == r2,
        i1 == i2,
{
    if r1 < r2 {
        lemma_pos_order(ls, r1, r2);
    }
    if r2 < r1 {
        lemma_pos_order(ls, r2, r1);
    }
}

proof fn lemma_pos_order(ls: Seq<Seq<GrView>>, r1: int, r2: int)
    requires
        0 <= r1 < r2 < ls.len(),
    ensures
        slots(ls.take(r1)) + ls[r1].len() + 1 <= slots(ls.take(r2)),
    decreases r2 - r1,
{
    lemma_slots_step(ls, r1);
    if r1 + 1 < r2 {
        lemma_pos_order(ls, r1 + 1, r2);
        lemma_slots_step(ls, r1 + 1);
        assert(slots(ls.take(r1 + 2)) >= slots(ls.take(r1 + 1)));
    }
}

/// The column-lookup rule: the first cluster from `i` on whose column
/// interval contains the target, or the line's size when none does.
pub open spec fn col_lookup_from(cs: Seq<GrView>, t: int, i: int) -> int
    decreases cs.len() - i,
{
    if i >= cs.len() || i < 0 {
        cs.len() as int
    } else if col_at(cs, i) <= t < col_at(cs, i) + cs[i].width {
        i
    } else {
        col_lookup_from(cs, t, i + 1)
    }
}

/// Scan a line's clusters left to right for the one whose column interval
/// holds the target; past the last column, the end of the line.
pub open spec fn col_lookup(cs: Seq<GrView>, t: int) -> int {
    col_lookup_from(cs, t, 0)
}

pub proof fn lemma_col_lookup_bounds(cs: Seq<GrView>, t: int, i: int)
    requires
        0 <= i <= cs.len(),
    ensures
        i <= col_lookup_from(cs, t, i) <= cs.len(),
    decreases cs.len() - i,
{
    if i < cs.len() && !(col_at(cs, i) <= t < col_at(cs, i) + cs[i].width) {
        lemma_col_lookup_bounds(cs, t, i + 1);
    }
}

/// Moving right `k` grapheme positions and then left `k` again returns to
/// the original row and cluster index (and with them the original byte
/// offset), provided the right move did not run into the buffer's end.
pub proof fn lemma_move_round_trip(
    ls: Seq<Seq<GrView>>,
    r0: int,
    i0: int,
    r1: int,
    i1: int,
    r2: int,
    i2: int,
    k: int,
)
    requires
        valid_rc(ls, r0, i0),
        valid_rc(ls, r1, i1),
        valid_rc(ls, r2, i2),
        k >= 0,
        pos_at(ls, r0, i0) + k <= max_pos(ls),
        pos_at(ls, r1, i1) == pos_at(ls, r0, i0) + k,
        pos_at(ls, r2, i2) == (if pos_at(ls, r1, i1) - k >= 0 {
            pos_at(ls, r1, i1) - k
        } else {
            0
        }),
    ensures
        r2 == r0,
        i2 == i0,
        byte_at(ls[r2], i2) == byte_at(ls[r0], i0),
{
    lemma_pos_bounds(ls, r0, i0);
    lemma_pos_unique(ls, r2, i2, r0, i0);
}

/// Cursor `a` is exactly one `step_cursor` step from `b` in `direction`:
/// vertically, the row shifts by one (clamped at the buffer's ends) and the
/// remembered desired column resolves against the new row; horizontally,
/// the position number moves by one (clamped) and the resulting column is
/// remembered.
pub open spec fn stepped(ls: Seq<Seq<GrView>>, b: Cursor, a: Cursor, direction: Direction) -> bool {
    match direction {
        Direction::Up => {
            &&& (1 > b.row ==> a.row == 0 && a.index == 0)
            &&& (1 <= b.row ==> a.row == b.row - 1 && a.index == col_lookup(
                ls[b.row - 1],
                b.desired_column as int,
            ))
            &&& a.desired_column == b.desired_column
        },
        Direction::Down => {
            &&& (1 + b.row >= ls.len() ==> a.row == ls.len() - 1 && a.index == ls[ls.len()
                - 1].len())
            &&& (1 + b.row < ls.len() ==> a.row == b.row + 1 && a.index == col_lookup(
                ls[b.row + 1],
                b.desired_column as int,
            ))
            &&& a.desired_column == b.desired_column
        },
        Direction::Left => {
            &&& pos_at(ls, a.row as int, a.index as int) == (if pos_at(
                ls,
                b.row as int,
                b.index as int,
            ) >= 1 {
                pos_at(ls, b.row as int, b.index as int) - 1
            } else {
                0
            })
            &&& a.desired_column == a.column
        },
        Direction::Right => {
            &&& pos_at(ls, a.row as int, a.index as int) == (if pos_at(
                ls,
                b.row as int,
                b.index as int,
            ) + 1 <= max_pos(ls) {
                pos_at(ls, b.row as int, b.index as int) + 1
            } else {
                max_pos(ls)
            })
            &&& a.desired_column == a.column
        },
    }
}

/// One cluster's descriptor inside a line: its byte offset, display width,
/// starting column, cluster index and text. Past the last cluster, the
/// end-of-line sentinel (byte = line bytes, column = line width, index =
/// size, empty text, width zero).
pub struct ColumnIndex {
    pub byte: usize,
    pub width: usize,
    pub column: usize,
    pub index: usize,
    pub grapheme: String,
}

/// A cursor into a buffer. All coordinate fields are kept consistent: see
/// [`cur_wf`].
#[derive(Clone, Copy, Debug)]
pub struct Cursor {
    pub row: usize,
    pub column: usize,
    pub byte: usize,
    pub index: usize,
    pub offset: usize,
    pub desired_column: usize,
}

/// The cursor invariant against a buffer: the row exists, the cluster index
/// lies within the line, and byte, column and absolute offset are the
/// coordinates of exactly that cluster boundary.
pub open spec fn cur_wf(c: Cursor, ls: Seq<Seq<GrView>>) -> bool {
    &&& c.row < ls.len()
    &&& c.index <= ls[c.row as int].len()
    &&& c.byte == byte_at(ls[c.row as int], c.index as int)
    &&& c.column == col_at(ls[c.row as int], c.index as int)
    &&& c.offset == prefix_bytes(ls, c.row as int) + c.byte
}

/// The all-zero cursor addresses the start of any non-empty buffer.
pub proof fn lemma_origin_wf(c: Cursor, ls: Seq<Seq<GrView>>)
    requires
        ls.len() >= 1,
        c.row == 0,
        c.column == 0,
        c.byte == 0,
        c.index == 0,
        c.offset == 0,
    ensures
        cur_wf(c, ls),
{
    assert(ls[0].take(0) =~= Seq::<GrView>::empty());
    assert(ls.take(0) =~= Seq::<Seq<GrView>>::empty());
}

impl Cursor {
    /// The cursor at the buffer's origin.
    pub fn new() -> (r: Cursor)
        ensures
            r.row == 0 && r.column == 0 && r.byte == 0 && r.index == 0 && r.offset == 0
                && r.desired_column == 0,
    {
        Cursor { row: 0, column: 0, byte: 0, index: 0, offset: 0, desired_column: 0 }
    }

    /// The absolute byte offset where row `row` begins: the byte lengths of
    /// all earlier lines, summed.
    pub fn offset(row: usize, buf: &Buffer) -> (r: usize)
        requires
            buf.wf(),
            row <= buf@.len(),
        ensures
            r == prefix_bytes(buf@, row as int),
    {
        let mut acc: usize = 0;
        let mut j: usize = 0;
        while j < row
            invariant
                buf.wf(),
                row <= buf@.len(),
                0 <= j <= row,
                acc == prefix_bytes(buf@, j as int),
            decreases row - j,
        {
            proof {
                assert(buf.lines@[j as int].wf());
                assert(buf@[j as int] == buf.lines@[j as int]@);
                lemma_prefix_step(buf@, j as int);
                crate::buffer::lemma_buf_split(buf@, j + 1);
            }
            let b = buf.line_at(j).byte_len();
            acc = acc + b;
            j = j + 1;
        }
        acc
    }

    fn find_column(line: &Line, column: usize) -> (r: ColumnIndex)
        requires
            line.wf(),
        ensures
            ({
                let i = col_lookup(line@, column as int);
                &&& r.index == i
                &&& r.byte == byte_at(line@, i)
                &&& r.column == col_at(line@, i)
                &&& (i < line@.len() ==> r.width == line@[i].width && r.grapheme@
                    == line@[i].text)
                &&& (i >= line@.len() ==> r.width == 0 && r.grapheme@.len() == 0)
            }),
    {
        let n = line.size();
        let mut j: usize = 0;
        let mut byte: usize = 0;
        let mut col: usize = 0;
        while j < n
            invariant
                line.wf(),
                n == line@.len(),
                0 <= j <= n,
                byte == byte_at(line@, j as int),
                col == col_at(line@, j as int),
                col_lookup(line@, column as int) == col_lookup_from(
                    line@,
                    column as int,
                    j as int,
                ),
            decreases n - j,
        {
            proof {
                lemma_at_step(line@, j as int);
                lemma_byte_at_mono(line@, j + 1, n as int);
                assert(line@.take(n as int) =~= line@);
                assert(cells_wf(line@));
                crate::grapheme::lemma_byte_count_bounds(line@[j as int].text);
            }
            let g = line.cell(j);
            let w = g.width;
            if col <= column && column < col + w {
                return ColumnIndex {
                    byte,
                    width: w,
                    column: col,
                    index: j,
                    grapheme: g.text.clone(),
                };
            }
            byte = byte + g.byte_len();
            col = col + w;
            j = j + 1;
        }
        ColumnIndex { byte, width: 0, column: col, index: n, grapheme: String::new() }
    }

    fn find_index(line: &Line, index: usize) -> (r: ColumnIndex)
        requires
            line.wf(),
            index <= line@.len(),
        ensures
            r.index == index,
            r.byte == byte_at(line@, index as int),
            r.column == col_at(line@, index as int),
    {
        let (b, c) = line.prefix_metrics(index);
        if index < line.size() {
            let g = line.cell(index);
            ColumnIndex { byte: b, width: g.width, column: c, index, grapheme: g.text.clone() }
        } else {
            ColumnIndex { byte: b, width: 0, column: c, index, grapheme: String::new() }
        }
    }

    /// Places a cursor at display column `x` of row `y`, clamping the row
    /// into range and resolving the column by the column-lookup rule.
    pub fn from(buf: &Buffer, x: usize, y: usize) -> (r: Cursor)
        requires
            buf.wf(),
        ensures
            cur_wf(r, buf@),
            r.row == if y < buf@.len() {
                y as int
            } else {
                buf@.len() - 1
            },
            r.index == col_lookup(buf@[r.row as int], x as int),
            r.desired_column == 0,
    {
        let count = buf.line_count();
        let yy = if y < count {
            y
        } else {
            count - 1
        };
        proof {
            assert(buf.lines@[yy as int].wf());
            assert(buf@[yy as int] == buf.lines@[yy as int]@);
        }
        let line = buf.line_at(yy);
        let ci = Self::find_column(line, x);
        let off = Cursor::offset(yy, buf);
        proof {
            lemma_col_lookup_bounds(line@, x as int, 0);
            lemma_byte_at_mono(line@, ci.index as int, line@.len() as int);
            assert(line@.take(line@.len() as int) =~= line@);
            lemma_prefix_step(buf@, yy as int);
            crate::buffer::lemma_buf_split(buf@, yy + 1);
        }
        Cursor {
            row: yy,
            column: ci.column,
            byte: ci.byte,
            index: ci.index,
            offset: off + ci.byte,
            desired_column: 0,
        }
    }

    /// Moves the cursor. Vertical movement shifts the row (clamped to the
    /// buffer) and re-resolves the remembered desired column against the
    /// new row. Horizontal movement walks grapheme positions, one line
    /// break per line transition, clamped at the buffer's ends, and then
    /// remembers the resulting column.
    #[verifier::rlimit(50)]
    pub fn move_cursor(&mut self, buf: &Buffer, direction: Direction, steps: usize)
        requires
            buf.wf(),
            cur_wf(*old(self), buf@),
        ensures
            cur_wf(*final(self), buf@),
            direction == Direction::Up ==> ({
                let r0 = old(self).row as int;
                &&& (steps > r0 ==> final(self).row == 0 && final(self).index == 0)
                &&& (steps <= r0 ==> final(self).row == r0 - steps && final(self).index
                    == col_lookup(buf@[r0 - steps], old(self).desired_column as int))
                &&& final(self).desired_column == old(self).desired_column
            }),
            direction == Direction::Down ==> ({
                let r0 = old(self).row as int;
                let n = buf@.len() as int;
                &&& (steps + r0 >= n ==> final(self).row == n - 1 && final(self).index == buf@[n
                    - 1].len())
                &&& (steps + r0 < n ==> final(self).row == r0 + steps && final(self).index
                    == col_lookup(buf@[r0 + steps], old(self).desired_column as int))
                &&& final(self).desired_column == old(self).desired_column
            }),
            direction == Direction::Left ==> ({
                let p0 = pos_at(buf@, old(self).row as int, old(self).index as int);
                let p1 = pos_at(buf@, final(self).row as int, final(self).index as int);
                &&& p1 == (if p0 - steps >= 0 {
                    p0 - steps
                } else {
                    0
                })
                &&& final(self).desired_column == final(self).column
            }),
            direction == Direction::Right ==> ({
                let p0 = pos_at(buf@, old(self).row as int, old(self).index as int);
                let p1 = pos_at(buf@, final(self).row as int, final(self).index as int);
                &&& p1 == (if p0 + steps <= max_pos(buf@) {
                    p0 + steps
                } else {
                    max_pos(buf@)
                })
                &&& final(self).desired_column == final(self).column
            }),
    {
        let ghost ls = buf@;
        match direction {
            Direction::Up => {
                if steps > self.row {
                    self.row = 0;
                    self.byte = 0;
                    self.index = 0;
                    self.column = 0;
                    proof {
                        assert(ls[0].take(0) =~= Seq::<GrView>::empty());
                    }
                } else {
                    self.row = self.row - steps;
                    proof {
                        assert(buf.lines@[self.row as int].wf());
                        assert(ls[self.row as int] == buf.lines@[self.row as int]@);
                    }
                    let line = buf.line_at(self.row);
                    let ci = Self::find_column(line, self.desired_column);
                    proof {
                        lemma_col_lookup_bounds(line@, self.desired_column as int, 0);
                    }
                    self.column = ci.column;
                    self.byte = ci.byte;
                    self.index = ci.index;
                }
            },
            Direction::Down => {
                let count = buf.line_count();
                if steps >= count - self.row {
                    self.row = count - 1;
                    proof {
                        assert(buf.lines@[self.row as int].wf());
                        assert(ls[self.row as int] == buf.lines@[self.row as int]@);
                    }
                    let line = buf.line_at(self.row);
                    self.byte = line.byte_len();
                    self.index = line.size();
                    self.column = line.width();
                    proof {
                        let l = ls[self.row as int];
                        assert(l.take(l.len() as int) =~= l);
                    }
                } else {
                    self.row = self.row + steps;
                    proof {
                        assert(buf.lines@[self.row as int].wf());
                        assert(ls[self.row as int] == buf.lines@[self.row as int]@);
                    }
                    let line = buf.line_at(self.row);
                    let ci = Self::find_column(line, self.desired_column);
                    proof {
                        lemma_col_lookup_bounds(line@, self.desired_column as int, 0);
                    }
                    self.column = ci.column;
                    self.byte = ci.byte;
                    self.index = ci.index;
                }
            },
            Direction::Left => {
                let ghost p0 = pos_at(ls, self.row as int, self.index as int);
                let mut remain = steps;
                proof {
                    lemma_pos_bounds(ls, self.row as int, self.index as int);
                }
                while remain > 0
                    invariant
                        buf.wf(),
                        ls == buf@,
                        self.row < ls.len(),
                        self.index <= ls[self.row as int].len(),
                        remain <= steps,
                        pos_at(ls, self.row as int, self.index as int) == p0 - (steps - remain)
                            || (pos_at(ls, self.row as int, self.index as int) == 0 && remain
                            == 0 && p0 - steps < 0),
                    decreases remain,
                {
                    let take_n = if remain < self.index {
                        remain
                    } else {
                        self.index
                    };
                    self.index = self.index - take_n;
                    remain = remain - take_n;
                    if self.index == 0 && remain > 0 {
                        if self.row == 0 {
                            proof {
                                assert(ls.take(0int) =~= Seq::<Seq<GrView>>::empty());
                                assert(pos_at(ls, 0, 0) == 0);
                            }
                            remain = 0;
                        } else {
                            self.row = self.row - 1;
                            proof {
                                assert(buf.lines@[self.row as int].wf());
                                assert(ls[self.row as int] == buf.lines@[self.row as int]@);
                                lemma_slots_step(ls, self.row as int);
                            }
                            let line = buf.line_at(self.row);
                            self.index = line.size();
                            remain = remain - 1;
                        }
                    }
                }
                proof {
                    assert(buf.lines@[self.row as int].wf());
                    assert(ls[self.row as int] == buf.lines@[self.row as int]@);
                    lemma_pos_bounds(ls, self.row as int, self.index as int);
                }
                let line = buf.line_at(self.row);
                let ci = Self::find_index(line, self.index);
                self.column = ci.column;
                self.byte = ci.byte;
                self.desired_column = ci.column;
            },
            Direction::Right => {
                let ghost p0 = pos_at(ls, self.row as int, self.index as int);
                let count = buf.line_count();
                let mut remain = steps;
                proof {
                    lemma_pos_bounds(ls, self.row as int, self.index as int);
                }
                while remain > 0
                    invariant
                        buf.wf(),
                        ls == buf@,
                        count == ls.len(),
                        self.row < ls.len(),
                        self.index <= ls[self.row as int].len(),
                        remain <= steps,
                        pos_at(ls, self.row as int, self.index as int) == p0 + (steps - remain)
                            || (pos_at(ls, self.row as int, self.index as int) == max_pos(ls)
                            && remain == 0 && p0 + steps > max_pos(ls)),
                    decreases remain,
                {
                    proof {
                        assert(buf.lines@[self.row as int].wf());
                        assert(ls[self.row as int] == buf.lines@[self.row as int]@);
                        lemma_pos_bounds(ls, self.row as int, self.index as int);
                    }
                    let line = buf.line_at(self.row);
                    let sz = line.size();
                    let avail = sz - self.index;
                    let take_n = if remain < avail {
                        remain
                    } else {
                        avail
                    };
                    self.index = self.index + take_n;
                    remain = remain - take_n;
                    if self.index >= sz && remain > 0 {
                        if self.row >= count - 1 {
                            proof {
                                lemma_slots_step(ls, ls.len() - 1);
                                assert(ls.take(ls.len() as int) =~= ls);
                                assert(pos_at(ls, ls.len() - 1, ls[ls.len() - 1].len() as int) == max_pos(ls));
                            }
                            remain = 0;
                        } else {
                            proof {
                                lemma_slots_step(ls, self.row as int);
                            }
                            self.row = self.row + 1;
                            self.index = 0;
                            remain = remain - 1;
                        }
                    }
                }
                proof {
                    assert(buf.lines@[self.row as int].wf());
                    assert(ls[self.row as int] == buf.lines@[self.row as int]@);
                    lemma_pos_bounds(ls, self.row as int, self.index as int);
                }
                let line = buf.line_at(self.row);
                let ci = Self::find_index(line, self.index);
                self.column = ci.column;
                self.byte = ci.byte;
                self.desired_column = ci.column;
            },
        }
        proof {
            assert(buf.lines@[self.row as int].wf());
            assert(ls[self.row as int] == buf.lines@[self.row as int]@);
            lemma_byte_at_mono(ls[self.row as int], self.index as int, ls[self.row as int].len() as int);
            assert(ls[self.row as int].take(ls[self.row as int].len() as int) =~= ls[self.row as int]);
            lemma_prefix_step(ls, self.row as int);
            crate::buffer::lemma_buf_split(ls, self.row + 1);
        }
        let off = Cursor::offset(self.row, buf);
        self.offset = off + self.byte;
    }

    /// One single-grapheme step. Horizontal steps use the cluster under the
    /// cursor directly; vertical steps delegate to [`Cursor::move_cursor`].
    /// Stepping left at a line's start jumps to the previous line's end;
    /// stepping right at a line's end jumps to the next line's start; at
    /// the buffer's ends the cursor stays put.
    #[verifier::rlimit(100)]
    pub fn step_cursor(&mut self, buf: &Buffer, direction: Direction)
        requires
            buf.wf(),
            cur_wf(*old(self), buf@),
        ensures
            cur_wf(*final(self), buf@),
            stepped(buf@, *old(self), *final(self), direction),
    {
        let ghost ls = buf@;
        match direction {
            Direction::Left => {
                proof {
                    assert(buf.lines@[self.row as int].wf());
                    assert(ls[self.row as int] == buf.lines@[self.row as int]@);
                }
                if self.index > 0 {
                    let line = buf.line_at(self.row);
                    proof {
                        lemma_at_step(ls[self.row as int], self.index - 1);
                        assert(cells_wf(ls[self.row as int]));
                        crate::grapheme::lemma_byte_count_bounds(
                            ls[self.row as int][self.index - 1].text,
                        );
                    }
                    let g = line.cell(self.index - 1);
                    let gb = g.byte_len();
                    self.index = self.index - 1;
                    self.byte = self.byte - gb;
                    self.column = self.column - g.width;
                    self.offset = self.offset - gb;
                    self.desired_column = self.column;
                } else if self.row > 0 {
                    proof {
                        lemma_slots_step(ls, self.row - 1);
                    }
                    self.row = self.row - 1;
                    self.end(buf);
                } else {
                    self.home(buf);
                    proof {
                        assert(ls.take(0int) =~= Seq::<Seq<GrView>>::empty());
                    }
                }
            },
            Direction::Right => {
                proof {
                    assert(buf.lines@[self.row as int].wf());
                    assert(ls[self.row as int] == buf.lines@[self.row as int]@);
                    lemma_pos_bounds(ls, self.row as int, self.index as int);
                }
                let count = buf.line_count();
                let line = buf.line_at(self.row);
                if self.index < line.size() {
                    proof {
                        lemma_at_step(ls[self.row as int], self.index as int);
                        assert(cells_wf(ls[self.row as int]));
                        crate::grapheme::lemma_byte_count_bounds(
                            ls[self.row as int][self.index as int].text,
                        );
                        lemma_byte_at_mono(
                            ls[self.row as int],
                            self.index + 1,
                            ls[self.row as int].len() as int,
                        );
                        assert(ls[self.row as int].take(ls[self.row as int].len() as int)
                            =~= ls[self.row as int]);
                        lemma_prefix_step(ls, self.row as int);
                        crate::buffer::lemma_buf_split(ls, self.row + 1);
                    }
                    let g = line.cell(self.index);
                    let gb = g.byte_len();
                    self.index = self.index + 1;
                    self.byte = self.byte + gb;
                    self.column = self.column + g.width;
                    self.offset = self.offset + gb;
                    self.desired_column = self.column;
                } else if self.row + 1 < count {
                    proof {
                        lemma_slots_step(ls, self.row as int);
                    }
                    self.row = self.row + 1;
                    self.home(buf);
                    proof {
                        lemma_pos_bounds(ls, self.row as int, 0);
                    }
                } else {
                    self.end(buf);
                    proof {
                        lemma_slots_step(ls, ls.len() - 1);
                        assert(ls.take(ls.len() as int) =~= ls);
                    }
                }
            },
            _ => {
                self.move_cursor(buf, direction, 1);
            },
        }
    }

    /// Jump to the start of the current line.
    pub fn home(&mut self, buf: &Buffer)
        requires
            buf.wf(),
            old(self).row < buf@.len(),
        ensures
            cur_wf(*final(self), buf@),
            final(self).row == old(self).row,
            final(self).index == 0,
            final(self).column == 0,
            final(self).byte == 0,
            final(self).desired_column == 0,
    {
        self.column = 0;
        self.byte = 0;
        self.index = 0;
        self.offset = Cursor::offset(self.row, buf);
        self.desired_column = 0;
        proof {
            assert(buf@[self.row as int].take(0) =~= Seq::<GrView>::empty());
        }
    }

    /// Jump to the end of the current line.
    pub fn end(&mut self, buf: &Buffer)
        requires
            buf.wf(),
            old(self).row < buf@.len(),
        ensures
            cur_wf(*final(self), buf@),
            final(self).row == old(self).row,
            final(self).index == buf@[old(self).row as int].len(),
            final(self).desired_column == final(self).column,
    {
        proof {
            assert(buf.lines@[self.row as int].wf());
            assert(buf@[self.row as int] == buf.lines@[self.row as int]@);
            lemma_prefix_step(buf@, self.row as int);
            crate::buffer::lemma_buf_split(buf@, self.row + 1);
        }
        let line = buf.line_at(self.row);
        self.column = line.width();
        self.byte = line.byte_len();
        self.index = line.size();
        self.offset = Cursor::offset(self.row, buf) + self.byte;
        self.desired_column = self.column;
        proof {
            let l = buf@[self.row as int];
            assert(l.take(l.len() as int) =~= l);
        }
    }

    /// Jump to the buffer's start.
    pub fn top(&mut self, buf: &Buffer)
        requires
            buf.wf(),
        ensures
            cur_wf(*final(self), buf@),
            final(self).row == 0,
            final(self).index == 0,
            final(self).desired_column == 0,
    {
        self.row = 0;
        self.home(buf);
    }

    /// Jump to the buffer's end.
    pub fn bottom(&mut self, buf: &Buffer)
        requires
            buf.wf(),
        ensures
            cur_wf(*final(self), buf@),
            final(self).row == buf@.len() - 1,
            final(self).index == buf@[buf@.len() - 1].len(),
    {
        self.row = buf.line_count() - 1;
        self.end(buf);
    }
}

impl Line {
    /// The per-cluster descriptors of a line, left to right: for cluster
    /// `i`, its byte offset, display width, starting column, index and
    /// text. This is the basis for column-to-byte-to-index conversion.
    pub fn column_indices(&self) -> (r: Vec<ColumnIndex>)
        requires
            self.wf(),
        ensures
            r@.len() == self@.len(),
            forall|i: int|
                0 <= i < r@.len() ==> {
                    &&& (#[trigger] r@[i]).index == i
                    &&& r@[i].byte == byte_at(self@, i)
                    &&& r@[i].column == col_at(self@, i)
                    &&& r@[i].width == self@[i].width
                    &&& r@[i].grapheme@ == self@[i].text
                },
    {
        let n = self.size();
        let mut out: Vec<ColumnIndex> = Vec::new();
        let mut j: usize = 0;
        let mut byte: usize = 0;
        let mut col: usize = 0;
        while j < n
            invariant
                self.wf(),
                n == self@.len(),
                0 <= j <= n,
                byte == byte_at(self@, j as int),
                col == col_at(self@, j as int),
                out@.len() == j,
                forall|i: int|
                    0 <= i < j ==> {
                        &&& (#[trigger] out@[i]).index == i
                        &&& out@[i].byte == byte_at(self@, i)
                        &&& out@[i].column == col_at(self@, i)
                        &&& out@[i].width == self@[i].width
                        &&& out@[i].grapheme@ == self@[i].text
                    },
            decreases n - j,
        {
            proof {
                lemma_at_step(self@, j as int);
                lemma_byte_at_mono(self@, j + 1, n as int);
                assert(self@.take(n as int) =~= self@);
                assert(cells_wf(self@));
                crate::grapheme::lemma_byte_count_bounds(self@[j as int].text);
            }
            let g = self.cell(j);
            out.push(
                ColumnIndex {
                    byte,
                    width: g.width,
                    column: col,
                    index: j,
                    grapheme: g.text.clone(),
                },
            );
            byte = byte + g.byte_len();
            col = col + g.width;
            j = j + 1;
        }
        out
    }
}

} // verus!
