//! A text buffer: a rope of chars, edited at line/column positions, with an
//! undo history and a redo history.
use ropey::Rope;
use vstd::prelude::*;

use crate::lines::{lemma_line_bounds, lemma_line_order, line_count, line_len, line_start, line_text};
use crate::rope::{
    rope_from_str, rope_insert, rope_len_chars, rope_len_lines, rope_line_len_chars,
    rope_line_to_char, rope_line_to_string, rope_remove, rope_slice_to_string, rope_text,
    rope_to_string,
};

verus! {

/// Why an edit was refused.
#[derive(Debug)]
pub enum BufferError {
    /// The line (first field) is not below the buffer's line count (second).
    LineOutOfBounds(usize, usize),
    /// The column (first field) is past the length (third field, line break
    /// included) of its line (second field).
    ColumnOutOfBounds(usize, usize, usize),
    /// The start of a range to delete comes after its end.
    InvertedRange(Position, Position),
}

/// A place in the text: a line and a char column within it, both from 0.
#[derive(Debug, Clone, Copy, PartialEq, Eq, Structural, PartialOrd, Ord)]
pub struct Position {
    pub line: usize,
    pub column: usize,
}

impl Position {
    pub fn new(line: usize, column: usize) -> (p: Self)
        ensures
            p.line == line,
            p.column == column,
    {
        Self { line, column }
    }
}

/// `a` comes after `b`: by line first, then by column.
pub open spec fn pos_after(a: Position, b: Position) -> bool {
    a.line > b.line || (a.line == b.line && a.column > b.column)
}

/// The char index of `pos` in `text`, or why it names no place there.
pub open spec fn char_index(text: Seq<char>, pos: Position) -> Result<int, BufferError> {
    if pos.line >= line_count(text) {
        Err(BufferError::LineOutOfBounds(pos.line, line_count(text) as usize))
    } else if pos.column > line_len(text, pos.line as int) {
        Err(BufferError::ColumnOutOfBounds(pos.column, pos.line, line_len(text, pos.line as int) as usize))
    } else {
        Ok(line_start(text, pos.line as int) + pos.column)
    }
}

/// One recorded edit: chars inserted at, or deleted from, a char index.
pub enum Edit {
    Insert { at: nat, chars: Seq<char> },
    Delete { at: nat, chars: Seq<char> },
}

impl Edit {
    pub open spec fn at(self) -> nat {
        match self {
            Edit::Insert { at, .. } => at,
            Edit::Delete { at, .. } => at,
        }
    }

    pub open spec fn chars(self) -> Seq<char> {
        match self {
            Edit::Insert { chars, .. } => chars,
            Edit::Delete { chars, .. } => chars,
        }
    }

    /// The text after the edit is made on `s`.
    pub open spec fn apply(self, s: Seq<char>) -> Seq<char> {
        match self {
            Edit::Insert { at, chars } => s.take(at as int) + chars + s.skip(at as int),
            Edit::Delete { at, chars } => s.take(at as int) + s.skip((at + chars.len()) as int),
        }
    }

    /// The text after the edit is taken back from `s`.
    pub open spec fn revert(self, s: Seq<char>) -> Seq<char> {
        match self {
            Edit::Insert { at, chars } => s.take(at as int) + s.skip((at + chars.len()) as int),
            Edit::Delete { at, chars } => s.take(at as int) + chars + s.skip(at as int),
        }
    }

    /// The edit can be made on `s` without reaching past its end.
    pub open spec fn can_apply(self, s: Seq<char>) -> bool {
        match self {
            Edit::Insert { at, .. } => at <= s.len(),
            Edit::Delete { at, chars } => at + chars.len() <= s.len(),
        }
    }

    /// The edit can be taken back from `s` without reaching past its end.
    pub open spec fn can_revert(self, s: Seq<char>) -> bool {
        match self {
            Edit::Insert { at, chars } => at + chars.len() <= s.len(),
            Edit::Delete { at, .. } => at <= s.len(),
        }
    }
}

/// `undo` (oldest first) is a history that leads to `cur`: taking back its
/// edits from the last one on walks through texts on which each edit, made
/// again, gives back the text it was taken from.
pub open spec fn undo_history_ok(cur: Seq<char>, undo: Seq<Edit>) -> bool
    decreases undo.len(),
{
    if undo.len() == 0 {
        true
    } else {
        let op = undo.last();
        let prev = op.revert(cur);
        &&& op.can_revert(cur)
        &&& op.can_apply(prev)
        &&& op.apply(prev) == cur
        &&& undo_history_ok(prev, undo.drop_last())
    }
}

/// `redo` (the next edit to redo last) can be made again from `cur`: making
/// its edits from the last one on walks through texts from which each edit,
/// taken back, gives back the text it was made on.
pub open spec fn redo_history_ok(cur: Seq<char>, redo: Seq<Edit>) -> bool
    decreases redo.len(),
{
    if redo.len() == 0 {
        true
    } else {
        let op = redo.last();
        let next = op.apply(cur);
        &&& op.can_apply(cur)
        &&& op.can_revert(next)
        &&& op.revert(next) == cur
        &&& redo_history_ok(next, redo.drop_last())
    }
}

/// What a text buffer is: its chars and its two histories.
#[verifier::ext_equal]
pub struct BufferModel {
    pub text: Seq<char>,
    pub undo: Seq<Edit>,
    pub redo: Seq<Edit>,
}

impl BufferModel {
    pub open spec fn wf(self) -> bool {
        &&& self.text.len() <= usize::MAX
        &&& undo_history_ok(self.text, self.undo)
        &&& redo_history_ok(self.text, self.redo)
    }

    /// What `insert` returns.
    pub open spec fn insert_result(self, pos: Position, t: Seq<char>) -> Result<(), BufferError> {
        if t.len() == 0 {
            Ok(())
        } else {
            match char_index(self.text, pos) {
                Ok(_) => Ok(()),
                Err(e) => Err(e),
            }
        }
    }

    /// The buffer after `insert`.
    pub open spec fn after_insert(self, pos: Position, t: Seq<char>) -> BufferModel {
        if t.len() == 0 {
            self
        } else {
            match char_index(self.text, pos) {
                Ok(i) => {
                    let op = Edit::Insert { at: i as nat, chars: t };
                    BufferModel { text: op.apply(self.text), undo: self.undo.push(op), redo: seq![] }
                },
                Err(_) => self,
            }
        }
    }

    /// What `delete` returns.
    pub open spec fn delete_result(self, start: Position, end: Position) -> Result<(), BufferError> {
        if pos_after(start, end) {
            Err(BufferError::InvertedRange(start, end))
        } else {
            match char_index(self.text, start) {
                Err(e) => Err(e),
                Ok(_) => match char_index(self.text, end) {
                    Err(e) => Err(e),
                    Ok(_) => Ok(()),
                },
            }
        }
    }

    /// The buffer after `delete`.
    pub open spec fn after_delete(self, start: Position, end: Position) -> BufferModel {
        if self.delete_result(start, end) is Ok {
            let s = char_index(self.text, start)->Ok_0;
            let e = char_index(self.text, end)->Ok_0;
            if s == e {
                self
            } else {
                let op = Edit::Delete { at: s as nat, chars: self.text.subrange(s, e) };
                BufferModel { text: op.apply(self.text), undo: self.undo.push(op), redo: seq![] }
            }
        } else {
            self
        }
    }

    /// The buffer after `undo`.
    pub open spec fn after_undo(self) -> BufferModel {
        if self.undo.len() == 0 {
            self
        } else {
            let op = self.undo.last();
            BufferModel {
                text: op.revert(self.text),
                undo: self.undo.drop_last(),
                redo: self.redo.push(op),
            }
        }
    }

    /// The buffer after `redo`.
    pub open spec fn after_redo(self) -> BufferModel {
        if self.redo.len() == 0 {
            self
        } else {
            let op = self.redo.last();
            BufferModel {
                text: op.apply(self.text),
                undo: self.undo.push(op),
                redo: self.redo.drop_last(),
            }
        }
    }
}

#[derive(Debug)]
enum EditOp {
    Insert { at: usize, text: String },
    Delete { at: usize, text: String },
}

spec fn edit_view(op: EditOp) -> Edit {
    match op {
        EditOp::Insert { at, text } => Edit::Insert { at: at as nat, chars: text@ },
        EditOp::Delete { at, text } => Edit::Delete { at: at as nat, chars: text@ },
    }
}

spec fn ops_view(ops: Seq<EditOp>) -> Seq<Edit> {
    ops.map_values(|op: EditOp| edit_view(op))
}

proof fn lemma_ops_view_push(ops: Seq<EditOp>, op: EditOp)
    ensures
        ops_view(ops.push(op)) == ops_view(ops).push(edit_view(op)),
{
    assert(ops_view(ops.push(op)) =~= ops_view(ops).push(edit_view(op)));
}

proof fn lemma_ops_view_drop_last(ops: Seq<EditOp>)
    requires
        ops.len() > 0,
    ensures
        ops_view(ops.drop_last()) == ops_view(ops).drop_last(),
        ops_view(ops).last() == edit_view(ops.last()),
{
    assert(ops_view(ops.drop_last()) =~= ops_view(ops).drop_last());
}

/// Inserting then taking the insertion back gives the text back; so does
/// deleting chars that are there and putting them back.
proof fn lemma_round_trip(op: Edit, s: Seq<char>)
    requires
        op.can_apply(s),
        op is Delete ==> s.subrange(op.at() as int, (op.at() + op.chars().len()) as int) == op.chars(),
    ensures
        op.can_revert(op.apply(s)),
        op.revert(op.apply(s)) == s,
{
    match op {
        Edit::Insert { at, chars } => {
            let n = op.apply(s);
            assert(n.subrange(0, at as int) =~= s.take(at as int));
            assert(op.revert(n) =~= s);
        },
        Edit::Delete { at, chars } => {
            assert(op.revert(op.apply(s)) =~= s);
        },
    }
}

/// The history invariant survives a new edit: its undo history gains the
/// edit, and its redo history is emptied.
proof fn lemma_edit_keeps_wf(m: BufferModel, op: Edit)
    requires
        m.wf(),
        op.can_apply(m.text),
        op is Delete ==> m.text.subrange(op.at() as int, (op.at() + op.chars().len()) as int) == op.chars(),
        op.apply(m.text).len() <= usize::MAX,
    ensures
        (BufferModel { text: op.apply(m.text), undo: m.undo.push(op), redo: seq![] }).wf(),
{
    lemma_round_trip(op, m.text);
    let n = op.apply(m.text);
    let u = m.undo.push(op);
    assert(u.last() == op);
    assert(u.drop_last() =~= m.undo);
    assert(undo_history_ok(n, u));
}

/// Undo keeps the history invariant.
proof fn lemma_undo_keeps_wf(m: BufferModel)
    requires
        m.wf(),
    ensures
        m.after_undo().text.len() <= usize::MAX ==> m.after_undo().wf(),
{
    if m.undo.len() > 0 {
        let op = m.undo.last();
        let r = m.redo.push(op);
        assert(r.last() == op);
        assert(r.drop_last() =~= m.redo);
        assert(redo_history_ok(op.revert(m.text), r));
    }
}

/// Redo keeps the history invariant.
proof fn lemma_redo_keeps_wf(m: BufferModel)
    requires
        m.wf(),
    ensures
        m.after_redo().text.len() <= usize::MAX ==> m.after_redo().wf(),
{
    if m.redo.len() > 0 {
        let op = m.redo.last();
        let u = m.undo.push(op);
        assert(u.last() == op);
        assert(u.drop_last() =~= m.undo);
        assert(undo_history_ok(op.apply(m.text), u));
    }
}

/// The buffer after `n` undos in a row.
pub open spec fn undo_times(m: BufferModel, n: nat) -> BufferModel
    decreases n,
{
    if n == 0 {
        m
    } else {
        undo_times(m.after_undo(), (n - 1) as nat)
    }
}

/// The buffer after `n` redos in a row.
pub open spec fn redo_times(m: BufferModel, n: nat) -> BufferModel
    decreases n,
{
    if n == 0 {
        m
    } else {
        redo_times(m, (n - 1) as nat).after_redo()
    }
}

/// Undo takes back a successful insertion of some text: the text and the
/// undo history are those from before the insertion.
pub proof fn law_undo_reverts_insert(m: BufferModel, pos: Position, t: Seq<char>)
    requires
        t.len() > 0,
        m.insert_result(pos, t) is Ok,
    ensures
        m.after_insert(pos, t).after_undo().text == m.text,
        m.after_insert(pos, t).after_undo().undo == m.undo,
{
    let i = char_index(m.text, pos)->Ok_0;
    let op = Edit::Insert { at: i as nat, chars: t };
    lemma_line_bounds(m.text, pos.line as int);
    lemma_round_trip(op, m.text);
    let a = m.after_insert(pos, t);
    assert(a.undo.last() == op);
    assert(a.undo.drop_last() =~= m.undo);
}

/// Undo takes back a successful deletion of a non-empty range: the text and
/// the undo history are those from before the deletion.
pub proof fn law_undo_reverts_delete(m: BufferModel, start: Position, end: Position)
    requires
        m.delete_result(start, end) is Ok,
        char_index(m.text, start) != char_index(m.text, end),
    ensures
        m.after_delete(start, end).after_undo().text == m.text,
        m.after_delete(start, end).after_undo().undo == m.undo,
{
    let s = char_index(m.text, start)->Ok_0;
    let e = char_index(m.text, end)->Ok_0;
    lemma_line_bounds(m.text, start.line as int);
    lemma_line_bounds(m.text, end.line as int);
    if start.line < end.line {
        lemma_line_order(m.text, start.line as int, end.line as int);
    }
    let op = Edit::Delete { at: s as nat, chars: m.text.subrange(s, e) };
    assert(m.text.subrange(op.at() as int, (op.at() + op.chars().len()) as int) =~= op.chars());
    lemma_round_trip(op, m.text);
    let a = m.after_delete(start, end);
    assert(a.undo.last() == op);
    assert(a.undo.drop_last() =~= m.undo);
}

/// Redo right after an undo gives back the whole buffer from before it.
pub proof fn law_redo_reverts_undo(m: BufferModel)
    requires
        m.wf(),
        m.undo.len() > 0,
    ensures
        m.after_undo().after_redo() == m,
{
    lemma_redo_reverts_undo(m);
}

proof fn lemma_redo_reverts_undo(m: BufferModel)
    requires
        undo_history_ok(m.text, m.undo),
        m.undo.len() > 0,
    ensures
        m.after_undo().after_redo() == m,
{
    let u = m.after_undo();
    assert(u.redo.last() == m.undo.last());
    assert(u.redo.drop_last() =~= m.redo);
    assert(u.undo.push(m.undo.last()) =~= m.undo);
    assert(u.after_redo() =~= m);
}

/// Undo right after a redo gives back the whole buffer from before it.
pub proof fn law_undo_reverts_redo(m: BufferModel)
    requires
        m.wf(),
        m.redo.len() > 0,
    ensures
        m.after_redo().after_undo() == m,
{
    let r = m.after_redo();
    assert(r.undo.last() == m.redo.last());
    assert(r.undo.drop_last() =~= m.undo);
    assert(r.redo.push(m.redo.last()) =~= m.redo);
    assert(r.after_undo() =~= m);
}

/// Any number of undos, as many as the history holds, followed by as many
/// redos, give back the whole buffer.
pub proof fn law_undo_redo_round_trip(m: BufferModel, n: nat)
    requires
        m.wf(),
        n <= m.undo.len(),
    ensures
        redo_times(undo_times(m, n), n) == m,
{
    lemma_undo_redo_round_trip(m, n);
}

proof fn lemma_undo_redo_round_trip(m: BufferModel, n: nat)
    requires
        undo_history_ok(m.text, m.undo),
        n <= m.undo.len(),
    ensures
        redo_times(undo_times(m, n), n) == m,
    decreases n,
{
    if n > 0 {
        let m1 = m.after_undo();
        lemma_undo_redo_round_trip(m1, (n - 1) as nat);
        lemma_redo_reverts_undo(m);
        assert(undo_times(m, n) == undo_times(m1, (n - 1) as nat));
    }
}

/// An edit asked of a buffer.
pub enum EditRequest {
    Insert { pos: Position, text: Seq<char> },
    Delete { start: Position, end: Position },
}

/// The request succeeds and changes the text: a non-empty insertion, or a
/// deletion of a non-empty range.
pub open spec fn changes_text(m: BufferModel, r: EditRequest) -> bool {
    match r {
        EditRequest::Insert { pos, text } => text.len() > 0 && m.insert_result(pos, text) is Ok,
        EditRequest::Delete { start, end } => m.delete_result(start, end) is Ok && char_index(
            m.text,
            start,
        ) != char_index(m.text, end),
    }
}

/// The buffer after the request.
pub open spec fn after_request(m: BufferModel, r: EditRequest) -> BufferModel {
    match r {
        EditRequest::Insert { pos, text } => m.after_insert(pos, text),
        EditRequest::Delete { start, end } => m.after_delete(start, end),
    }
}

/// The buffer after the requests, in order.
pub open spec fn after_requests(m: BufferModel, rs: Seq<EditRequest>) -> BufferModel
    decreases rs.len(),
{
    if rs.len() == 0 {
        m
    } else {
        after_request(after_requests(m, rs.drop_last()), rs.last())
    }
}

/// Every one of the requests, made in order, changes the text.
pub open spec fn all_change_text(m: BufferModel, rs: Seq<EditRequest>) -> bool
    decreases rs.len(),
{
    rs.len() == 0 || (all_change_text(m, rs.drop_last()) && changes_text(
        after_requests(m, rs.drop_last()),
        rs.last(),
    ))
}

proof fn lemma_undo_times_congruent(a: BufferModel, b: BufferModel, k: nat)
    requires
        a.text == b.text,
        a.undo == b.undo,
    ensures
        undo_times(a, k).text == undo_times(b, k).text,
        undo_times(a, k).undo == undo_times(b, k).undo,
    decreases k,
{
    if k > 0 {
        lemma_undo_times_congruent(a.after_undo(), b.after_undo(), (k - 1) as nat);
    }
}

/// After edits that each changed the text, the `k`-th undo in a row gives
/// back the text and undo history from before the `k`-th-last edit; so, on
/// a buffer whose undo history started empty, one undo more than there were
/// edits finds nothing to undo and changes nothing.
pub proof fn law_undos_walk_back_edits(m: BufferModel, rs: Seq<EditRequest>, k: nat)
    requires
        all_change_text(m, rs),
        k <= rs.len(),
    ensures
        undo_times(after_requests(m, rs), k).text == after_requests(m, rs.take(rs.len() - k)).text,
        undo_times(after_requests(m, rs), k).undo == after_requests(m, rs.take(rs.len() - k)).undo,
        m.undo.len() == 0 ==> undo_times(after_requests(m, rs), rs.len()).undo.len() == 0,
        m.undo.len() == 0 ==> undo_times(after_requests(m, rs), rs.len()).after_undo()
            == undo_times(after_requests(m, rs), rs.len()),
    decreases rs.len(),
{
    lemma_undos_walk_back(m, rs, k);
    lemma_undos_walk_back(m, rs, rs.len());
    assert(rs.take(0) =~= Seq::<EditRequest>::empty());
}

proof fn lemma_undos_walk_back(m: BufferModel, rs: Seq<EditRequest>, k: nat)
    requires
        all_change_text(m, rs),
        k <= rs.len(),
    ensures
        undo_times(after_requests(m, rs), k).text == after_requests(m, rs.take(rs.len() - k)).text,
        undo_times(after_requests(m, rs), k).undo == after_requests(m, rs.take(rs.len() - k)).undo,
    decreases rs.len(),
{
    let n = rs.len();
    if k == 0 {
        assert(rs.take(n as int) =~= rs);
    } else {
        let prev = rs.drop_last();
        let mp = after_requests(m, prev);
        let mn = after_requests(m, rs);
        match rs.last() {
            EditRequest::Insert { pos, text } => {
                law_undo_reverts_insert(mp, pos, text);
            },
            EditRequest::Delete { start, end } => {
                law_undo_reverts_delete(mp, start, end);
            },
        }
        lemma_undo_times_congruent(mn.after_undo(), mp, (k - 1) as nat);
        lemma_undos_walk_back(m, prev, (k - 1) as nat);
        assert(prev.take(prev.len() - (k - 1)) =~= rs.take(n - k));
    }
}

/// A successful insertion of some text empties the redo history, so that a
/// redo right after it changes nothing.
pub proof fn law_insert_clears_redo(m: BufferModel, pos: Position, t: Seq<char>)
    requires
        t.len() > 0,
        m.insert_result(pos, t) is Ok,
    ensures
        m.after_insert(pos, t).redo.len() == 0,
        m.after_insert(pos, t).after_redo() == m.after_insert(pos, t),
{
}

/// A successful deletion of a non-empty range empties the redo history, so
/// that a redo right after it changes nothing.
pub proof fn law_delete_clears_redo(m: BufferModel, start: Position, end: Position)
    requires
        m.delete_result(start, end) is Ok,
        char_index(m.text, start) != char_index(m.text, end),
    ensures
        m.after_delete(start, end).redo.len() == 0,
        m.after_delete(start, end).after_redo() == m.after_delete(start, end),
{
}

/// A refused edit changes nothing.
pub proof fn law_refused_edit_changes_nothing(
    m: BufferModel,
    pos: Position,
    t: Seq<char>,
    start: Position,
    end: Position,
)
    ensures
        m.insert_result(pos, t) is Err ==> m.after_insert(pos, t) == m,
        m.delete_result(start, end) is Err ==> m.after_delete(start, end) == m,
{
}

/// Inserting `t` makes the text `t.len()` chars longer, with `t` standing at
/// the char index of `pos`.
pub proof fn law_insert_places_text(m: BufferModel, pos: Position, t: Seq<char>)
    requires
        m.wf(),
        m.insert_result(pos, t) is Ok,
        t.len() > 0,
    ensures
        m.after_insert(pos, t).text.len() == m.text.len() + t.len(),
        m.after_insert(pos, t).text.subrange(
            char_index(m.text, pos)->Ok_0,
            char_index(m.text, pos)->Ok_0 + t.len(),
        ) == t,
{
    let i = char_index(m.text, pos)->Ok_0;
    lemma_line_bounds(m.text, pos.line as int);
    assert(m.after_insert(pos, t).text.subrange(i, i + t.len()) =~= t);
}

/// A text buffer backed by a rope, with undo and redo.
pub struct TextBuffer {
    rope: Rope,
    undo_stack: Vec<EditOp>,
    redo_stack: Vec<EditOp>,
}

impl View for TextBuffer {
    type V = BufferModel;

    closed spec fn view(&self) -> BufferModel {
        BufferModel {
            text: rope_text(self.rope),
            undo: ops_view(self.undo_stack@),
            redo: ops_view(self.redo_stack@),
        }
    }
}

impl TextBuffer {
    /// The buffer's histories are consistent with its text.
    pub open spec fn wf(&self) -> bool {
        self@.wf()
    }

    /// An empty buffer with empty histories.
    pub fn new() -> (b: Self)
        ensures
            b.wf(),
            b@.text.len() == 0,
            b@.undo.len() == 0,
            b@.redo.len() == 0,
    {
        let empty = "";
        proof {
            reveal_strlit("");
        }
        Self::from_str(empty)
    }

    /// A buffer holding `text`, with empty histories.
    pub fn from_str(text: &str) -> (b: Self)
        ensures
            b.wf(),
            b@.text == text@,
            b@.undo.len() == 0,
            b@.redo.len() == 0,
    {
        let b = Self { rope: rope_from_str(text), undo_stack: Vec::new(), redo_stack: Vec::new() };
        assert(b@.undo =~= Seq::<Edit>::empty());
        assert(b@.redo =~= Seq::<Edit>::empty());
        b
    }

    fn position_to_char_idx(&self, pos: Position) -> (r: Result<usize, BufferError>)
        requires
            self.wf(),
        ensures
            match r {
                Ok(i) => char_index(self@.text, pos) == Ok::<int, BufferError>(i as int),
                Err(e) => char_index(self@.text, pos) == Err::<int, BufferError>(e),
            },
    {
        let line_count = rope_len_lines(&self.rope);
        if pos.line >= line_count {
            return Err(BufferError::LineOutOfBounds(pos.line, line_count));
        }
        let line_char_start = rope_line_to_char(&self.rope, pos.line);
        let line_len_chars = rope_line_len_chars(&self.rope, pos.line);
        if pos.column > line_len_chars {
            return Err(BufferError::ColumnOutOfBounds(pos.column, pos.line, line_len_chars));
        }
        proof {
            lemma_line_bounds(self@.text, pos.line as int);
        }
        Ok(line_char_start + pos.column)
    }

    /// Inserts `text` at `pos`. Empty text is a no-op that always succeeds;
    /// otherwise `pos` must name a place in the buffer, the text goes in at
    /// its char index, the edit joins the undo history and the redo history
    /// is emptied.
    pub fn insert(&mut self, pos: Position, text: &str) -> (r: Result<(), BufferError>)
        requires
            old(self).wf(),
        ensures
            final(self).wf(),
            r == old(self)@.insert_result(pos, text@),
            final(self)@ == old(self)@.after_insert(pos, text@),
    {
        if text.is_empty() {
            return Ok(());
        }
        let idx = match self.position_to_char_idx(pos) {
            Ok(i) => i,
            Err(e) => return Err(e),
        };
        proof {
            lemma_line_bounds(self@.text, pos.line as int);
        }
        let ghost m = self@;
        let ghost op = Edit::Insert { at: idx as nat, chars: text@ };
        rope_insert(&mut self.rope, idx, text);
        let ghost ops = self.undo_stack@;
        let op_exec = EditOp::Insert { at: idx, text: text.to_owned() };
        assert(edit_view(op_exec) == op);
        self.undo_stack.push(op_exec);
        self.redo_stack.clear();
        proof {
            lemma_ops_view_push(ops, op_exec);
            assert(self@.redo =~= Seq::<Edit>::empty());
            assert(self@.text =~= op.apply(m.text));
            lemma_edit_keeps_wf(m, op);
            assert(self@ =~= m.after_insert(pos, text@));
        }
        Ok(())
    }

    /// Deletes the chars from `start` up to `end`. `start` must not come
    /// after `end` (checked first), then both must name places in the
    /// buffer. An empty range succeeds and changes nothing; otherwise the
    /// deleted chars join the undo history and the redo history is emptied.
    pub fn delete(&mut self, start: Position, end: Position) -> (r: Result<(), BufferError>)
        requires
            old(self).wf(),
        ensures
            final(self).wf(),
            r == old(self)@.delete_result(start, end),
            final(self)@ == old(self)@.after_delete(start, end),
    {
        if start.line > end.line || (start.line == end.line && start.column > end.column) {
            return Err(BufferError::InvertedRange(start, end));
        }
        let start_idx = match self.position_to_char_idx(start) {
            Ok(i) => i,
            Err(e) => return Err(e),
        };
        let end_idx = match self.position_to_char_idx(end) {
            Ok(i) => i,
            Err(e) => return Err(e),
        };
        proof {
            let t = self@.text;
            lemma_line_bounds(t, start.line as int);
            lemma_line_bounds(t, end.line as int);
            if start.line < end.line {
                lemma_line_order(t, start.line as int, end.line as int);
            }
        }
        if start_idx == end_idx {
            return Ok(());
        }
        let ghost m = self@;
        let removed = rope_slice_to_string(&self.rope, start_idx, end_idx);
        let ghost op = Edit::Delete { at: start_idx as nat, chars: removed@ };
        rope_remove(&mut self.rope, start_idx, end_idx);
        let ghost ops = self.undo_stack@;
        let op_exec = EditOp::Delete { at: start_idx, text: removed };
        assert(edit_view(op_exec) == op);
        self.undo_stack.push(op_exec);
        self.redo_stack.clear();
        proof {
            lemma_ops_view_push(ops, op_exec);
            assert(self@.redo =~= Seq::<Edit>::empty());
            assert(self@.text =~= op.apply(m.text));
            lemma_edit_keeps_wf(m, op);
            assert(self@ =~= m.after_delete(start, end));
        }
        Ok(())
    }

    /// Takes back the last edit of the undo history, which moves to the
    /// redo history. Returns false, changing nothing, when there is none.
    pub fn undo(&mut self) -> (b: bool)
        requires
            old(self).wf(),
        ensures
            final(self).wf(),
            b == (old(self)@.undo.len() > 0),
            final(self)@ == old(self)@.after_undo(),
    {
        let ghost m = self@;
        let ghost ops = self.undo_stack@;
        let op = match self.undo_stack.pop() {
            Some(op) => op,
            None => return false,
        };
        proof {
            lemma_ops_view_drop_last(ops);
        }
        match &op {
            EditOp::Insert { at, text } => {
                let end = *at + text.as_str().unicode_len();
                rope_remove(&mut self.rope, *at, end);
            },
            EditOp::Delete { at, text } => {
                rope_insert(&mut self.rope, *at, text.as_str());
            },
        }
        let ghost rops = self.redo_stack@;
        self.redo_stack.push(op);
        proof {
            lemma_ops_view_push(rops, op);
            assert(self@.text =~= m.after_undo().text);
            lemma_undo_keeps_wf(m);
            assert(self@ =~= m.after_undo());
        }
        true
    }

    /// Makes again the last edit of the redo history, which moves back to
    /// the undo history. Returns false, changing nothing, when there is none.
    pub fn redo(&mut self) -> (b: bool)
        requires
            old(self).wf(),
        ensures
            final(self).wf(),
            b == (old(self)@.redo.len() > 0),
            final(self)@ == old(self)@.after_redo(),
    {
        let ghost m = self@;
        let ghost ops = self.redo_stack@;
        let op = match self.redo_stack.pop() {
            Some(op) => op,
            None => return false,
        };
        proof {
            lemma_ops_view_drop_last(ops);
        }
        match &op {
            EditOp::Insert { at, text } => {
                rope_insert(&mut self.rope, *at, text.as_str());
            },
            EditOp::Delete { at, text } => {
                let end = *at + text.as_str().unicode_len();
                rope_remove(&mut self.rope, *at, end);
            },
        }
        let ghost uops = self.undo_stack@;
        self.undo_stack.push(op);
        proof {
            lemma_ops_view_push(uops, op);
            assert(self@.text =~= m.after_redo().text);
            lemma_redo_keeps_wf(m);
            assert(self@ =~= m.after_redo());
        }
        true
    }

    /// Line `idx`, its line break included, or `None` past the last line.
    pub fn line(&self, idx: usize) -> (r: Option<String>)
        ensures
            idx < line_count(self@.text) <==> r is Some,
            r matches Some(s) ==> s@ == line_text(self@.text, idx as int),
    {
        if idx >= rope_len_lines(&self.rope) {
            return None;
        }
        Some(rope_line_to_string(&self.rope, idx))
    }

    /// The number of lines: one more than the number of line breaks.
    pub fn line_count(&self) -> (n: usize)
        ensures
            n == line_count(self@.text),
    {
        rope_len_lines(&self.rope)
    }

    /// The number of chars.
    pub fn char_len(&self) -> (n: usize)
        ensures
            n == self@.text.len(),
    {
        rope_len_chars(&self.rope)
    }

    /// All of the text.
    pub fn to_string_full(&self) -> (s: String)
        ensures
            s@ == self@.text,
    {
        rope_to_string(&self.rope)
    }
}

impl Default for TextBuffer {
    fn default() -> (b: Self)
        ensures
            b.wf(),
            b@.text.len() == 0,
            b@.undo.len() == 0,
            b@.redo.len() == 0,
    {
        Self::new()
    }
}

} // verus!
