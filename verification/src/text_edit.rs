//! The state of a single-line text editor: the text and the selection.
use unicode_segmentation::GraphemeCursor;
use vstd::prelude::*;
use vstd::string::StringSliceAdditionalSpecFns;
use vstd::utf8::{encode_utf8, is_char_boundary};

verus! {

/// Text selection, in byte offsets into the text.
///
/// The caret is at `end`. `start` may be greater than `end`: the selection
/// was then made backwards.
#[derive(Copy, Clone, Debug, PartialEq, Eq, Structural)]
pub struct Selection {
    pub start: usize,
    pub end: usize,
}

impl Selection {
    /// The lower of the two ends.
    pub open spec fn lower(self) -> usize {
        if self.start <= self.end {
            self.start
        } else {
            self.end
        }
    }

    /// The higher of the two ends.
    pub open spec fn upper(self) -> usize {
        if self.start <= self.end {
            self.end
        } else {
            self.start
        }
    }

    /// The lower of the two ends.
    pub fn min(&self) -> (r: usize)
        ensures
            r == self.lower(),
    {
        if self.start <= self.end {
            self.start
        } else {
            self.end
        }
    }

    /// The higher of the two ends.
    pub fn max(&self) -> (r: usize)
        ensures
            r == self.upper(),
    {
        if self.start <= self.end {
            self.end
        } else {
            self.start
        }
    }

    /// Whether nothing is selected.
    pub fn is_empty(&self) -> (r: bool)
        ensures
            r == (self.start == self.end),
    {
        self.start == self.end
    }

    /// The empty selection with the caret at `at`.
    pub fn empty(at: usize) -> (r: Selection)
        ensures
            r == (Selection { start: at, end: at }),
    {
        Selection { start: at, end: at }
    }
}

impl Default for Selection {
    fn default() -> (r: Selection)
        ensures
            r == (Selection { start: 0, end: 0 }),
    {
        Selection::empty(0)
    }
}

/// A step of the caret.
#[derive(Copy, Clone, Debug, PartialEq, Eq, Structural)]
pub enum Movement {
    Left,
    Right,
    LeftWord,
    RightWord,
}

/// The grapheme cluster boundary before `offset` in `text`, as
/// `GraphemeCursor::prev_boundary` finds it; `None` where there is none.
pub uninterp spec fn grapheme_before(text: Seq<char>, offset: usize) -> Option<usize>;

/// The grapheme cluster boundary after `offset` in `text`, as
/// `GraphemeCursor::next_boundary` finds it; `None` where there is none.
pub uninterp spec fn grapheme_after(text: Seq<char>, offset: usize) -> Option<usize>;

/// `GraphemeCursor::prev_boundary` of a cursor for extended grapheme clusters
/// at `offset`, given the whole of `text`. The cursor slices `text` at
/// `offset`, which panics off a character boundary. An incomplete answer,
/// which a cursor that sees the whole text does not give, counts as none.
#[verifier::external_body]
fn prev_grapheme_cluster(text: &str, offset: usize) -> (r: Option<usize>)
    requires
        is_char_boundary(text.spec_bytes(), offset as int),
    ensures
        r == grapheme_before(text@, offset),
{
    let mut c = GraphemeCursor::new(offset, text.len(), true);
    c.prev_boundary(text, 0).ok().flatten()
}

/// `GraphemeCursor::next_boundary` of a cursor for extended grapheme clusters
/// at `offset`, given the whole of `text`. The cursor slices `text` at
/// `offset`, which panics off a character boundary. An incomplete answer,
/// which a cursor that sees the whole text does not give, counts as none.
#[verifier::external_body]
fn next_grapheme_cluster(text: &str, offset: usize) -> (r: Option<usize>)
    requires
        is_char_boundary(text.spec_bytes(), offset as int),
    ensures
        r == grapheme_after(text@, offset),
{
    let mut c = GraphemeCursor::new(offset, text.len(), true);
    c.next_boundary(text, 0).ok().flatten()
}

/// `bytes` with the range from `lo` to `hi` replaced by `with`.
pub open spec fn spliced(bytes: Seq<u8>, lo: int, hi: int, with: Seq<u8>) -> Seq<u8> {
    bytes.subrange(0, lo) + with + bytes.subrange(hi, bytes.len() as int)
}

/// `String::replace_range`: removes the bytes from `lo` to `hi` and puts
/// `with` in their place. It panics when the range does not lie in the
/// string, or when one of its ends is not on a character boundary.
#[verifier::external_body]
fn replace_range(text: &mut String, lo: usize, hi: usize, with: &str)
    requires
        lo <= hi,
        is_char_boundary(encode_utf8(old(text)@), lo as int),
        is_char_boundary(encode_utf8(old(text)@), hi as int),
        encode_utf8(old(text)@).len() + with.spec_bytes().len() <= isize::MAX,
    ensures
        encode_utf8(final(text)@) == spliced(
            encode_utf8(old(text)@),
            lo as int,
            hi as int,
            with.spec_bytes(),
        ),
{
    text.replace_range(lo..hi, with);
}

/// Where the caret goes from `end` in `text` by `movement`.
pub open spec fn caret_target(text: Seq<char>, end: usize, movement: Movement) -> usize {
    match movement {
        Movement::Left => match grapheme_before(text, end) {
            Some(offset) => offset,
            None => end,
        },
        Movement::Right => match grapheme_after(text, end) {
            Some(offset) => offset,
            None => end,
        },
        // word navigation is not there yet: the caret stays
        Movement::LeftWord | Movement::RightWord => end,
    }
}

/// A text editor's state.
pub struct TextEdit {
    /// The text displayed to the user.
    text: String,
    /// The currently selected range. If no text is selected, this is a
    /// zero-length range at the caret.
    selection: Selection,
}

impl TextEdit {
    /// The text.
    pub closed spec fn text(&self) -> Seq<char> {
        self.text@
    }

    /// The text as UTF-8.
    pub open spec fn bytes(&self) -> Seq<u8> {
        encode_utf8(self.text())
    }

    /// The selection.
    pub closed spec fn selection(&self) -> Selection {
        self.selection
    }

    /// Whether both ends of the selection lie on character boundaries of the
    /// text.
    pub open spec fn selection_valid(&self) -> bool {
        &&& is_char_boundary(self.bytes(), self.selection().start as int)
        &&& is_char_boundary(self.bytes(), self.selection().end as int)
    }

    /// Creates an editor that holds `text`, the caret at its start.
    pub fn new(text: String) -> (r: TextEdit)
        ensures
            r.text() == text@,
            r.selection() == (Selection { start: 0, end: 0 }),
    {
        TextEdit { text, selection: Selection::default() }
    }

    /// Replaces the text; a text that differs from the one held removes the
    /// selection.
    pub fn set_text(&mut self, text: String)
        ensures
            final(self).text() == text@,
            final(self).selection() == (if old(self).text() == text@ {
                old(self).selection()
            } else {
                Selection { start: 0, end: 0 }
            }),
    {
        if !(self.text == text) {
            self.text = text;
            self.selection = Selection::default();
        }
    }

    /// Tells whether both ends of the selection lie on character boundaries.
    pub fn is_selection_valid(&self) -> (r: bool)
        ensures
            r == self.selection_valid(),
    {
        let text = self.text.as_str();
        text.is_char_boundary(self.selection.start) && text.is_char_boundary(self.selection.end)
    }

    /// Moves the caret by one grapheme cluster to the left or to the right.
    /// With `modify_selection` the selection stretches to the caret; without,
    /// it becomes empty.
    pub fn move_cursor(&mut self, movement: Movement, modify_selection: bool)
        requires
            is_char_boundary(old(self).bytes(), old(self).selection().end as int),
        ensures
            final(self).text() == old(self).text(),
            final(self).selection().end == caret_target(
                old(self).text(),
                old(self).selection().end,
                movement,
            ),
            final(self).selection().start == (if modify_selection {
                old(self).selection().start
            } else {
                final(self).selection().end
            }),
    {
        let end = self.selection.end;
        let offset = match movement {
            Movement::Left => match prev_grapheme_cluster(self.text.as_str(), end) {
                Some(offset) => offset,
                None => end,
            },
            Movement::Right => match next_grapheme_cluster(self.text.as_str(), end) {
                Some(offset) => offset,
                None => end,
            },
            Movement::LeftWord | Movement::RightWord => end,
        };
        if modify_selection {
            self.selection.end = offset;
        } else {
            self.selection = Selection::empty(offset);
        }
    }

    /// Replaces the selected text by `text` and puts the caret behind it.
    pub fn insert(&mut self, text: &str)
        requires
            old(self).selection_valid(),
            old(self).bytes().len() + text.spec_bytes().len() <= isize::MAX,
        ensures
            final(self).bytes() == spliced(
                old(self).bytes(),
                old(self).selection().lower() as int,
                old(self).selection().upper() as int,
                text.spec_bytes(),
            ),
            final(self).selection().start == old(self).selection().lower()
                + text.spec_bytes().len(),
            final(self).selection().end == final(self).selection().start,
    {
        let min = self.selection.min();
        let max = self.selection.max();
        proof {
            vstd::utf8::encode_utf8_valid_utf8(self.text@);
            assert(min <= self.bytes().len());
        }
        replace_range(&mut self.text, min, max, text);
        self.selection = Selection::empty(min + text.len());
    }

    /// Puts the caret at `pos` and removes the selection.
    pub fn set_cursor(&mut self, pos: usize)
        ensures
            final(self).text() == old(self).text(),
            final(self).selection() == (Selection { start: pos, end: pos }),
    {
        if self.selection.is_empty() && self.selection.end == pos {
            return ;
        }
        self.selection = Selection::empty(pos);
    }

    /// Stretches the selection to `pos`.
    pub fn set_selection_end(&mut self, pos: usize)
        ensures
            final(self).text() == old(self).text(),
            final(self).selection() == (Selection { start: old(self).selection().start, end: pos }),
    {
        if self.selection.end == pos {
            return ;
        }
        self.selection.end = pos;
    }

    /// Selects the whole text.
    pub fn select_all(&mut self)
        ensures
            final(self).text() == old(self).text(),
            final(self).selection() == (Selection {
                start: 0,
                end: final(self).bytes().len() as usize,
            }),
    {
        self.selection.start = 0;
        self.selection.end = self.text.as_str().len();
    }

    /// The text.
    pub fn get_text(&self) -> (r: &str)
        ensures
            r@ == self.text(),
    {
        self.text.as_str()
    }

    /// The selection.
    pub fn get_selection(&self) -> (r: Selection)
        ensures
            r == self.selection(),
    {
        self.selection
    }
}

/// The text and the selection of an editor, without the editor.
pub struct EditState {
    pub text: String,
    pub selection: Selection,
}

impl EditState {
    /// The state of an editor that holds `text`, the caret at its start.
    pub fn new(text: String) -> (r: EditState)
        ensures
            r.text@ == text@,
            r.selection == (Selection { start: 0, end: 0 }),
    {
        EditState { text, selection: Selection::default() }
    }

    /// Replaces the text and removes the selection.
    pub fn set_text(&mut self, text: String)
        ensures
            final(self).text@ == text@,
            final(self).selection == (Selection { start: 0, end: 0 }),
    {
        self.text = text;
        self.selection = Selection::default();
    }
}

/// What happened on a text editor.
#[derive(Clone)]
pub enum TextEditAction {
    TextChanged(String),
    SelectionChanged(Selection),
}

/// Describes changes or events that happened on a text edit widget.
#[derive(Clone)]
pub struct TextEditResult(pub Option<TextEditAction>);

impl TextEditResult {
    /// Calls `f` with the text if the edited text has changed.
    pub fn on_text_changed<F: FnOnce(&str)>(&self, f: F)
        requires
            self.0 matches Some(TextEditAction::TextChanged(text)) ==> forall|s: &str|
                s@ == text@ ==> #[trigger] call_requires(f, (s,)),
        ensures
            self.0 matches Some(TextEditAction::TextChanged(text)) ==> exists|s: &str|
                s@ == text@ && #[trigger] call_ensures(f, (s,), ()),
    {
        match &self.0 {
            Some(TextEditAction::TextChanged(text)) => f(text.as_str()),
            _ => {},
        }
    }

    /// Calls `f` with the selection if the selection has changed.
    pub fn on_selection_changed<F: FnOnce(&Selection)>(&self, f: F)
        requires
            self.0 matches Some(TextEditAction::SelectionChanged(selection)) ==> call_requires(
                f,
                (&selection,),
            ),
        ensures
            self.0 matches Some(TextEditAction::SelectionChanged(selection)) ==> call_ensures(
                f,
                (&selection,),
                (),
            ),
    {
        match &self.0 {
            Some(TextEditAction::SelectionChanged(selection)) => f(selection),
            _ => {},
        }
    }
}

} // verus!
