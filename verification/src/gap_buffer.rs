//! A gap buffer: a sequence that is cheap to edit around one place.
use vstd::prelude::*;

verus! {

/// A sequence of elements with a gap at `gap_pos`, where inserting and
/// removing cost nothing but the move of the gap.
///
/// The elements before the gap are kept in order, those behind it in
/// reverse, so that the gap moves by one place when an element goes from the
/// end of one part to the end of the other.
pub struct GapBuffer<T> {
    before: Vec<T>,
    behind: Vec<T>,
}

impl<T> View for GapBuffer<T> {
    type V = Seq<T>;

    closed spec fn view(&self) -> Seq<T> {
        self.before@ + self.behind@.reverse()
    }
}

/// Reversing a sequence that got one more element at its end puts that
/// element first.
proof fn lemma_reverse_push<T>(s: Seq<T>, x: T)
    ensures
        s.push(x).reverse() =~= seq![x] + s.reverse(),
{
}

impl<T> GapBuffer<T> {
    /// Where the gap is.
    pub closed spec fn gap_pos(&self) -> int {
        self.before@.len() as int
    }

    /// The gap is somewhere in the buffer.
    pub proof fn law_gap_in_buffer(&self)
        ensures
            0 <= self.gap_pos() <= self@.len(),
    {
    }

    /// Creates an empty gap buffer.
    pub fn new() -> (r: GapBuffer<T>)
        ensures
            r@ == Seq::<T>::empty(),
            r.gap_pos() == 0,
    {
        let r = GapBuffer { before: Vec::new(), behind: Vec::new() };
        proof {
            assert(r@ =~= Seq::<T>::empty());
        }
        r
    }

    /// Returns the number of elements.
    pub fn len(&self) -> (r: usize)
        requires
            self@.len() <= usize::MAX,
        ensures
            r == self@.len(),
    {
        self.before.len() + self.behind.len()
    }

    /// Moves the gap to `pos`; the elements stay as they are.
    pub fn move_gap(&mut self, pos: usize)
        requires
            pos <= old(self)@.len(),
        ensures
            final(self)@ == old(self)@,
            final(self).gap_pos() == pos,
    {
        while self.before.len() > pos
            invariant
                self@ == old(self)@,
                pos <= self@.len(),
            decreases self.before@.len(),
        {
            let ghost before = self.before@;
            let ghost behind = self.behind@;
            let elem = match self.before.pop() {
                Some(elem) => elem,
                None => unreached(),
            };
            self.behind.push(elem);
            proof {
                lemma_reverse_push(behind, elem);
                assert(self@ =~= before + behind.reverse());
            }
        }
        while self.before.len() < pos
            invariant
                self@ == old(self)@,
                pos <= self@.len(),
                self.before@.len() <= pos,
            decreases pos - self.before@.len(),
        {
            let ghost before = self.before@;
            let ghost behind = self.behind@;
            let elem = match self.behind.pop() {
                Some(elem) => elem,
                None => unreached(),
            };
            self.before.push(elem);
            proof {
                lemma_reverse_push(self.behind@, elem);
                assert(behind =~= self.behind@.push(elem));
                assert(self@ =~= before + behind.reverse());
            }
        }
    }

    /// Moves the gap to `pos` and inserts the element there.
    pub fn insert(&mut self, pos: usize, elem: T)
        requires
            pos <= old(self)@.len(),
            old(self)@.len() < usize::MAX,
        ensures
            final(self)@ == old(self)@.insert(pos as int, elem),
            final(self).gap_pos() == pos + 1,
    {
        self.move_gap(pos);
        let ghost before = self.before@;
        self.before.push(elem);
        proof {
            assert(self@ =~= old(self)@.insert(pos as int, elem));
        }
    }

    /// Moves the gap to `pos` and removes the element there.
    pub fn remove(&mut self, pos: usize) -> (r: T)
        requires
            pos < old(self)@.len(),
        ensures
            r == old(self)@[pos as int],
            final(self)@ == old(self)@.remove(pos as int),
            final(self).gap_pos() == pos,
    {
        self.move_gap(pos);
        let ghost behind = self.behind@;
        let elem = match self.behind.pop() {
            Some(elem) => elem,
            None => unreached(),
        };
        proof {
            lemma_reverse_push(self.behind@, elem);
            assert(behind =~= self.behind@.push(elem));
            assert(self@ =~= old(self)@.remove(pos as int));
        }
        elem
    }

    /// The element at `pos`.
    pub fn get(&self, pos: usize) -> (r: &T)
        requires
            pos < self@.len(),
        ensures
            *r == self@[pos as int],
    {
        if pos < self.before.len() {
            &self.before[pos]
        } else {
            let back = self.behind.len() - 1 - (pos - self.before.len());
            &self.behind[back]
        }
    }

    /// The elements from `start` up to `end`, in order.
    pub fn iter(&self, start: usize, end: usize) -> (r: Vec<&T>)
        requires
            start <= end <= self@.len(),
        ensures
            r@.len() == end - start,
            forall|i: int| 0 <= i < r@.len() ==> *(#[trigger] r@[i]) == self@[start + i],
    {
        let mut items: Vec<&T> = Vec::new();
        let mut pos = start;
        while pos < end
            invariant
                start <= pos <= end <= self@.len(),
                items@.len() == pos - start,
                forall|i: int|
                    0 <= i < items@.len() ==> *(#[trigger] items@[i]) == self@[start + i],
            decreases end - pos,
        {
            items.push(self.get(pos));
            pos += 1;
        }
        items
    }

    /// Replaces the element at `pos`.
    pub fn set(&mut self, pos: usize, elem: T)
        requires
            pos < old(self)@.len(),
        ensures
            final(self)@ == old(self)@.update(pos as int, elem),
            final(self).gap_pos() == old(self).gap_pos(),
    {
        if pos < self.before.len() {
            self.before.set(pos, elem);
        } else {
            let back = self.behind.len() - 1 - (pos - self.before.len());
            self.behind.set(back, elem);
        }
        proof {
            assert(final(self)@ =~= old(self)@.update(pos as int, elem));
        }
    }
}

impl<T> Default for GapBuffer<T> {
    fn default() -> (r: GapBuffer<T>)
        ensures
            r@ == Seq::<T>::empty(),
    {
        GapBuffer::new()
    }
}

} // verus!
