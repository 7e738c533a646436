//! Sequence numbers that wrap around, and a ring buffer indexed by them.
use vstd::prelude::*;

verus! {

/// Whether `s1` is newer than `s2`, where numbers wrap around after 65535
/// and a difference of more than half the range means a wrap.
pub open spec fn seq_gt(s1: u16, s2: u16) -> bool {
    (s1 > s2 && s1 - s2 <= 32768) || (s1 < s2 && s2 - s1 > 32768)
}

/// Whether `s1` is newer than `s2`.
pub fn sequence_greater_than(s1: u16, s2: u16) -> (r: bool)
    ensures
        r == seq_gt(s1, s2),
{
    ((s1 > s2) && (s1 - s2 <= 32768)) || ((s1 < s2) && (s2 - s1 > 32768))
}

/// Whether `s1` is older than `s2`.
pub fn sequence_less_than(s1: u16, s2: u16) -> (r: bool)
    ensures
        r == seq_gt(s2, s1),
{
    sequence_greater_than(s2, s1)
}

/// The slot of sequence number `s` in a ring of `cap` slots.
pub open spec fn slot_of(s: u16, cap: int) -> int {
    s as int % cap
}

/// Whether the ring holds an entry for exactly `s`.
pub open spec fn spec_exists<T>(slots: Seq<Option<(u16, T)>>, s: u16) -> bool {
    let o = slots[slot_of(s, slots.len() as int)];
    o is Some && o.unwrap().0 == s
}

/// Whether every entry lives in the slot of its sequence number.
pub open spec fn slots_placed<T>(slots: Seq<Option<(u16, T)>>) -> bool {
    forall|i: int|
        0 <= i < slots.len() && #[trigger] slots[i] is Some ==> slot_of(slots[i].unwrap().0, slots.len() as int) == i
}

/// Whether `s` is one of the `span + 1` numbers from `start` on.
pub open spec fn in_window(s: u16, start: u16, span: int) -> bool {
    (s as int - start as int) % 65536 <= span
}

/// The ring after the numbers from `start` up to `finish` were removed: a
/// slot is emptied where it holds one of them; where they are at least as
/// many as the slots, every slot is emptied.
pub open spec fn spec_remove_entries<T>(slots: Seq<Option<(u16, T)>>, start: u16, finish: u16) -> Seq<
    Option<(u16, T)>,
> {
    let span: int = if finish < start {
        finish + 65536 - start
    } else {
        finish - start
    };
    if span < slots.len() {
        Seq::new(
            slots.len(),
            |i: int|
                if slots[i] is Some && in_window(slots[i].unwrap().0, start, span) {
                    None
                } else {
                    slots[i]
                },
        )
    } else {
        Seq::new(slots.len(), |i: int| None)
    }
}

/// Whether `s` is too old to be stored by a ring of `cap` slots whose next
/// number is `seq_num`.
pub open spec fn too_old(seq_num: u16, cap: nat, s: u16) -> bool {
    seq_gt(seq_num.wrapping_sub(cap as u16), s)
}

/// The next number and the slots after an entry for `s` was stored.
pub open spec fn spec_insert<T>(seq_num: u16, slots: Seq<Option<(u16, T)>>, s: u16, data: T) -> (
    u16,
    Seq<Option<(u16, T)>>,
) {
    if too_old(seq_num, slots.len(), s) {
        (seq_num, slots)
    } else {
        let (n, advanced) = if seq_gt(s.wrapping_add(1), seq_num) {
            (s.wrapping_add(1), spec_remove_entries(slots, seq_num, s))
        } else {
            (seq_num, slots)
        };
        (n, advanced.update(slot_of(s, slots.len() as int), Some((s, data))))
    }
}

/// A ring of entries indexed by sequence number: an entry for `s` lives in
/// slot `s % capacity` and is lost when a newer number takes the slot.
pub struct SequenceBuffer<T> {
    sequence_num: u16,
    slots: Vec<Option<(u16, T)>>,
}

impl<T> SequenceBuffer<T> {
    /// The number after the newest one stored.
    pub closed spec fn seq_num(&self) -> u16 {
        self.sequence_num
    }

    /// The slots.
    pub closed spec fn slots(&self) -> Seq<Option<(u16, T)>> {
        self.slots@
    }

    pub open spec fn wf(&self) -> bool {
        &&& 0 < self.slots().len() <= 65536
        &&& slots_placed(self.slots())
    }

    /// An empty ring of `size` slots.
    pub fn with_capacity(size: u16) -> (r: Self)
        requires
            size > 0,
        ensures
            r.wf(),
            r.seq_num() == 0,
            r.slots() == Seq::new(size as nat, |i: int| None::<(u16, T)>),
    {
        let mut slots: Vec<Option<(u16, T)>> = Vec::new();
        let mut i: u16 = 0;
        while i < size
            invariant
                i <= size,
                slots@ == Seq::new(i as nat, |j: int| None::<(u16, T)>),
            decreases size - i,
        {
            slots.push(None);
            i = i + 1;
            assert(slots@ =~= Seq::new(i as nat, |j: int| None::<(u16, T)>));
        }
        SequenceBuffer { sequence_num: 0, slots }
    }

    /// The number after the newest one stored.
    pub fn sequence_num(&self) -> (r: u16)
        ensures
            r == self.seq_num(),
    {
        self.sequence_num
    }

    fn index(&self, s: u16) -> (r: usize)
        requires
            self.wf(),
        ensures
            r == slot_of(s, self.slots().len() as int),
            r < self.slots().len(),
    {
        (s as usize) % self.slots.len()
    }

    /// Whether the ring holds an entry for exactly `s`.
    pub fn contains(&self, s: u16) -> (r: bool)
        requires
            self.wf(),
        ensures
            r == spec_exists(self.slots(), s),
    {
        let i = self.index(s);
        match &self.slots[i] {
            Some((k, _)) => *k == s,
            None => false,
        }
    }

    /// Takes the entry for `s` out of the ring, where there is one.
    pub fn remove(&mut self, s: u16) -> (r: Option<T>)
        requires
            old(self).wf(),
        ensures
            final(self).wf(),
            final(self).seq_num() == old(self).seq_num(),
            spec_exists(old(self).slots(), s) ==> {
                &&& r == Some(old(self).slots()[slot_of(s, old(self).slots().len() as int)].unwrap().1)
                &&& final(self).slots() == old(self).slots().update(
                    slot_of(s, old(self).slots().len() as int),
                    None,
                )
            },
            !spec_exists(old(self).slots(), s) ==> r is None && final(self).slots() == old(
                self,
            ).slots(),
    {
        let i = self.index(s);
        if self.contains(s) {
            let mut taken: Option<(u16, T)> = None;
            std::mem::swap(&mut taken, &mut self.slots[i]);
            match taken {
                Some((_, v)) => Some(v),
                None => None,
            }
        } else {
            None
        }
    }

    /// Stores `data` as the entry for `s`, in place of whatever its slot held.
    pub fn put(&mut self, s: u16, data: T)
        requires
            old(self).wf(),
        ensures
            final(self).wf(),
            final(self).seq_num() == old(self).seq_num(),
            final(self).slots() == old(self).slots().update(
                slot_of(s, old(self).slots().len() as int),
                Some((s, data)),
            ),
    {
        let i = self.index(s);
        self.slots.set(i, Some((s, data)));
    }

    /// Removes the entries for the numbers from the next one up to `finish`.
    fn remove_entries(&mut self, finish: u16)
        requires
            old(self).wf(),
        ensures
            final(self).wf(),
            final(self).seq_num() == old(self).seq_num(),
            final(self).slots() == spec_remove_entries(old(self).slots(), old(self).seq_num(), finish),
    {
        let ghost old_slots = self.slots@;
        let start: u32 = self.sequence_num as u32;
        let mut finish_sequence: u32 = finish as u32;
        if finish_sequence < start {
            finish_sequence = finish_sequence + 65536;
        }
        let len = self.slots.len();
        if ((finish_sequence - start) as usize) < len {
            let ghost span: int = finish_sequence - start;
            let mut sequence: u32 = start;
            while sequence <= finish_sequence
                invariant
                    start == old(self).seq_num(),
                    old_slots == old(self).slots(),
                    start <= sequence <= finish_sequence + 1,
                    finish_sequence - start == span,
                    finish_sequence < 65536 * 2,
                    span < len,
                    len == old_slots.len(),
                    0 < len <= 65536,
                    self.sequence_num == start,
                    self.slots@.len() == len,
                    slots_placed(old_slots),
                    slots_placed(self.slots@),
                    forall|i: int|
                        0 <= i < len ==> #[trigger] self.slots@[i] == (if old_slots[i] is Some
                            && in_window(old_slots[i].unwrap().0, start as u16, sequence - start - 1) {
                            None
                        } else {
                            old_slots[i]
                        }),
                decreases finish_sequence + 1 - sequence,
            {
                let s = (sequence % 65536) as u16;
                let ghost before = self.slots@;
                let _ = self.remove(s);
                assert forall|i: int| 0 <= i < len implies #[trigger] self.slots@[i] == (if old_slots[i] is Some
                    && in_window(old_slots[i].unwrap().0, start as u16, sequence + 1 - start - 1) {
                    None
                } else {
                    old_slots[i]
                }) by {
                    if old_slots[i] is Some {
                        let k = old_slots[i].unwrap().0;
                        assert(slot_of(k, len as int) == i);
                        assert(in_window(k, start as u16, sequence - start) <==> (in_window(
                            k,
                            start as u16,
                            sequence - start - 1,
                        ) || k == s));
                    }
                }
                sequence = sequence + 1;
            }
            assert(self.slots@ =~= spec_remove_entries(old_slots, start as u16, finish));
        } else {
            let mut index: usize = 0;
            while index < len
                invariant
                    index <= len,
                    len == old_slots.len(),
                    self.sequence_num == old(self).seq_num(),
                    self.slots@.len() == len,
                    slots_placed(old_slots),
                    forall|i: int| 0 <= i < index ==> #[trigger] self.slots@[i] is None,
                    forall|i: int| index <= i < len ==> #[trigger] self.slots@[i] == old_slots[i],
                decreases len - index,
            {
                self.slots.set(index, None);
                index = index + 1;
            }
            assert(self.slots@ =~= spec_remove_entries(old_slots, old(self).seq_num(), finish));
        }
    }

    /// Stores `data` as the entry for `s`, unless `s` is too old for the
    /// ring; storing a newer number first removes the entries between the
    /// ring's next number and `s`. Returns whether the entry was stored.
    pub fn insert(&mut self, s: u16, data: T) -> (r: bool)
        requires
            old(self).wf(),
        ensures
            final(self).wf(),
            r == !too_old(old(self).seq_num(), old(self).slots().len(), s),
            (final(self).seq_num(), final(self).slots()) == spec_insert(
                old(self).seq_num(),
                old(self).slots(),
                s,
                data,
            ),
    {
        let len = self.slots.len();
        if sequence_less_than(s, self.sequence_num.wrapping_sub(len as u16)) {
            return false;
        }
        if sequence_greater_than(s.wrapping_add(1), self.sequence_num) {
            self.remove_entries(s);
            self.sequence_num = s.wrapping_add(1);
        }
        self.put(s, data);
        true
    }
}

} // verus!
