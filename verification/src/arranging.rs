//! Arranging of incoming packets per stream: ordered streams hold packets
//! back until the ones before them arrived, sequenced streams drop packets
//! older than the newest one seen.
use crate::keyed_vec::KeyedVec;
use crate::sequence_buffer::{seq_gt, sequence_greater_than};
use vstd::prelude::*;

verus! {

/// The stream of ordered packets that name no stream.
pub const DEFAULT_ORDERING_STREAM: u8 = 255;

/// The stream of sequenced packets that name no stream.
pub const DEFAULT_SEQUENCING_STREAM: u8 = 255;

/// The state of an ordered stream.
pub struct OrderingModel<T> {
    /// The index of the next packet to deliver.
    pub expected: u16,
    /// The index that the next outgoing packet of this stream gets.
    pub unique: u16,
    /// Packets that arrived before the ones they follow.
    pub storage: Map<u16, T>,
}

/// A fresh ordered stream.
pub open spec fn ordering_default<T>() -> OrderingModel<T> {
    OrderingModel { expected: 0, unique: 0, storage: Map::empty() }
}

/// An incoming packet of an ordered stream: the expected one is delivered,
/// a newer one is held back, an older one is dropped.
pub open spec fn spec_order_arrange<T>(m: OrderingModel<T>, incoming: u16, item: T) -> (
    OrderingModel<T>,
    Option<T>,
) {
    if incoming == m.expected {
        (OrderingModel { expected: m.expected.wrapping_add(1), ..m }, Some(item))
    } else if seq_gt(incoming, m.expected) {
        (OrderingModel { storage: m.storage.insert(incoming, item), ..m }, None)
    } else {
        (m, None)
    }
}

/// The held-back packets that follow `expected` without a gap, in order,
/// the packets left held back, and the next expected index.
pub open spec fn spec_drain<T>(storage: Map<u16, T>, expected: u16) -> (Seq<T>, Map<u16, T>, u16)
    decreases storage.dom().len(),
    when storage.dom().finite()
{
    if storage.contains_key(expected) {
        let (rest, left, next) = spec_drain(storage.remove(expected), expected.wrapping_add(1));
        (seq![storage[expected]] + rest, left, next)
    } else {
        (Seq::empty(), storage, expected)
    }
}

/// An incoming packet of an ordered stream and the held-back packets that
/// it lets through: what is delivered, in order, and the new state.
pub open spec fn spec_order_deliver<T>(m: OrderingModel<T>, incoming: u16, item: T) -> (
    OrderingModel<T>,
    Seq<T>,
) {
    let (m1, first) = spec_order_arrange(m, incoming, item);
    let (rest, left, next) = spec_drain(m1.storage, m1.expected);
    let head = match first {
        Some(x) => seq![x],
        None => Seq::empty(),
    };
    (OrderingModel { expected: next, unique: m1.unique, storage: left }, head + rest)
}

/// An ordered stream.
pub struct OrderingStream<T> {
    stream_id: u8,
    storage: KeyedVec<T>,
    expected_index: u16,
    unique_item_identifier: u16,
}

impl<T> OrderingStream<T> {
    pub closed spec fn model(&self) -> OrderingModel<T> {
        OrderingModel {
            expected: self.expected_index,
            unique: self.unique_item_identifier,
            storage: self.storage@,
        }
    }

    pub closed spec fn id(&self) -> u8 {
        self.stream_id
    }

    pub closed spec fn wf(&self) -> bool {
        self.storage.wf()
    }

    pub fn new(stream_id: u8) -> (r: Self)
        ensures
            r.wf(),
            r.id() == stream_id,
            r.model() == ordering_default::<T>(),
    {
        OrderingStream {
            stream_id,
            storage: KeyedVec::new(),
            expected_index: 0,
            unique_item_identifier: 0,
        }
    }

    pub fn stream_id(&self) -> (r: u8)
        ensures
            r == self.id(),
    {
        self.stream_id
    }

    /// The index for the next outgoing packet of this stream.
    pub fn new_item_identifier(&mut self) -> (r: u16)
        requires
            old(self).wf(),
        ensures
            final(self).wf(),
            final(self).id() == old(self).id(),
            r == old(self).model().unique,
            final(self).model() == (OrderingModel {
                unique: old(self).model().unique.wrapping_add(1),
                ..old(self).model()
            }),
    {
        let id = self.unique_item_identifier;
        self.unique_item_identifier = self.unique_item_identifier.wrapping_add(1);
        id
    }

    /// Delivers the expected packet, holds back a newer one, drops an older one.
    pub fn arrange(&mut self, incoming_offset: u16, item: T) -> (r: Option<T>)
        requires
            old(self).wf(),
        ensures
            final(self).wf(),
            final(self).id() == old(self).id(),
            (final(self).model(), r) == spec_order_arrange(old(self).model(), incoming_offset, item),
    {
        if incoming_offset == self.expected_index {
            self.expected_index = self.expected_index.wrapping_add(1);
            Some(item)
        } else if sequence_greater_than(incoming_offset, self.expected_index) {
            self.storage.insert(incoming_offset, item);
            None
        } else {
            None
        }
    }

    /// Takes out the held-back packets that now follow without a gap.
    pub fn drain(&mut self) -> (r: Vec<T>)
        requires
            old(self).wf(),
        ensures
            final(self).wf(),
            final(self).id() == old(self).id(),
            ({
                let (items, left, next) = spec_drain(old(self).model().storage, old(self).model().expected);
                &&& r@ == items
                &&& final(self).model() == (OrderingModel {
                    expected: next,
                    storage: left,
                    ..old(self).model()
                })
            }),
    {
        let mut out: Vec<T> = Vec::new();
        proof {
            self.storage.lemma_finite();
        }
        let ghost s0 = self.storage@;
        let ghost e0 = self.expected_index;
        loop
            invariant
                self.wf(),
                self.id() == old(self).id(),
                self.unique_item_identifier == old(self).model().unique,
                s0 == old(self).model().storage,
                e0 == old(self).model().expected,
                self.storage@.dom().finite(),
                ({
                    let (items, left, next) = spec_drain(s0, e0);
                    let (rest, left2, next2) = spec_drain(self.storage@, self.expected_index);
                    &&& items == out@ + rest
                    &&& left == left2
                    &&& next == next2
                }),
            ensures
                !self.storage@.contains_key(self.expected_index),
            decreases self.storage@.dom().len(),
        {
            proof {
                self.storage.lemma_finite();
            }
            let ghost before = self.storage@;
            match self.storage.remove(self.expected_index) {
                None => break ,
                Some(e) => {
                    proof {
                        self.storage.lemma_finite();
                        assert(before.remove(self.expected_index).dom() =~= before.dom().remove(
                            self.expected_index,
                        ));
                    }
                    out.push(e);
                    self.expected_index = self.expected_index.wrapping_add(1);
                },
            }
        }
        out
    }
}

/// Whether `incoming` lies within the half of the number range that
/// follows `start` (inclusive of `start`).
pub open spec fn within_half_window(start: u16, incoming: u16) -> bool {
    incoming.wrapping_sub(start) <= 32768
}

/// The state of a sequenced stream.
pub struct SequencingModel {
    /// The newest index delivered.
    pub top: u16,
    /// The index that the next outgoing packet of this stream gets.
    pub unique: u16,
}

/// A fresh sequenced stream.
pub open spec fn sequencing_default() -> SequencingModel {
    SequencingModel { top: 0, unique: 0 }
}

/// A sequenced stream.
pub struct SequencingStream {
    stream_id: u8,
    top_index: u16,
    unique_item_identifier: u16,
}

impl SequencingStream {
    pub closed spec fn model(&self) -> SequencingModel {
        SequencingModel { top: self.top_index, unique: self.unique_item_identifier }
    }

    pub closed spec fn id(&self) -> u8 {
        self.stream_id
    }

    pub fn new(stream_id: u8) -> (r: Self)
        ensures
            r.id() == stream_id,
            r.model() == sequencing_default(),
    {
        SequencingStream { stream_id, top_index: 0, unique_item_identifier: 0 }
    }

    pub fn stream_id(&self) -> (r: u8)
        ensures
            r == self.id(),
    {
        self.stream_id
    }

    /// The index for the next outgoing packet of this stream.
    pub fn new_item_identifier(&mut self) -> (r: u16)
        ensures
            final(self).id() == old(self).id(),
            r == old(self).model().unique,
            final(self).model() == (SequencingModel {
                unique: old(self).model().unique.wrapping_add(1),
                ..old(self).model()
            }),
    {
        let id = self.unique_item_identifier;
        self.unique_item_identifier = self.unique_item_identifier.wrapping_add(1);
        id
    }

    /// Delivers a packet that is not older than the newest one delivered,
    /// and drops an older one.
    pub fn arrange<T>(&mut self, incoming_index: u16, item: T) -> (r: Option<T>)
        ensures
            final(self).id() == old(self).id(),
            within_half_window(old(self).model().top, incoming_index) ==> {
                &&& r == Some(item)
                &&& final(self).model() == (SequencingModel { top: incoming_index, ..old(self).model() })
            },
            !within_half_window(old(self).model().top, incoming_index) ==> {
                &&& r is None
                &&& final(self).model() == old(self).model()
            },
    {
        if incoming_index.wrapping_sub(self.top_index) <= 32768 {
            self.top_index = incoming_index;
            return Some(item);
        }
        None
    }
}

/// All ordered streams of a connection, by stream id.
pub struct OrderingSystem<T> {
    streams: Vec<OrderingStream<T>>,
}

impl<T> OrderingSystem<T> {
    pub closed spec fn wf(&self) -> bool {
        &&& forall|i: int| 0 <= i < self.streams@.len() ==> #[trigger] self.streams@[i].wf()
        &&& forall|i: int, j: int|
            0 <= i < j < self.streams@.len() ==> #[trigger] self.streams@[i].id()
                != #[trigger] self.streams@[j].id()
    }

    /// The state of stream `id`; a stream that was never used is fresh.
    pub closed spec fn stream(&self, id: u8) -> OrderingModel<T> {
        if exists|i: int| 0 <= i < self.streams@.len() && self.streams@[i].id() == id {
            let i = choose|i: int| 0 <= i < self.streams@.len() && self.streams@[i].id() == id;
            self.streams@[i].model()
        } else {
            ordering_default()
        }
    }

    proof fn lemma_stream_at(&self, i: int)
        requires
            self.wf(),
            0 <= i < self.streams@.len(),
        ensures
            self.stream(self.streams@[i].id()) == self.streams@[i].model(),
    {
        let id = self.streams@[i].id();
        let j = choose|j: int| 0 <= j < self.streams@.len() && self.streams@[j].id() == id;
        if j != i {
            if j < i {
                assert(self.streams@[j].id() != self.streams@[i].id());
            } else {
                assert(self.streams@[i].id() != self.streams@[j].id());
            }
        }
    }

    pub fn new() -> (r: Self)
        ensures
            r.wf(),
            forall|id: u8| #[trigger] r.stream(id) == ordering_default::<T>(),
    {
        OrderingSystem { streams: Vec::new() }
    }

    /// The position of stream `id`, which is created where it is missing.
    fn get_or_create_stream(&mut self, stream_id: u8) -> (r: usize)
        requires
            old(self).wf(),
        ensures
            final(self).wf(),
            r < final(self).streams@.len(),
            final(self).streams@[r as int].id() == stream_id,
            forall|id: u8| #[trigger] final(self).stream(id) == old(self).stream(id),
    {
        let mut i: usize = 0;
        while i < self.streams.len()
            invariant
                self.wf(),
                i <= self.streams@.len(),
                forall|j: int| 0 <= j < i ==> self.streams@[j].id() != stream_id,
            decreases self.streams@.len() - i,
        {
            if self.streams[i].stream_id() == stream_id {
                return i;
            }
            i = i + 1;
        }
        let ghost before = *self;
        self.streams.push(OrderingStream::new(stream_id));
        proof {
            assert forall|id: u8| #[trigger] self.stream(id) == before.stream(id) by {
                if id == stream_id {
                    self.lemma_stream_at(i as int);
                    assert(!(exists|j: int|
                        0 <= j < before.streams@.len() && before.streams@[j].id() == id));
                } else {
                    if exists|j: int| 0 <= j < before.streams@.len() && before.streams@[j].id() == id {
                        let j = choose|j: int|
                            0 <= j < before.streams@.len() && before.streams@[j].id() == id;
                        before.lemma_stream_at(j);
                        self.lemma_stream_at(j);
                    } else {
                        assert(!(exists|j: int|
                            0 <= j < self.streams@.len() && self.streams@[j].id() == id));
                    }
                }
            }
        }
        i
    }

    /// The index for the next outgoing packet of stream `stream_id`.
    pub fn new_item_identifier(&mut self, stream_id: u8) -> (r: u16)
        requires
            old(self).wf(),
        ensures
            final(self).wf(),
            r == old(self).stream(stream_id).unique,
            final(self).stream(stream_id) == (OrderingModel {
                unique: old(self).stream(stream_id).unique.wrapping_add(1),
                ..old(self).stream(stream_id)
            }),
            forall|id: u8| id != stream_id ==> #[trigger] final(self).stream(id) == old(self).stream(id),
    {
        let i = self.get_or_create_stream(stream_id);
        let ghost mid = *self;
        proof {
            mid.lemma_stream_at(i as int);
        }
        let r = self.streams[i].new_item_identifier();
        proof {
            self.lemma_updated(mid, i as int);
        }
        r
    }

    proof fn lemma_updated(&self, before: Self, i: int)
        requires
            before.wf(),
            0 <= i < before.streams@.len(),
            self.streams@.len() == before.streams@.len(),
            self.streams@[i].wf(),
            self.streams@[i].id() == before.streams@[i].id(),
            forall|j: int| 0 <= j < self.streams@.len() && j != i ==> self.streams@[j] == before.streams@[j],
        ensures
            self.wf(),
            self.stream(self.streams@[i].id()) == self.streams@[i].model(),
            forall|id: u8|
                id != self.streams@[i].id() ==> #[trigger] self.stream(id) == before.stream(id),
    {
        assert forall|a: int, b: int| 0 <= a < b < self.streams@.len() implies #[trigger] self.streams@[a].id()
            != #[trigger] self.streams@[b].id() by {
            assert(before.streams@[a].id() != before.streams@[b].id());
        }
        self.lemma_stream_at(i);
        assert forall|id: u8| id != self.streams@[i].id() implies #[trigger] self.stream(id) == before.stream(id) by {
            if exists|j: int| 0 <= j < before.streams@.len() && before.streams@[j].id() == id {
                let j = choose|j: int| 0 <= j < before.streams@.len() && before.streams@[j].id() == id;
                before.lemma_stream_at(j);
                self.lemma_stream_at(j);
            } else {
                assert(!(exists|j: int| 0 <= j < self.streams@.len() && self.streams@[j].id() == id));
            }
        }
    }

    /// An incoming packet of stream `stream_id` with index `incoming`: the
    /// packets that it lets through, in order.
    pub fn arrange(&mut self, stream_id: u8, incoming: u16, item: T) -> (r: Vec<T>)
        requires
            old(self).wf(),
        ensures
            final(self).wf(),
            (final(self).stream(stream_id), r@) == spec_order_deliver(
                old(self).stream(stream_id),
                incoming,
                item,
            ),
            forall|id: u8| id != stream_id ==> #[trigger] final(self).stream(id) == old(self).stream(id),
    {
        let i = self.get_or_create_stream(stream_id);
        let ghost mid = *self;
        proof {
            mid.lemma_stream_at(i as int);
        }
        let first = self.streams[i].arrange(incoming, item);
        let rest = self.streams[i].drain();
        proof {
            self.lemma_updated(mid, i as int);
        }
        let mut out: Vec<T> = Vec::new();
        match first {
            Some(x) => {
                out.push(x);
            },
            None => {},
        }
        let mut rest = rest;
        out.append(&mut rest);
        assert(out@ =~= spec_order_deliver(mid.stream(stream_id), incoming, item).1);
        out
    }
}

/// All sequenced streams of a connection, by stream id.
pub struct SequencingSystem {
    streams: Vec<SequencingStream>,
}

impl SequencingSystem {
    pub closed spec fn wf(&self) -> bool {
        forall|i: int, j: int|
            0 <= i < j < self.streams@.len() ==> #[trigger] self.streams@[i].id()
                != #[trigger] self.streams@[j].id()
    }

    /// The state of stream `id`; a stream that was never used is fresh.
    pub closed spec fn stream(&self, id: u8) -> SequencingModel {
        if exists|i: int| 0 <= i < self.streams@.len() && self.streams@[i].id() == id {
            let i = choose|i: int| 0 <= i < self.streams@.len() && self.streams@[i].id() == id;
            self.streams@[i].model()
        } else {
            sequencing_default()
        }
    }

    proof fn lemma_stream_at(&self, i: int)
        requires
            self.wf(),
            0 <= i < self.streams@.len(),
        ensures
            self.stream(self.streams@[i].id()) == self.streams@[i].model(),
    {
        let id = self.streams@[i].id();
        let j = choose|j: int| 0 <= j < self.streams@.len() && self.streams@[j].id() == id;
        if j != i {
            if j < i {
                assert(self.streams@[j].id() != self.streams@[i].id());
            } else {
                assert(self.streams@[i].id() != self.streams@[j].id());
            }
        }
    }

    proof fn lemma_updated(&self, before: Self, i: int)
        requires
            before.wf(),
            0 <= i < before.streams@.len(),
            self.streams@.len() == before.streams@.len(),
            self.streams@[i].id() == before.streams@[i].id(),
            forall|j: int| 0 <= j < self.streams@.len() && j != i ==> self.streams@[j] == before.streams@[j],
        ensures
            self.wf(),
            self.stream(self.streams@[i].id()) == self.streams@[i].model(),
            forall|id: u8|
                id != self.streams@[i].id() ==> #[trigger] self.stream(id) == before.stream(id),
    {
        assert forall|a: int, b: int| 0 <= a < b < self.streams@.len() implies #[trigger] self.streams@[a].id()
            != #[trigger] self.streams@[b].id() by {
            assert(before.streams@[a].id() != before.streams@[b].id());
        }
        self.lemma_stream_at(i);
        assert forall|id: u8| id != self.streams@[i].id() implies #[trigger] self.stream(id) == before.stream(id) by {
            if exists|j: int| 0 <= j < before.streams@.len() && before.streams@[j].id() == id {
                let j = choose|j: int| 0 <= j < before.streams@.len() && before.streams@[j].id() == id;
                before.lemma_stream_at(j);
                self.lemma_stream_at(j);
            } else {
                assert(!(exists|j: int| 0 <= j < self.streams@.len() && self.streams@[j].id() == id));
            }
        }
    }

    pub fn new() -> (r: Self)
        ensures
            r.wf(),
            forall|id: u8| #[trigger] r.stream(id) == sequencing_default(),
    {
        SequencingSystem { streams: Vec::new() }
    }

    /// The position of stream `id`, which is created where it is missing.
    fn get_or_create_stream(&mut self, stream_id: u8) -> (r: usize)
        requires
            old(self).wf(),
        ensures
            final(self).wf(),
            r < final(self).streams@.len(),
            final(self).streams@[r as int].id() == stream_id,
            forall|id: u8| #[trigger] final(self).stream(id) == old(self).stream(id),
    {
        let mut i: usize = 0;
        while i < self.streams.len()
            invariant
                self.wf(),
                i <= self.streams@.len(),
                forall|j: int| 0 <= j < i ==> self.streams@[j].id() != stream_id,
            decreases self.streams@.len() - i,
        {
            if self.streams[i].stream_id() == stream_id {
                return i;
            }
            i = i + 1;
        }
        let ghost before = *self;
        self.streams.push(SequencingStream::new(stream_id));
        proof {
            assert forall|id: u8| #[trigger] self.stream(id) == before.stream(id) by {
                if id == stream_id {
                    self.lemma_stream_at(i as int);
                    assert(!(exists|j: int|
                        0 <= j < before.streams@.len() && before.streams@[j].id() == id));
                } else {
                    if exists|j: int| 0 <= j < before.streams@.len() && before.streams@[j].id() == id {
                        let j = choose|j: int|
                            0 <= j < before.streams@.len() && before.streams@[j].id() == id;
                        before.lemma_stream_at(j);
                        self.lemma_stream_at(j);
                    } else {
                        assert(!(exists|j: int|
                            0 <= j < self.streams@.len() && self.streams@[j].id() == id));
                    }
                }
            }
        }
        i
    }

    /// The index for the next outgoing packet of stream `stream_id`.
    pub fn new_item_identifier(&mut self, stream_id: u8) -> (r: u16)
        requires
            old(self).wf(),
        ensures
            final(self).wf(),
            r == old(self).stream(stream_id).unique,
            final(self).stream(stream_id) == (SequencingModel {
                unique: old(self).stream(stream_id).unique.wrapping_add(1),
                ..old(self).stream(stream_id)
            }),
            forall|id: u8| id != stream_id ==> #[trigger] final(self).stream(id) == old(self).stream(id),
    {
        let i = self.get_or_create_stream(stream_id);
        let ghost mid = *self;
        proof {
            mid.lemma_stream_at(i as int);
        }
        let r = self.streams[i].new_item_identifier();
        proof {
            self.lemma_updated(mid, i as int);
        }
        r
    }

    /// An incoming packet of stream `stream_id` with index `incoming`:
    /// delivered where it is not older than the newest one delivered.
    pub fn arrange<T>(&mut self, stream_id: u8, incoming: u16, item: T) -> (r: Option<T>)
        requires
            old(self).wf(),
        ensures
            final(self).wf(),
            within_half_window(old(self).stream(stream_id).top, incoming) ==> {
                &&& r == Some(item)
                &&& final(self).stream(stream_id) == (SequencingModel {
                    top: incoming,
                    ..old(self).stream(stream_id)
                })
            },
            !within_half_window(old(self).stream(stream_id).top, incoming) ==> {
                &&& r is None
                &&& final(self).stream(stream_id) == old(self).stream(stream_id)
            },
            forall|id: u8| id != stream_id ==> #[trigger] final(self).stream(id) == old(self).stream(id),
    {
        let i = self.get_or_create_stream(stream_id);
        let ghost mid = *self;
        proof {
            mid.lemma_stream_at(i as int);
        }
        let r = self.streams[i].arrange(incoming, item);
        proof {
            self.lemma_updated(mid, i as int);
        }
        r
    }
}

proof fn lemma_wrap_step(e: u16, r: int)
    requires
        r >= 0,
    ensures
        (e.wrapping_add(1) as int + r) % 65536 == (e as int + 1 + r) % 65536,
{
    if e == 65535 {
        assert(e.wrapping_add(1) == 0);
        vstd::arithmetic::div_mod::lemma_mod_add_multiples_vanish(r, 65536);
    }
}

/// An ordered stream never skips an index: draining advances the expected
/// index by exactly the number of packets delivered, and stops at an index
/// that is not held back.
pub proof fn lemma_drain_advances<T>(storage: Map<u16, T>, expected: u16)
    requires
        storage.dom().finite(),
    ensures
        spec_drain(storage, expected).2 as int == (expected as int + spec_drain(
            storage,
            expected,
        ).0.len()) % 65536,
        !spec_drain(storage, expected).1.contains_key(spec_drain(storage, expected).2),
    decreases storage.dom().len(),
{
    if storage.contains_key(expected) {
        let s2 = storage.remove(expected);
        assert(s2.dom() =~= storage.dom().remove(expected));
        lemma_drain_advances(s2, expected.wrapping_add(1));
        lemma_wrap_step(expected, spec_drain(s2, expected.wrapping_add(1)).0.len() as int);
    }
}

/// An ordered stream delivers in order: the `j`th packet that draining
/// delivers is the one held back under the `j`th index from the expected one.
pub proof fn lemma_drain_item<T>(storage: Map<u16, T>, expected: u16, j: int)
    requires
        storage.dom().finite(),
        0 <= j < spec_drain(storage, expected).0.len(),
    ensures
        storage.contains_key(((expected as int + j) % 65536) as u16),
        spec_drain(storage, expected).0[j] == storage[((expected as int + j) % 65536) as u16],
    decreases storage.dom().len(),
{
    let key = ((expected as int + j) % 65536) as u16;
    assert(storage.contains_key(expected));
    let s2 = storage.remove(expected);
    assert(s2.dom() =~= storage.dom().remove(expected));
    let rest = spec_drain(s2, expected.wrapping_add(1)).0;
    assert(spec_drain(storage, expected).0 == seq![storage[expected]] + rest);
    if j == 0 {
        assert(key == expected);
    } else {
        lemma_drain_item(s2, expected.wrapping_add(1), j - 1);
        lemma_wrap_step(expected, j - 1);
        assert(s2.contains_key(key));
        assert(key != expected);
    }
}

/// A sequenced stream delivers every index that lies at most half the
/// number range ahead of the newest index delivered, counting around the
/// wrap, and drops every other: the newest index itself (the first packet
/// of a fresh stream, index 0 after top 0, among them) is delivered.
pub proof fn lemma_sequenced_window(top: u16, incoming: u16)
    ensures
        within_half_window(top, incoming) <==> ({
            ||| top <= incoming && incoming - top <= 32768
            ||| incoming < top && incoming + 65536 - top <= 32768
        }),
        within_half_window(top, top),
{
}

/// An ordered stream drops an index that is neither the expected one nor
/// newer than it: nothing is delivered and the stream is left as it was.
pub proof fn lemma_ordered_older_dropped<T>(m: OrderingModel<T>, incoming: u16, item: T)
    requires
        incoming != m.expected,
        !seq_gt(incoming, m.expected),
    ensures
        spec_order_arrange(m, incoming, item).0 == m,
        spec_order_arrange(m, incoming, item).1 is None,
{
}

/// An ordered stream delivers each index at most once: the expected index
/// is delivered and the stream moves past it; the same index arriving again
/// (a duplicate) is then dropped and changes nothing.
pub proof fn lemma_ordered_delivered_once<T>(m: OrderingModel<T>, x: T, y: T)
    ensures
        spec_order_arrange(m, m.expected, x).1 == Some(x),
        spec_order_arrange(m, m.expected, x).0.expected as int == (m.expected as int + 1) % 65536,
        spec_order_arrange(spec_order_arrange(m, m.expected, x).0, m.expected, y).0
            == spec_order_arrange(m, m.expected, x).0,
        spec_order_arrange(spec_order_arrange(m, m.expected, x).0, m.expected, y).1 is None,
{
    let m1 = spec_order_arrange(m, m.expected, x).0;
    assert(m1.expected == m.expected.wrapping_add(1));
    assert(m.expected != m1.expected);
    assert(!seq_gt(m.expected, m1.expected));
}

/// With nothing held back under the expected index, an ordered stream that
/// gets an index older than the expected one delivers nothing at all, held
/// back packets included, and stays as it was.
pub proof fn lemma_ordered_older_delivers_nothing<T>(m: OrderingModel<T>, incoming: u16, item: T)
    requires
        m.storage.dom().finite(),
        !m.storage.contains_key(m.expected),
        incoming != m.expected,
        !seq_gt(incoming, m.expected),
    ensures
        spec_order_deliver(m, incoming, item).0 == m,
        spec_order_deliver(m, incoming, item).1 == Seq::<T>::empty(),
{
    lemma_ordered_older_dropped(m, incoming, item);
    assert(spec_drain(m.storage, m.expected) == (Seq::<T>::empty(), m.storage, m.expected));
    assert(spec_order_deliver(m, incoming, item).1 =~= Seq::<T>::empty());
}

} // verus!
