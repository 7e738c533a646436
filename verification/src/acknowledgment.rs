//! Which packets were sent and not yet acknowledged, and which remote
//! packets were received and must be acknowledged.
use crate::packet::{OrderingGuarantee, PacketType};
use crate::sequence_buffer::{seq_gt, sequence_greater_than, sequence_less_than, spec_exists, spec_insert, SequenceBuffer};
use vstd::prelude::*;
use vstd::slice::slice_to_vec;

verus! {

/// How many packets before the newest one an acknowledgement also covers.
pub const REDUNDANT_PACKET_ACKS_SIZE: u16 = 32;

/// A reliable packet that was sent and may have to be sent again.
#[derive(Debug)]
pub struct SentPacket {
    pub packet_type: PacketType,
    pub payload: Vec<u8>,
    pub ordering_guarantee: OrderingGuarantee,
    pub item_identifier: Option<u16>,
}

/// Whether no two entries have the same sequence number.
pub open spec fn keys_distinct(v: Seq<(u16, SentPacket)>) -> bool {
    forall|i: int, j: int| 0 <= i < j < v.len() ==> #[trigger] v[i].0 != #[trigger] v[j].0
}

/// Whether a list of entries holds exactly the map `m`.
pub open spec fn mirrors(v: Seq<(u16, SentPacket)>, m: Map<u16, SentPacket>) -> bool {
    &&& keys_distinct(v)
    &&& forall|i: int|
        0 <= i < v.len() ==> m.contains_key(#[trigger] v[i].0) && m[v[i].0] == v[i].1
    &&& forall|k: u16| #[trigger] m.contains_key(k) ==> exists|i: int| 0 <= i < v.len() && v[i].0 == k
}

/// Bit `n` of `field`.
pub open spec fn bit(field: u32, n: u32) -> bool {
    (field >> n) & 1u32 == 1u32
}

/// Whether an acknowledgement of `ack_seq` with `ack_field` covers `k`: the
/// acknowledged number itself, and the number `i` before it for each bit
/// `i - 1` that is set, for `i` from 1 to 32.
pub open spec fn acked(ack_seq: u16, ack_field: u32, k: u16) -> bool {
    k == ack_seq || exists|i: u16|
        1 <= i <= REDUNDANT_PACKET_ACKS_SIZE && k == ack_seq.wrapping_sub(i) && bit(
            ack_field,
            (i - 1) as u32,
        )
}

/// Whether a sent packet counts as lost: older than the newest acknowledged
/// one by more than an acknowledgement covers.
pub open spec fn is_dropped(remote_ack: u16, k: u16) -> bool {
    seq_gt(remote_ack, k) && remote_ack.wrapping_sub(k) > REDUNDANT_PACKET_ACKS_SIZE
}

/// Whether `ks` lists, in increasing order, exactly the numbers of the
/// packets in `m` that count as lost.
pub open spec fn dropped_in_order(ks: Seq<u16>, m: Map<u16, SentPacket>, remote_ack: u16) -> bool {
    &&& forall|a: int, b: int| 0 <= a < b < ks.len() ==> ks[a] < ks[b]
    &&& forall|a: int|
        0 <= a < ks.len() ==> m.contains_key(#[trigger] ks[a]) && is_dropped(remote_ack, ks[a])
    &&& forall|k: u16| m.contains_key(k) && is_dropped(remote_ack, k) ==> #[trigger] ks.contains(k)
}

/// The acknowledgement bits for the 32 numbers before `remote`: bit `i - 1`
/// is set when number `i` before `remote` was received, for `i` up to `n`.
pub open spec fn ack_bits(received: Seq<Option<(u16, ())>>, remote: u16, n: nat) -> u32
    decreases n,
{
    if n == 0 {
        0
    } else {
        let prev = ack_bits(received, remote, (n - 1) as nat);
        if spec_exists(received, remote.wrapping_sub(n as u16)) {
            prev | (1u32 << ((n - 1) as u32))
        } else {
            prev
        }
    }
}

/// The sent-packet table and the received-packet ring.
pub struct AcknowledgmentHandler {
    sequence_number: u16,
    remote_ack_sequence_num: u16,
    sent_packets: Vec<(u16, SentPacket)>,
    sent_map: Ghost<Map<u16, SentPacket>>,
    received_packets: SequenceBuffer<()>,
}

proof fn lemma_mirror_len(v: Seq<(u16, SentPacket)>, m: Map<u16, SentPacket>)
    requires
        mirrors(v, m),
    ensures
        m.dom().finite(),
        m.dom().len() == v.len(),
{
    let keys = v.map_values(|e: (u16, SentPacket)| e.0);
    assert(keys.no_duplicates()) by {
        assert forall|i: int, j: int| 0 <= i < keys.len() && 0 <= j < keys.len() && i != j implies keys[i]
            != keys[j] by {
            if i < j {
                assert(v[i].0 != v[j].0);
            } else {
                assert(v[j].0 != v[i].0);
            }
        }
    }
    assert forall|k: u16| m.dom().contains(k) implies keys.to_set().contains(k) by {
        let i = choose|i: int| 0 <= i < v.len() && v[i].0 == k;
        assert(keys[i] == k);
    }
    assert forall|k: u16| keys.to_set().contains(k) implies m.dom().contains(k) by {
        let i = choose|i: int| 0 <= i < keys.len() && keys[i] == k;
        assert(m.contains_key(v[i].0));
    }
    assert(m.dom() =~= keys.to_set());
    keys.unique_seq_to_set();
}

impl AcknowledgmentHandler {
    /// The sequence number of the next packet to be sent.
    pub closed spec fn local_seq(&self) -> u16 {
        self.sequence_number
    }

    /// The newest sequence number that the remote host acknowledged.
    pub closed spec fn remote_ack(&self) -> u16 {
        self.remote_ack_sequence_num
    }

    /// The packets sent and not yet acknowledged, by sequence number.
    pub closed spec fn sent(&self) -> Map<u16, SentPacket> {
        self.sent_map@
    }

    /// The ring of received sequence numbers.
    pub closed spec fn received(&self) -> SequenceBuffer<()> {
        self.received_packets
    }

    /// The newest sequence number received from the remote host.
    pub open spec fn spec_remote_seq(&self) -> u16 {
        self.received().seq_num().wrapping_sub(1)
    }

    /// The acknowledgement bits that the next outgoing header carries.
    pub open spec fn spec_ack_bitfield(&self) -> u32 {
        ack_bits(self.received().slots(), self.spec_remote_seq(), REDUNDANT_PACKET_ACKS_SIZE as nat)
    }

    pub closed spec fn wf(&self) -> bool {
        &&& mirrors(self.sent_packets@, self.sent_map@)
        &&& self.received_packets.wf()
        &&& self.received_packets.slots().len() == REDUNDANT_PACKET_ACKS_SIZE + 1
    }

    /// Nothing sent, nothing received.
    pub fn new() -> (r: Self)
        ensures
            r.wf(),
            r.local_seq() == 0,
            r.remote_ack() == u16::MAX,
            r.sent() == Map::<u16, SentPacket>::empty(),
            r.received().seq_num() == 0,
            r.received().slots() == Seq::new(
                (REDUNDANT_PACKET_ACKS_SIZE + 1) as nat,
                |i: int| None::<(u16, ())>,
            ),
    {
        AcknowledgmentHandler {
            sequence_number: 0,
            remote_ack_sequence_num: u16::MAX,
            sent_packets: Vec::new(),
            sent_map: Ghost(Map::empty()),
            received_packets: SequenceBuffer::with_capacity(REDUNDANT_PACKET_ACKS_SIZE + 1),
        }
    }

    /// How many sent packets are not acknowledged yet, cut to 16 bits.
    pub fn packets_in_flight(&self) -> (r: u16)
        requires
            self.wf(),
        ensures
            r == self.sent().dom().len() as u16,
    {
        proof {
            lemma_mirror_len(self.sent_packets@, self.sent_map@);
        }
        self.sent_packets.len() as u16
    }

    /// The sequence number of the next packet to be sent.
    pub fn local_sequence_num(&self) -> (r: u16)
        ensures
            r == self.local_seq(),
    {
        self.sequence_number
    }

    /// The newest sequence number received from the remote host.
    pub fn remote_sequence_num(&self) -> (r: u16)
        ensures
            r == self.received().seq_num().wrapping_sub(1),
    {
        self.received_packets.sequence_num().wrapping_sub(1)
    }

    /// Bit `i - 1` is set where the packet `i` before the newest received
    /// one was received too, for `i` from 1 to 32.
    pub fn ack_bitfield(&self) -> (r: u32)
        requires
            self.wf(),
        ensures
            r == ack_bits(
                self.received().slots(),
                self.received().seq_num().wrapping_sub(1),
                REDUNDANT_PACKET_ACKS_SIZE as nat,
            ),
    {
        let most_recent_remote_seq_num = self.remote_sequence_num();
        let mut ack_bitfield: u32 = 0;
        let mut i: u16 = 1;
        while i <= REDUNDANT_PACKET_ACKS_SIZE
            invariant
                self.wf(),
                1 <= i <= REDUNDANT_PACKET_ACKS_SIZE + 1,
                most_recent_remote_seq_num == self.received().seq_num().wrapping_sub(1),
                ack_bitfield == ack_bits(
                    self.received().slots(),
                    most_recent_remote_seq_num,
                    (i - 1) as nat,
                ),
            decreases REDUNDANT_PACKET_ACKS_SIZE + 1 - i,
        {
            let sequence = most_recent_remote_seq_num.wrapping_sub(i);
            if self.received_packets.contains(sequence) {
                ack_bitfield = ack_bitfield | (1u32 << ((i - 1) as u32));
            }
            i = i + 1;
        }
        ack_bitfield
    }

    fn find_sent(&self, k: u16) -> (r: Option<usize>)
        requires
            self.wf(),
        ensures
            match r {
                Some(i) => i < self.sent_packets@.len() && self.sent_packets@[i as int].0 == k
                    && self.sent().contains_key(k),
                None => !self.sent().contains_key(k),
            },
    {
        let mut i: usize = 0;
        while i < self.sent_packets.len()
            invariant
                self.wf(),
                i <= self.sent_packets@.len(),
                forall|j: int| 0 <= j < i ==> self.sent_packets@[j].0 != k,
            decreases self.sent_packets@.len() - i,
        {
            if self.sent_packets[i].0 == k {
                return Some(i);
            }
            i = i + 1;
        }
        None
    }

    /// Forgets the sent packet `k`, where there is one.
    fn remove_sent(&mut self, k: u16) -> (r: Option<SentPacket>)
        requires
            old(self).wf(),
        ensures
            final(self).wf(),
            final(self).sent() == old(self).sent().remove(k),
            r == (if old(self).sent().contains_key(k) {
                Some(old(self).sent()[k])
            } else {
                None::<SentPacket>
            }),
            final(self).local_seq() == old(self).local_seq(),
            final(self).remote_ack() == old(self).remote_ack(),
            final(self).received() == old(self).received(),
            final(self).sent_packets@.len() <= old(self).sent_packets@.len(),
            old(self).sent().contains_key(k) ==> final(self).sent_packets@.len() < old(
                self,
            ).sent_packets@.len(),
    {
        match self.find_sent(k) {
            None => {
                assert(self.sent_map@.remove(k) =~= self.sent_map@);
                None
            },
            Some(i) => {
                let ghost v = self.sent_packets@;
                let ghost m = self.sent_map@;
                let (_, p) = self.sent_packets.remove(i);
                self.sent_map = Ghost(m.remove(k));
                proof {
                    let v2 = self.sent_packets@;
                    assert(v2 =~= v.remove(i as int));
                    assert forall|a: int, b: int| 0 <= a < b < v2.len() implies #[trigger] v2[a].0
                        != #[trigger] v2[b].0 by {
                        let a0 = if a < i {
                            a
                        } else {
                            a + 1
                        };
                        let b0 = if b < i {
                            b
                        } else {
                            b + 1
                        };
                        assert(v[a0].0 != v[b0].0);
                    }
                    assert forall|a: int| 0 <= a < v2.len() implies self.sent_map@.contains_key(
                        #[trigger] v2[a].0,
                    ) && self.sent_map@[v2[a].0] == v2[a].1 by {
                        let a0 = if a < i {
                            a
                        } else {
                            a + 1
                        };
                        assert(v2[a] == v[a0]);
                        assert(v[a0].0 != v[i as int].0);
                    }
                    assert forall|key: u16| #[trigger] self.sent_map@.contains_key(key) implies exists|
                        a: int,
                    | 0 <= a < v2.len() && v2[a].0 == key by {
                        let a0 = choose|a0: int| 0 <= a0 < v.len() && v[a0].0 == key;
                        assert(a0 != i);
                        let a = if a0 < i {
                            a0
                        } else {
                            a0 - 1
                        };
                        assert(v2[a].0 == key);
                    }
                }
                Some(p)
            },
        }
    }

    /// Records the sent packet `k`, in place of an older one with the same
    /// number.
    fn insert_sent(&mut self, k: u16, p: SentPacket)
        requires
            old(self).wf(),
        ensures
            final(self).wf(),
            final(self).sent() == old(self).sent().insert(k, p),
            final(self).local_seq() == old(self).local_seq(),
            final(self).remote_ack() == old(self).remote_ack(),
            final(self).received() == old(self).received(),
    {
        let ghost v = self.sent_packets@;
        let ghost m = self.sent_map@;
        let ghost pv = p;
        match self.find_sent(k) {
            Some(i) => {
                self.sent_packets.set(i, (k, p));
                self.sent_map = Ghost(m.insert(k, pv));
                proof {
                    let v2 = self.sent_packets@;
                    assert forall|a: int, b: int| 0 <= a < b < v2.len() implies #[trigger] v2[a].0
                        != #[trigger] v2[b].0 by {
                        assert(v[a].0 != v[b].0);
                    }
                    assert forall|key: u16| #[trigger] self.sent_map@.contains_key(key) implies exists|
                        a: int,
                    | 0 <= a < v2.len() && v2[a].0 == key by {
                        if key != k {
                            let a0 = choose|a0: int| 0 <= a0 < v.len() && v[a0].0 == key;
                            assert(v2[a0].0 == key);
                        } else {
                            assert(v2[i as int].0 == key);
                        }
                    }
                    assert forall|a: int| 0 <= a < v2.len() implies self.sent_map@.contains_key(
                        #[trigger] v2[a].0,
                    ) && self.sent_map@[v2[a].0] == v2[a].1 by {
                        if a != i {
                            assert(v[a].0 != v[i as int].0 || a == i);
                        }
                    }
                }
            },
            None => {
                self.sent_packets.push((k, p));
                self.sent_map = Ghost(m.insert(k, pv));
                proof {
                    let v2 = self.sent_packets@;
                    assert forall|a: int, b: int| 0 <= a < b < v2.len() implies #[trigger] v2[a].0
                        != #[trigger] v2[b].0 by {
                        if b < v.len() {
                            assert(v[a].0 != v[b].0);
                        } else {
                            assert(m.contains_key(v[a].0));
                        }
                    }
                    assert forall|key: u16| #[trigger] self.sent_map@.contains_key(key) implies exists|
                        a: int,
                    | 0 <= a < v2.len() && v2[a].0 == key by {
                        if key != k {
                            let a0 = choose|a0: int| 0 <= a0 < v.len() && v[a0].0 == key;
                            assert(v2[a0].0 == key);
                        } else {
                            assert(v2[v.len() as int].0 == key);
                        }
                    }
                    assert forall|a: int| 0 <= a < v2.len() implies self.sent_map@.contains_key(
                        #[trigger] v2[a].0,
                    ) && self.sent_map@[v2[a].0] == v2[a].1 by {
                        if a < v.len() {
                            assert(m.contains_key(v[a].0));
                        }
                    }
                }
            },
        }
    }

    /// Takes in the acknowledgement information of a received packet: the
    /// newest acknowledged number only moves forward, the received number is
    /// recorded, and every packet that the acknowledgement covers is
    /// forgotten.
    pub fn process_incoming(&mut self, remote_seq_num: u16, remote_ack_seq: u16, remote_ack_field: u32)
        requires
            old(self).wf(),
        ensures
            final(self).wf(),
            final(self).local_seq() == old(self).local_seq(),
            final(self).remote_ack() == (if seq_gt(remote_ack_seq, old(self).remote_ack()) {
                remote_ack_seq
            } else {
                old(self).remote_ack()
            }),
            (final(self).received().seq_num(), final(self).received().slots()) == spec_insert(
                old(self).received().seq_num(),
                old(self).received().slots(),
                remote_seq_num,
                (),
            ),
            final(self).sent() == old(self).sent().remove_keys(
                Set::new(|k: u16| acked(remote_ack_seq, remote_ack_field, k)),
            ),
    {
        if sequence_greater_than(remote_ack_seq, self.remote_ack_sequence_num) {
            self.remote_ack_sequence_num = remote_ack_seq;
        }
        let _ = self.received_packets.insert(remote_seq_num, ());
        let ghost m0 = self.sent_map@;
        let _ = self.remove_sent(remote_ack_seq);
        let mut field: u32 = remote_ack_field;
        assert(remote_ack_field >> 0u32 == remote_ack_field) by (bit_vector);
        let mut i: u16 = 1;
        while i <= REDUNDANT_PACKET_ACKS_SIZE
            invariant
                self.wf(),
                1 <= i <= REDUNDANT_PACKET_ACKS_SIZE + 1,
                field == remote_ack_field >> ((i - 1) as u32),
                self.local_seq() == old(self).local_seq(),
                self.remote_ack() == (if seq_gt(remote_ack_seq, old(self).remote_ack()) {
                    remote_ack_seq
                } else {
                    old(self).remote_ack()
                }),
                (self.received().seq_num(), self.received().slots()) == spec_insert(
                    old(self).received().seq_num(),
                    old(self).received().slots(),
                    remote_seq_num,
                    (),
                ),
                self.sent() == m0.remove_keys(
                    Set::new(
                        |k: u16|
                            k == remote_ack_seq || exists|j: u16|
                                1 <= j < i && k == remote_ack_seq.wrapping_sub(j) && bit(
                                    remote_ack_field,
                                    (j - 1) as u32,
                                ),
                    ),
                ),
            decreases REDUNDANT_PACKET_ACKS_SIZE + 1 - i,
        {
            let ack_sequence = remote_ack_seq.wrapping_sub(i);
            let ghost before = self.sent_map@;
            let set_bit = field & 1 == 1;
            if set_bit {
                let _ = self.remove_sent(ack_sequence);
            }
            proof {
                let n: u32 = (i - 1) as u32;
                assert(field == remote_ack_field >> n);
                assert((remote_ack_field >> n) >> 1u32 == remote_ack_field >> ((n + 1) as u32))
                    by (bit_vector)
                    requires
                        n < 32,
                ;
                assert(set_bit == bit(remote_ack_field, n));
                let old_set = Set::new(
                    |k: u16|
                        k == remote_ack_seq || exists|j: u16|
                            1 <= j < i && k == remote_ack_seq.wrapping_sub(j) && bit(
                                remote_ack_field,
                                (j - 1) as u32,
                            ),
                );
                let new_set = Set::new(
                    |k: u16|
                        k == remote_ack_seq || exists|j: u16|
                            1 <= j < i + 1 && k == remote_ack_seq.wrapping_sub(j) && bit(
                                remote_ack_field,
                                (j - 1) as u32,
                            ),
                );
                if set_bit {
                    assert forall|k: u16| new_set.contains(k) implies old_set.insert(
                        ack_sequence,
                    ).contains(k) by {
                        if k != remote_ack_seq {
                            let j = choose|j: u16|
                                1 <= j < i + 1 && k == remote_ack_seq.wrapping_sub(j) && bit(
                                    remote_ack_field,
                                    (j - 1) as u32,
                                );
                            if j != i {
                                assert(old_set.contains(k));
                            }
                        }
                    }
                    assert forall|k: u16| old_set.insert(ack_sequence).contains(k) implies new_set.contains(
                        k,
                    ) by {
                        if k == ack_sequence {
                            assert(1 <= i < i + 1 && k == remote_ack_seq.wrapping_sub(i) && bit(
                                remote_ack_field,
                                (i - 1) as u32,
                            ));
                        } else if k != remote_ack_seq {
                            let j = choose|j: u16|
                                1 <= j < i && k == remote_ack_seq.wrapping_sub(j) && bit(
                                    remote_ack_field,
                                    (j - 1) as u32,
                                );
                            assert(1 <= j < i + 1);
                        }
                    }
                    assert(new_set =~= old_set.insert(ack_sequence));
                } else {
                    assert forall|k: u16| new_set.contains(k) implies old_set.contains(k) by {
                        if k != remote_ack_seq {
                            let j = choose|j: u16|
                                1 <= j < i + 1 && k == remote_ack_seq.wrapping_sub(j) && bit(
                                    remote_ack_field,
                                    (j - 1) as u32,
                                );
                            assert(j != i);
                        }
                    }
                    assert(new_set =~= old_set);
                }
                assert(self.sent_map@ =~= m0.remove_keys(new_set));
            }
            field = field >> 1u32;
            i = i + 1;
        }
        proof {
            let last = Set::new(
                |k: u16|
                    k == remote_ack_seq || exists|j: u16|
                        1 <= j < REDUNDANT_PACKET_ACKS_SIZE + 1 && k == remote_ack_seq.wrapping_sub(
                            j,
                        ) && bit(remote_ack_field, (j - 1) as u32),
            );
            assert(last =~= Set::new(|k: u16| acked(remote_ack_seq, remote_ack_field, k)));
        }
    }

    /// Records a sent packet under the current number and moves to the next
    /// number.
    pub fn process_outgoing(
        &mut self,
        packet_type: PacketType,
        payload: &[u8],
        ordering_guarantee: OrderingGuarantee,
        item_identifier: Option<u16>,
    )
        requires
            old(self).wf(),
        ensures
            final(self).wf(),
            final(self).local_seq() == old(self).local_seq().wrapping_add(1),
            final(self).remote_ack() == old(self).remote_ack(),
            final(self).received() == old(self).received(),
            final(self).sent().dom() == old(self).sent().dom().insert(old(self).local_seq()),
            final(self).sent()[old(self).local_seq()].packet_type == packet_type,
            final(self).sent()[old(self).local_seq()].payload@ == payload@,
            final(self).sent()[old(self).local_seq()].ordering_guarantee == ordering_guarantee,
            final(self).sent()[old(self).local_seq()].item_identifier == item_identifier,
            forall|k: u16|
                k != old(self).local_seq() && old(self).sent().contains_key(k)
                    ==> #[trigger] final(self).sent()[k] == old(self).sent()[k],
    {
        let packet = SentPacket {
            packet_type,
            payload: slice_to_vec(payload),
            ordering_guarantee,
            item_identifier,
        };
        self.insert_sent(self.sequence_number, packet);
        self.sequence_number = self.sequence_number.wrapping_add(1);
    }

    /// Takes the lost packets out of the table: those older than the newest
    /// acknowledged one by more than an acknowledgement covers, in
    /// increasing order of sequence number.
    pub fn dropped_packets(&mut self) -> (r: Vec<SentPacket>)
        requires
            old(self).wf(),
        ensures
            final(self).wf(),
            final(self).local_seq() == old(self).local_seq(),
            final(self).remote_ack() == old(self).remote_ack(),
            final(self).received() == old(self).received(),
            final(self).sent() == old(self).sent().remove_keys(
                Set::new(|k: u16| is_dropped(old(self).remote_ack(), k)),
            ),
            exists|ks: Seq<u16>|
                {
                    &&& #[trigger] dropped_in_order(ks, old(self).sent(), old(self).remote_ack())
                    &&& r@.len() == ks.len()
                    &&& forall|i: int| 0 <= i < ks.len() ==> r@[i] == old(self).sent()[ks[i]]
                },
    {
        let remote_ack_sequence = self.remote_ack_sequence_num;
        let ghost m0 = self.sent_map@;
        let ghost mut ks: Seq<u16> = Seq::empty();
        let mut result: Vec<SentPacket> = Vec::new();
        loop
            invariant
                self.wf(),
                remote_ack_sequence == old(self).remote_ack(),
                m0 == old(self).sent(),
                self.local_seq() == old(self).local_seq(),
                self.remote_ack() == old(self).remote_ack(),
                self.received() == old(self).received(),
                self.sent() == m0.remove_keys(ks.to_set()),
                forall|a: int, b: int| 0 <= a < b < ks.len() ==> ks[a] < ks[b],
                forall|a: int|
                    0 <= a < ks.len() ==> m0.contains_key(#[trigger] ks[a]) && is_dropped(
                        remote_ack_sequence,
                        ks[a],
                    ),
                forall|k: u16|
                    #[trigger] self.sent().contains_key(k) && is_dropped(remote_ack_sequence, k)
                        ==> forall|a: int| 0 <= a < ks.len() ==> ks[a] < k,
                result@.len() == ks.len(),
                forall|a: int| 0 <= a < ks.len() ==> result@[a] == m0[ks[a]],
            ensures
                forall|k: u16|
                    #[trigger] self.sent().contains_key(k) ==> !is_dropped(remote_ack_sequence, k),
            decreases self.sent_packets@.len(),
        {
            let mut best: Option<usize> = None;
            let mut i: usize = 0;
            while i < self.sent_packets.len()
                invariant
                    self.wf(),
                    i <= self.sent_packets@.len(),
                    match best {
                        None => forall|j: int|
                            0 <= j < i ==> !is_dropped(
                                remote_ack_sequence,
                                #[trigger] self.sent_packets@[j].0,
                            ),
                        Some(b) => b < i && is_dropped(
                            remote_ack_sequence,
                            self.sent_packets@[b as int].0,
                        ) && forall|j: int|
                            0 <= j < i && is_dropped(
                                remote_ack_sequence,
                                #[trigger] self.sent_packets@[j].0,
                            ) ==> self.sent_packets@[b as int].0 <= self.sent_packets@[j].0,
                    },
                decreases self.sent_packets@.len() - i,
            {
                let s = self.sent_packets[i].0;
                if sequence_less_than(s, remote_ack_sequence) && remote_ack_sequence.wrapping_sub(s)
                    > REDUNDANT_PACKET_ACKS_SIZE {
                    match best {
                        None => {
                            best = Some(i);
                        },
                        Some(b) => {
                            if s < self.sent_packets[b].0 {
                                best = Some(i);
                            }
                        },
                    }
                }
                i = i + 1;
            }
            match best {
                None => {
                    proof {
                        assert forall|k: u16|
                            #[trigger] self.sent().contains_key(k) implies !is_dropped(
                            remote_ack_sequence,
                            k,
                        ) by {
                            let j = choose|j: int|
                                0 <= j < self.sent_packets@.len() && self.sent_packets@[j].0 == k;
                        }
                    }
                    break ;
                },
                Some(b) => {
                    let k = self.sent_packets[b].0;
                    let ghost before = self.sent_map@;
                    proof {
                        assert forall|key: u16|
                            #[trigger] before.contains_key(key) && is_dropped(
                                remote_ack_sequence,
                                key,
                            ) implies k <= key by {
                            let j = choose|j: int|
                                0 <= j < self.sent_packets@.len() && self.sent_packets@[j].0 == key;
                        }
                    }
                    let p = self.remove_sent(k);
                    match p {
                        Some(p) => {
                            result.push(p);
                        },
                        None => {
                            assert(false);
                        },
                    }
                    proof {
                        let ks0 = ks;
                        ks = ks.push(k);
                        assert(self.sent_map@ =~= m0.remove_keys(ks.to_set())) by {
                            ks0.lemma_push_to_set_commute(k);
                        }
                        assert forall|a: int| 0 <= a < ks.len() implies result@[a] == m0[ks[a]] by {
                            if a == ks.len() - 1 {
                                assert(before[k] == m0[k]);
                            }
                        }
                        assert forall|key: u16|
                            #[trigger] self.sent().contains_key(key) && is_dropped(
                                remote_ack_sequence,
                                key,
                            ) implies forall|a: int| 0 <= a < ks.len() ==> ks[a] < key by {
                            assert(before.contains_key(key));
                            assert(key != k);
                        }
                    }
                },
            }
        }
        proof {
            assert(self.sent_map@ =~= m0.remove_keys(
                Set::new(|k: u16| is_dropped(old(self).remote_ack(), k)),
            )) by {
                assert forall|k: u16| m0.contains_key(k) && is_dropped(remote_ack_sequence, k) implies ks.to_set().contains(k) by {
                    if !ks.to_set().contains(k) {
                        assert(self.sent().contains_key(k));
                    }
                }
            }
            assert(dropped_in_order(ks, old(self).sent(), old(self).remote_ack())) by {
                assert forall|k: u16| m0.contains_key(k) && is_dropped(remote_ack_sequence, k) implies ks.contains(k) by {
                    if !ks.to_set().contains(k) {
                        assert(self.sent().contains_key(k));
                    }
                }
            }
        }
        result
    }
}

} // verus!
