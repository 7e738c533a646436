//! Splitting of large reliable packets into fragments, and their
//! reassembly on arrival.
use crate::config::Config;
use crate::error::{ErrorKind, FragmentErrorKind};
use crate::headers::{append_bytes, AckedPacketHeader, FragmentHeader};
use crate::sequence_buffer::{
    seq_gt, slot_of, spec_exists, spec_insert, spec_remove_entries, too_old, SequenceBuffer,
};
use vstd::prelude::*;

verus! {

/// How many of the flags are set.
pub open spec fn count_true(s: Seq<bool>) -> nat
    decreases s.len(),
{
    if s.len() == 0 {
        0
    } else {
        count_true(s.drop_last()) + if s.last() {
            1nat
        } else {
            0nat
        }
    }
}

proof fn lemma_count_le(s: Seq<bool>)
    ensures
        count_true(s) <= s.len(),
    decreases s.len(),
{
    if s.len() > 0 {
        lemma_count_le(s.drop_last());
    }
}

proof fn lemma_count_set(s: Seq<bool>, i: int)
    requires
        0 <= i < s.len(),
        !s[i],
    ensures
        count_true(s.update(i, true)) == count_true(s) + 1,
    decreases s.len(),
{
    let t = s.update(i, true);
    if i == s.len() - 1 {
        assert(t.drop_last() =~= s.drop_last());
    } else {
        lemma_count_set(s.drop_last(), i);
        assert(t.drop_last() =~= s.drop_last().update(i, true));
    }
}

proof fn lemma_count_false(n: nat)
    ensures
        count_true(Seq::new(n, |i: int| false)) == 0,
    decreases n,
{
    if n > 0 {
        lemma_count_false((n - 1) as nat);
        assert(Seq::new(n, |i: int| false).drop_last() =~= Seq::new((n - 1) as nat, |i: int| false));
    }
}

/// A packet being reassembled.
#[derive(Debug)]
pub struct ReassemblyData {
    pub sequence: u16,
    pub num_fragments_received: u8,
    pub num_fragments_total: u8,
    pub buffer: Vec<u8>,
    pub fragments_received: Vec<bool>,
    pub acked_header: Option<AckedPacketHeader>,
}

/// The content of a packet being reassembled.
pub struct ReassemblyModel {
    pub sequence: u16,
    pub received: u8,
    pub total: u8,
    /// The fragment payloads in the order in which they arrived.
    pub buffer: Seq<u8>,
    /// Which fragment ids arrived.
    pub flags: Seq<bool>,
    /// The acknowledgement header that came with the first fragment.
    pub acked: Option<AckedPacketHeader>,
}

impl ReassemblyData {
    pub open spec fn model(&self) -> ReassemblyModel {
        ReassemblyModel {
            sequence: self.sequence,
            received: self.num_fragments_received,
            total: self.num_fragments_total,
            buffer: self.buffer@,
            flags: self.fragments_received@,
            acked: self.acked_header,
        }
    }

    /// Nothing received yet of a packet of `total` fragments.
    pub fn new(sequence: u16, total: u8) -> (r: Self)
        ensures
            r.model() == new_reassembly(sequence, total),
    {
        let mut flags: Vec<bool> = Vec::new();
        let mut i: u8 = 0;
        while i < total
            invariant
                i <= total,
                flags@ == Seq::new(i as nat, |j: int| false),
            decreases total - i,
        {
            flags.push(false);
            i = i + 1;
            assert(flags@ =~= Seq::new(i as nat, |j: int| false));
        }
        ReassemblyData {
            sequence,
            num_fragments_received: 0,
            num_fragments_total: total,
            buffer: Vec::new(),
            fragments_received: flags,
            acked_header: None,
        }
    }
}

pub open spec fn new_reassembly(sequence: u16, total: u8) -> ReassemblyModel {
    ReassemblyModel {
        sequence,
        received: 0,
        total,
        buffer: Seq::empty(),
        flags: Seq::new(total as nat, |i: int| false),
        acked: None,
    }
}

/// Whether the counters of a packet being reassembled agree with its flags.
pub open spec fn reassembly_ok(m: ReassemblyModel) -> bool {
    &&& m.flags.len() == m.total
    &&& m.received == count_true(m.flags)
}

/// The contents of the reassembly ring.
pub open spec fn slots_model(slots: Seq<Option<(u16, ReassemblyData)>>) -> Seq<Option<(u16, ReassemblyModel)>> {
    Seq::new(
        slots.len(),
        |i: int|
            match slots[i] {
                Some((k, d)) => Some((k, d.model())),
                None => None,
            },
    )
}

/// The result of handling a fragment: the ring's next number, its slots, and
/// the reassembled payload with its acknowledgement header once the last
/// fragment arrived.
pub open spec fn spec_handle_fragment(
    seq_num: u16,
    slots: Seq<Option<(u16, ReassemblyModel)>>,
    h: FragmentHeader,
    payload: Seq<u8>,
    acked: Option<AckedPacketHeader>,
) -> (u16, Seq<Option<(u16, ReassemblyModel)>>, Result<Option<(Seq<u8>, AckedPacketHeader)>, ErrorKind>) {
    let (n1, s1) = if spec_exists(slots, h.sequence) {
        (seq_num, slots)
    } else {
        spec_insert(seq_num, slots, h.sequence, new_reassembly(h.sequence, h.num_fragments))
    };
    if !spec_exists(s1, h.sequence) {
        (n1, s1, Err(ErrorKind::FragmentError(FragmentErrorKind::CouldNotFindFragmentById)))
    } else {
        let i = slot_of(h.sequence, s1.len() as int);
        let rd = s1[i].unwrap().1;
        if rd.total != h.num_fragments {
            (
                n1,
                s1,
                Err(ErrorKind::FragmentError(FragmentErrorKind::FragmentWithUnevenNumberOfFragemts)),
            )
        } else if h.id >= rd.flags.len() {
            (n1, s1, Err(ErrorKind::FragmentError(FragmentErrorKind::ExceededMaxFragments)))
        } else if rd.flags[h.id as int] {
            (n1, s1, Err(ErrorKind::FragmentError(FragmentErrorKind::AlreadyProcessedFragment)))
        } else {
            let rd2 = ReassemblyModel {
                received: (rd.received + 1) as u8,
                flags: rd.flags.update(h.id as int, true),
                buffer: rd.buffer + payload,
                ..rd
            };
            if acked is Some && rd.acked is Some {
                (
                    n1,
                    s1.update(i, Some((h.sequence, rd2))),
                    Err(ErrorKind::FragmentError(FragmentErrorKind::MultipleAckHeaders)),
                )
            } else {
                let rd3 = if acked is Some {
                    ReassemblyModel { acked: acked, ..rd2 }
                } else {
                    rd2
                };
                if rd3.received == rd3.total {
                    let s2 = s1.update(i, None);
                    match rd3.acked {
                        None => (
                            n1,
                            s2,
                            Err(ErrorKind::FragmentError(FragmentErrorKind::MissingAckHeader)),
                        ),
                        Some(a) => (n1, s2, Ok(Some((rd3.buffer, a)))),
                    }
                } else {
                    (n1, s1.update(i, Some((h.sequence, rd3))), Ok(None))
                }
            }
        }
    }
}

/// The number of fragments of a payload of `payload_length` bytes.
pub open spec fn spec_fragments_needed(payload_length: u16, fragment_size: u16) -> int {
    payload_length / fragment_size + if payload_length % fragment_size > 0 {
        1int
    } else {
        0int
    }
}

/// Where fragment `i` of a payload of `payload_length` bytes starts and ends.
pub open spec fn fragment_range(i: int, fragment_size: u16, payload_length: u16) -> (int, int) {
    let start = i * fragment_size;
    let end = (i + 1) * fragment_size;
    (start, if end > payload_length {
        payload_length as int
    } else {
        end
    })
}

/// The reassembly of incoming fragments.
pub struct Fragmentation {
    fragments: SequenceBuffer<ReassemblyData>,
    fragment_size: u16,
    max_fragments: u8,
}

proof fn lemma_model_insert(seq_num: u16, slots: Seq<Option<(u16, ReassemblyData)>>, s: u16, d: ReassemblyData)
    requires
        slots.len() > 0,
    ensures
        ({
            let (n, out) = spec_insert(seq_num, slots, s, d);
            let (n2, out2) = spec_insert(seq_num, slots_model(slots), s, d.model());
            n == n2 && slots_model(out) == out2
        }),
{
    let (n, out) = spec_insert(seq_num, slots, s, d);
    let (n2, out2) = spec_insert(seq_num, slots_model(slots), s, d.model());
    let ms = slots_model(slots);
    assert(slots_model(spec_remove_entries(slots, seq_num, s)) =~= spec_remove_entries(ms, seq_num, s));
    assert(slots_model(out) =~= out2);
}

impl Fragmentation {
    pub closed spec fn seq_num(&self) -> u16 {
        self.fragments.seq_num()
    }

    pub closed spec fn slots(&self) -> Seq<Option<(u16, ReassemblyModel)>> {
        slots_model(self.fragments.slots())
    }

    pub closed spec fn wf(&self) -> bool {
        &&& self.fragments.wf()
        &&& forall|i: int|
            0 <= i < self.fragments.slots().len() && #[trigger] self.fragments.slots()[i] is Some
                ==> reassembly_ok(self.fragments.slots()[i].unwrap().1.model())
    }

    /// A well formed reassembly ring has a slot.
    pub proof fn lemma_has_slot(&self)
        requires
            self.wf(),
        ensures
            self.slots().len() > 0,
    {
    }

    /// An empty reassembly ring with the configured number of slots.
    pub fn new(config: &Config) -> (r: Self)
        requires
            config.wf(),
        ensures
            r.wf(),
            r.seq_num() == 0,
            r.slots() == Seq::new(
                config.fragment_reassembly_buffer_size as nat,
                |i: int| None::<(u16, ReassemblyModel)>,
            ),
    {
        let r = Fragmentation {
            fragments: SequenceBuffer::with_capacity(config.fragment_reassembly_buffer_size),
            fragment_size: config.fragment_size,
            max_fragments: config.max_fragments,
        };
        assert(r.slots() =~= Seq::new(
            config.fragment_reassembly_buffer_size as nat,
            |i: int| None::<(u16, ReassemblyModel)>,
        ));
        r
    }

    /// The number of fragments of a payload of `payload_length` bytes.
    pub fn fragments_needed(payload_length: u16, fragment_size: u16) -> (r: u16)
        requires
            fragment_size > 0,
        ensures
            r == spec_fragments_needed(payload_length, fragment_size),
    {
        let remainder: u16 = if payload_length % fragment_size > 0 {
            1
        } else {
            0
        };
        assert(payload_length / fragment_size + remainder <= 65535) by (nonlinear_arith)
            requires
                fragment_size > 0,
                remainder <= 1,
                remainder == 1 ==> payload_length % fragment_size > 0,
        {
            if fragment_size == 1 {
                assert(payload_length % fragment_size == 0);
            }
        }
        (payload_length / fragment_size) + remainder
    }

    /// Splits a payload into fragments of the configured size; refused where
    /// it takes more fragments than allowed. The length of the payload and
    /// the number of fragments are taken modulo 2^16 and 2^8.
    pub fn spit_into_fragments<'a>(payload: &'a [u8], config: &Config) -> (r: Result<
        Vec<&'a [u8]>,
        ErrorKind,
    >)
        requires
            config.wf(),
        ensures
            ({
                let plen = payload@.len() as u16;
                let num = spec_fragments_needed(plen, config.fragment_size) as u8;
                if num > config.max_fragments {
                    r == Err::<Vec<&'a [u8]>, _>(
                        ErrorKind::FragmentError(FragmentErrorKind::ExceededMaxFragments),
                    )
                } else {
                    r is Ok && r.unwrap()@.len() == num && forall|i: int|
                        0 <= i < num ==> #[trigger] r.unwrap()@[i]@ == payload@.subrange(
                            fragment_range(i, config.fragment_size, plen).0,
                            fragment_range(i, config.fragment_size, plen).1,
                        )
                }
            }),
    {
        let mut fragments: Vec<&'a [u8]> = Vec::new();
        let plen_full = payload.len();
        let payload_length = plen_full as u16;
        assert(payload_length <= plen_full) by (bit_vector)
            requires
                payload_length == plen_full as u16,
        ;
        let needed = Self::fragments_needed(payload_length, config.fragment_size);
        let num_fragments = needed as u8;
        assert(num_fragments <= needed) by (bit_vector)
            requires
                num_fragments == needed as u8,
        ;
        if num_fragments > config.max_fragments {
            return Err(ErrorKind::FragmentError(FragmentErrorKind::ExceededMaxFragments));
        }
        let size = config.fragment_size;
        let max = config.max_fragments;
        let mut fragment_id: u8 = 0;
        while fragment_id < num_fragments
            invariant
                fragment_id <= num_fragments <= max,
                size > 0,
                payload_length == payload@.len() as u16,
                payload_length <= payload@.len(),
                num_fragments <= needed,
                needed == spec_fragments_needed(payload_length, size),
                fragments@.len() == fragment_id,
                forall|i: int|
                    0 <= i < fragment_id ==> #[trigger] fragments@[i]@ == payload@.subrange(
                        fragment_range(i, size, payload_length).0,
                        fragment_range(i, size, payload_length).1,
                    ),
            decreases num_fragments - fragment_id,
        {
            let ghost fid = fragment_id as int;
            assert(fid * size < payload_length && (fid + 1) * size <= 256 * 65536 && fid * size <= (fid
                + 1) * size) by (nonlinear_arith)
                requires
                    fid < needed,
                    fid < 256,
                    needed == payload_length / size + (if payload_length % size > 0 { 1int } else { 0int }),
                    size > 0,
            ;
            let start_fragment_pos = (fragment_id as u32) * (size as u32);
            let mut end_fragment_pos = (fragment_id as u32 + 1) * (size as u32);
            if end_fragment_pos > payload_length as u32 {
                end_fragment_pos = payload_length as u32;
            }
            let fragment_data = &payload[start_fragment_pos as usize..end_fragment_pos as usize];
            fragments.push(fragment_data);
            fragment_id = fragment_id + 1;
        }
        Ok(fragments)
    }

    /// Takes in one fragment: creates the reassembly entry of its packet
    /// where there is none, checks the fragment against it, appends its
    /// payload and, once all fragments arrived, takes the entry out and gives
    /// the payload with the acknowledgement header of the first fragment.
    pub fn handle_fragment(
        &mut self,
        fragment_header: FragmentHeader,
        fragment_payload: &[u8],
        acked_header: Option<AckedPacketHeader>,
    ) -> (r: Result<Option<(Vec<u8>, AckedPacketHeader)>, ErrorKind>)
        requires
            old(self).wf(),
        ensures
            final(self).wf(),
            ({
                let (n, slots, res) = spec_handle_fragment(
                    old(self).seq_num(),
                    old(self).slots(),
                    fragment_header,
                    fragment_payload@,
                    acked_header,
                );
                &&& final(self).seq_num() == n
                &&& final(self).slots() == slots
                &&& match r {
                    Ok(Some((buf, a))) => res == Ok::<_, ErrorKind>(Some((buf@, a))),
                    Ok(None) => res == Ok::<Option<(Seq<u8>, AckedPacketHeader)>, ErrorKind>(None),
                    Err(e) => res == Err::<Option<(Seq<u8>, AckedPacketHeader)>, _>(e),
                }
            }),
    {
        let seq = fragment_header.sequence;
        let ghost slots0 = self.fragments.slots();
        let ghost n0 = self.fragments.seq_num();
        if !self.fragments.contains(seq) {
            let rd = ReassemblyData::new(seq, fragment_header.num_fragments);
            proof {
                lemma_model_insert(n0, slots0, seq, rd);
                lemma_count_false(fragment_header.num_fragments as nat);
            }
            let _ = self.fragments.insert(seq, rd);
            proof {
                let sl = self.fragments.slots();
                assert forall|i: int|
                    0 <= i < sl.len() && #[trigger] sl[i] is Some implies reassembly_ok(
                    sl[i].unwrap().1.model(),
                ) by {
                    let (nn, out) = spec_insert(n0, slots0, seq, rd);
                    let span: int = if seq < n0 {
                        seq + 65536 - n0
                    } else {
                        seq - n0
                    };
                    if !too_old(n0, slots0.len(), seq) && i != slot_of(seq, slots0.len() as int) {
                        if seq_gt(seq.wrapping_add(1), n0) {
                            assert(spec_remove_entries(slots0, n0, seq)[i] is Some);
                            if span < slots0.len() {
                                assert(slots0[i] is Some);
                            }
                        }
                    }
                }
            }
        }
        let ghost n1 = self.fragments.seq_num();
        let ghost s1 = self.fragments.slots();
        let ghost ms1 = slots_model(s1);
        let ghost i = slot_of(seq, s1.len() as int);
        assert(spec_exists(ms1, seq) == spec_exists(s1, seq));
        let mut rd = match self.fragments.remove(seq) {
            Some(rd) => rd,
            None => {
                assert(slots_model(self.fragments.slots()) =~= ms1);
                return Err(ErrorKind::FragmentError(FragmentErrorKind::CouldNotFindFragmentById));
            },
        };
        assert(rd.model() == ms1[i].unwrap().1);
        assert(reassembly_ok(rd.model()));
        if rd.num_fragments_total != fragment_header.num_fragments {
            self.fragments.put(seq, rd);
            assert(slots_model(self.fragments.slots()) =~= ms1);
            return Err(
                ErrorKind::FragmentError(FragmentErrorKind::FragmentWithUnevenNumberOfFragemts),
            );
        }
        let id = fragment_header.id as usize;
        if id >= rd.fragments_received.len() {
            self.fragments.put(seq, rd);
            assert(slots_model(self.fragments.slots()) =~= ms1);
            return Err(ErrorKind::FragmentError(FragmentErrorKind::ExceededMaxFragments));
        }
        if rd.fragments_received[id] {
            self.fragments.put(seq, rd);
            assert(slots_model(self.fragments.slots()) =~= ms1);
            return Err(ErrorKind::FragmentError(FragmentErrorKind::AlreadyProcessedFragment));
        }
        proof {
            lemma_count_set(rd.fragments_received@, id as int);
            lemma_count_le(rd.fragments_received@.update(id as int, true));
        }
        rd.num_fragments_received = rd.num_fragments_received + 1;
        rd.fragments_received.set(id, true);
        append_bytes(&mut rd.buffer, fragment_payload);
        match acked_header {
            Some(a) => {
                if rd.acked_header.is_none() {
                    rd.acked_header = Some(a);
                } else {
                    self.fragments.put(seq, rd);
                    assert(slots_model(self.fragments.slots()) =~= ms1.update(
                        i,
                        Some((seq, rd.model())),
                    ));
                    return Err(ErrorKind::FragmentError(FragmentErrorKind::MultipleAckHeaders));
                }
            },
            None => {},
        }
        if rd.num_fragments_received == rd.num_fragments_total {
            assert(slots_model(self.fragments.slots()) =~= ms1.update(i, None));
            match rd.acked_header {
                None => Err(ErrorKind::FragmentError(FragmentErrorKind::MissingAckHeader)),
                Some(a) => Ok(Some((rd.buffer, a))),
            }
        } else {
            self.fragments.put(seq, rd);
            assert(slots_model(self.fragments.slots()) =~= ms1.update(i, Some((seq, rd.model()))));
            Ok(None)
        }
    }
}

} // verus!
