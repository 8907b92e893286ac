//! The playback side: samples received from the other side of the call wait
//! in queues until the speaker asks for them.
use vstd::prelude::*;
use queues::Queue;
use crate::bytes::{ne_value, i16_bits, lemma_i16_bits, lemma_ne_roundtrip, lemma_pow256_small, lemma_pow256_16, i16_from_bits, u16_from_ne_bytes, i16_from_ne_bytes, u32_from_ne_bytes};
use crate::sample::{SampleKind, F32Bits, QueuedSample, type_size, spec_type_size};
use crate::packet::{HEADER_SIZE, decode_packet_header, concat_sample_bytes, lemma_concat_sample_bytes_len, lemma_concat_sample_bytes_at};
use crate::capture::input_packet;
use crate::sample::ConvertBytes;
use crate::queue::{
    f32_items, i16_items, u16_items, f32_queue_new, i16_queue_new, u16_queue_new, f32_queue_add,
    i16_queue_add, u16_queue_add, f32_queue_remove, i16_queue_remove, u16_queue_remove,
    f32_queue_size, i16_queue_size, u16_queue_size,
};

verus! {

/// The samples waiting to be played, one queue per sample format.
pub struct PlaybackQueues {
    pub que_f: Queue<u32>,
    pub que_i: Queue<i16>,
    pub que_u: Queue<u16>,
}

/// The contents of the three playback queues, oldest first.
#[verifier::ext_equal]
pub struct QueuesView {
    pub f: Seq<u32>,
    pub i: Seq<i16>,
    pub u: Seq<u16>,
}

impl View for PlaybackQueues {
    type V = QueuesView;

    open spec fn view(&self) -> QueuesView {
        QueuesView { f: f32_items(self.que_f), i: i16_items(self.que_i), u: u16_items(self.que_u) }
    }
}

/// Number of samples that `add_samples_to_queue` reads from a packet of
/// `len` bytes with samples of `size` bytes.
pub open spec fn received_count(len: nat, size: nat) -> nat {
    if len <= HEADER_SIZE {
        0
    } else {
        ((len - HEADER_SIZE) + size - 1) as nat / size
    }
}

/// The bytes from which the `k`-th received sample is read: the `size` bytes
/// that end at offset `HEADER_SIZE + k * size`.
pub open spec fn received_window(bytes: Seq<u8>, size: nat, k: int) -> Seq<u8> {
    bytes.subrange(HEADER_SIZE + (k - 1) * size, HEADER_SIZE + k * size)
}

/// The float samples (as bit patterns) that a packet yields.
pub open spec fn received_f32(bytes: Seq<u8>) -> Seq<u32> {
    Seq::new(received_count(bytes.len(), 4), |k: int| ne_value(received_window(bytes, 4, k)) as u32)
}

/// The `i16` samples that a packet yields.
pub open spec fn received_i16(bytes: Seq<u8>) -> Seq<i16> {
    Seq::new(
        received_count(bytes.len(), 2),
        |k: int| i16_from_bits(ne_value(received_window(bytes, 2, k))) as i16,
    )
}

/// The `u16` samples that a packet yields.
pub open spec fn received_u16(bytes: Seq<u8>) -> Seq<u16> {
    Seq::new(received_count(bytes.len(), 2), |k: int| ne_value(received_window(bytes, 2, k)) as u16)
}

/// The queues after the samples of a packet of the given format are added.
pub open spec fn queues_after_packet(q: QueuesView, bytes: Seq<u8>, kind: SampleKind) -> QueuesView {
    match kind {
        SampleKind::F32 => QueuesView { f: q.f + received_f32(bytes), ..q },
        SampleKind::I16 => QueuesView { i: q.i + received_i16(bytes), ..q },
        SampleKind::U16 => QueuesView { u: q.u + received_u16(bytes), ..q },
    }
}

/// Every waiting sample in the order the speaker takes them: the float
/// queue first, then the `i16` queue, then the `u16` queue.
pub open spec fn playback_order(q: QueuesView) -> Seq<QueuedSample> {
    q.f.map_values(|b: u32| QueuedSample::F32(F32Bits(b))) + q.i.map_values(
        |v: i16| QueuedSample::I16(v),
    ) + q.u.map_values(|v: u16| QueuedSample::U16(v))
}

/// The queues after the first `n` samples in playback order have been taken.
pub open spec fn queues_after_taking(q: QueuesView, n: nat) -> QueuesView {
    let nf = if n < q.f.len() {
        n
    } else {
        q.f.len()
    };
    let ni = if n - nf < q.i.len() {
        (n - nf) as nat
    } else {
        q.i.len()
    };
    let nu = if n - nf - ni < q.u.len() {
        (n - nf - ni) as nat
    } else {
        q.u.len()
    };
    QueuesView { f: q.f.skip(nf as int), i: q.i.skip(ni as int), u: q.u.skip(nu as int) }
}

/// Whether `add_samples_to_queue` can read a packet of `len` bytes with
/// samples of the given format: it holds a whole header, its length fits in
/// a `u32`, and so does the offset just past the last sample read.
pub open spec fn packet_readable(len: nat, kind: SampleKind) -> bool {
    &&& HEADER_SIZE <= len
    &&& len <= u32::MAX
    &&& HEADER_SIZE + received_count(len, spec_type_size(kind)) * spec_type_size(kind) <= u32::MAX
}

/// Whether `add_samples_to_queue` can read a packet of `len` bytes with
/// samples of the given format.
pub fn is_packet_readable(len: usize, kind: SampleKind) -> (r: bool)
    ensures
        r == packet_readable(len as nat, kind),
{
    let size = type_size(kind);
    if len < HEADER_SIZE || len > 0xffff_ffff {
        return false;
    }
    let count: usize = ((len - HEADER_SIZE) + size - 1) / size;
    proof {
        lemma_received_count_le(len as nat, size as nat);
    }
    let reach: u64 = (HEADER_SIZE as u64) + (count as u64) * (size as u64);
    reach <= 0xffff_ffff
}

/// Past the header, the samples read take at most `size - 1` bytes more than the packet has.
proof fn lemma_received_count_le(len: nat, size: nat)
    requires
        size > 0,
        HEADER_SIZE <= len,
    ensures
        received_count(len, size) * size <= len - HEADER_SIZE + size,
{
    let d = (len - HEADER_SIZE) as nat;
    if d == 0 {
        assert(0 * size == 0);
    } else {
        assert(((d + size - 1) as nat / size) * size <= d + size) by (nonlinear_arith)
            requires
                size > 0,
        ;
    }
}

impl PlaybackQueues {
    /// Three empty queues.
    pub fn new() -> (r: Self)
        ensures
            r@.f == Seq::<u32>::empty(),
            r@.i == Seq::<i16>::empty(),
            r@.u == Seq::<u16>::empty(),
    {
        PlaybackQueues { que_f: f32_queue_new(), que_i: i16_queue_new(), que_u: u16_queue_new() }
    }

    /// Whether every queue is empty.
    pub fn all_empty(&self) -> (r: bool)
        ensures
            r == (self@.f.len() == 0 && self@.i.len() == 0 && self@.u.len() == 0),
    {
        f32_queue_size(&self.que_f) == 0 && i16_queue_size(&self.que_i) == 0 && u16_queue_size(
            &self.que_u,
        ) == 0
    }
}

/// Adds the samples of a received packet, of the sender's sample format, to
/// the queue of that format. After the 20-byte header the samples are read
/// at the offsets `20 + k * size` for as long as that offset lies inside the
/// packet, each from the `size` bytes that end there (so the first one takes
/// the last bytes of the header, and the last bytes of the packet are not read).
pub fn add_samples_to_queue(packet_bytes: &Vec<u8>, kind: SampleKind, queues: &mut PlaybackQueues)
    requires
        packet_readable(packet_bytes@.len(), kind),
    ensures
        final(queues)@ == queues_after_packet(old(queues)@, packet_bytes@, kind),
        match kind {
            SampleKind::F32 => {
                &&& final(queues)@.f == old(queues)@.f + received_f32(packet_bytes@)
                &&& final(queues)@.i == old(queues)@.i
                &&& final(queues)@.u == old(queues)@.u
            },
            SampleKind::I16 => {
                &&& final(queues)@.i == old(queues)@.i + received_i16(packet_bytes@)
                &&& final(queues)@.f == old(queues)@.f
                &&& final(queues)@.u == old(queues)@.u
            },
            SampleKind::U16 => {
                &&& final(queues)@.u == old(queues)@.u + received_u16(packet_bytes@)
                &&& final(queues)@.f == old(queues)@.f
                &&& final(queues)@.i == old(queues)@.i
            },
        },
        queue_total(final(queues)@) == queue_total(old(queues)@) + received_count(
            packet_bytes@.len(),
            spec_type_size(kind),
        ),
{
    let (_timest, _seqnum) = decode_packet_header(packet_bytes);
    let other_samp_size: usize = type_size(kind);
    let len = packet_bytes.len();
    let len32: u32 = len as u32;
    let mut i: u32 = HEADER_SIZE as u32;
    let ghost q0 = queues@;
    let ghost size = spec_type_size(kind);
    let ghost b = packet_bytes@;
    let ghost count = received_count(len as nat, size);
    let ghost mut k: nat = 0;
    proof {
        lemma_count_bound(0, len as nat, size);
        assert(queues@ == queues_after_partial(q0, b, kind, 0)) by {
            assert(received_f32(b).take(0) =~= Seq::<u32>::empty());
            assert(received_i16(b).take(0) =~= Seq::<i16>::empty());
            assert(received_u16(b).take(0) =~= Seq::<u16>::empty());
            assert(q0.f + Seq::<u32>::empty() =~= q0.f);
            assert(q0.i + Seq::<i16>::empty() =~= q0.i);
            assert(q0.u + Seq::<u16>::empty() =~= q0.u);
        }
    }
    while i < len32
        invariant
            len == b.len(),
            b == packet_bytes@,
            len32 == len,
            packet_readable(len as nat, kind),
            other_samp_size == size,
            size == spec_type_size(kind),
            size > 0,
            count == received_count(len as nat, size),
            i == HEADER_SIZE + k * size,
            k <= count,
            (k < count) == (i < len),
            queues@ == queues_after_partial(q0, b, kind, k),
        decreases len as int + 4 - i,
    {
        let hi = i as usize;
        let lo = hi - other_samp_size;
        assert(lo == HEADER_SIZE + (k - 1) * size) by (nonlinear_arith)
            requires
                lo == i - size,
                i == HEADER_SIZE + k * size,
        ;
        match kind {
            SampleKind::F32 => {
                let w: [u8; 4] = [
                    packet_bytes[lo],
                    packet_bytes[lo + 1],
                    packet_bytes[lo + 2],
                    packet_bytes[lo + 3],
                ];
                assert(w@ =~= received_window(b, 4, k as int));
                let x = u32_from_ne_bytes(w);
                f32_queue_add(&mut queues.que_f, x);
                assert(received_f32(b).take(k as int + 1) =~= received_f32(b).take(k as int).push(x));
                assert(q0.f + received_f32(b).take(k as int + 1) =~= (q0.f + received_f32(b).take(k as int)).push(x));
            },
            SampleKind::I16 => {
                let w: [u8; 2] = [packet_bytes[lo], packet_bytes[lo + 1]];
                assert(w@ =~= received_window(b, 2, k as int));
                let x = i16_from_ne_bytes(w);
                i16_queue_add(&mut queues.que_i, x);
                assert(received_i16(b).take(k as int + 1) =~= received_i16(b).take(k as int).push(x));
                assert(q0.i + received_i16(b).take(k as int + 1) =~= (q0.i + received_i16(b).take(k as int)).push(x));
            },
            SampleKind::U16 => {
                let w: [u8; 2] = [packet_bytes[lo], packet_bytes[lo + 1]];
                assert(w@ =~= received_window(b, 2, k as int));
                let x = u16_from_ne_bytes(w);
                u16_queue_add(&mut queues.que_u, x);
                assert(received_u16(b).take(k as int + 1) =~= received_u16(b).take(k as int).push(x));
                assert(q0.u + received_u16(b).take(k as int + 1) =~= (q0.u + received_u16(b).take(k as int)).push(x));
            },
        }
        assert((k + 1) * size <= count * size) by (nonlinear_arith)
            requires
                k + 1 <= count,
        ;
        assert(i + size == HEADER_SIZE + (k + 1) * size) by (nonlinear_arith)
            requires
                i == HEADER_SIZE + k * size,
        ;
        i += other_samp_size as u32;
        proof {
            k = k + 1;
            assert(i == HEADER_SIZE + k * size) by (nonlinear_arith)
                requires
                    i == HEADER_SIZE + (k - 1) * size + size,
            ;
            lemma_count_bound(k, len as nat, size);
        }
    }
    proof {
        match kind {
            SampleKind::F32 => assert(received_f32(b).take(k as int) =~= received_f32(b)),
            SampleKind::I16 => assert(received_i16(b).take(k as int) =~= received_i16(b)),
            SampleKind::U16 => assert(received_u16(b).take(k as int) =~= received_u16(b)),
        }
    }
}

/// The queues after the first `k` samples that a packet yields are added.
pub open spec fn queues_after_partial(q: QueuesView, bytes: Seq<u8>, kind: SampleKind, k: nat) -> QueuesView {
    match kind {
        SampleKind::F32 => QueuesView { f: q.f + received_f32(bytes).take(k as int), ..q },
        SampleKind::I16 => QueuesView { i: q.i + received_i16(bytes).take(k as int), ..q },
        SampleKind::U16 => QueuesView { u: q.u + received_u16(bytes).take(k as int), ..q },
    }
}

/// The `k`-th sample offset lies inside a packet of `len` bytes exactly when
/// `k` is below `received_count`: a packet yields one sample for every
/// offset `HEADER_SIZE + k * size` that lies inside it, and no more.
pub proof fn lemma_count_bound(k: nat, len: nat, size: nat)
    requires
        size > 0,
    ensures
        (k < received_count(len, size)) == (HEADER_SIZE + k * size < len),
{
    if len > HEADER_SIZE {
        let d = (len - HEADER_SIZE) as nat;
        assert((k < (d + size - 1) as nat / size) == (k * size < d)) by (nonlinear_arith)
            requires
                size > 0,
                d > 0,
        ;
    } else {
        assert(k * size >= 0) by (nonlinear_arith);
    }
}

/// The queues after the received packet, if any, has been added.
pub open spec fn queues_after_receiving(q: QueuesView, received: Option<Seq<u8>>, kind: SampleKind) -> QueuesView {
    match received {
        Some(bytes) => queues_after_packet(q, bytes, kind),
        None => q,
    }
}

/// The smaller of two numbers.
pub open spec fn min_nat(a: nat, b: nat) -> nat {
    if a < b {
        a
    } else {
        b
    }
}

/// Taking one more sample in playback order: it comes from the first
/// non-empty queue, float before `i16` before `u16`.
pub proof fn lemma_taking_step(q: QueuesView, t: nat)
    requires
        t <= playback_order(q).len(),
    ensures
        playback_order(q).len() == q.f.len() + q.i.len() + q.u.len(),
        ({
            let r = queues_after_taking(q, t);
            &&& (r.f.len() == 0 && r.i.len() == 0 && r.u.len() == 0) == (t == playback_order(q).len())
            &&& r.f.len() > 0 ==> playback_order(q)[t as int] == QueuedSample::F32(F32Bits(r.f[0]))
                && queues_after_taking(q, t + 1) == QueuesView { f: r.f.drop_first(), ..r }
            &&& r.f.len() == 0 && r.i.len() > 0 ==> playback_order(q)[t as int] == QueuedSample::I16(r.i[0])
                && queues_after_taking(q, t + 1) == QueuesView { i: r.i.drop_first(), ..r }
            &&& r.f.len() == 0 && r.i.len() == 0 && r.u.len() > 0 ==> playback_order(q)[t as int]
                == QueuedSample::U16(r.u[0]) && queues_after_taking(q, t + 1) == QueuesView {
                u: r.u.drop_first(),
                ..r
            }
        }),
{
    let all = playback_order(q);
    let tf = q.f.map_values(|b: u32| QueuedSample::F32(F32Bits(b)));
    let ti = q.i.map_values(|v: i16| QueuedSample::I16(v));
    let tu = q.u.map_values(|v: u16| QueuedSample::U16(v));
    assert(all == tf + ti + tu);
    let r = queues_after_taking(q, t);
    let r1 = queues_after_taking(q, t + 1);
    let nf = q.f.len();
    let ni = q.i.len();
    if t < nf {
        assert(all[t as int] == tf[t as int]);
        assert(r1.f =~= r.f.drop_first());
        assert(r1.i =~= r.i);
        assert(r1.u =~= r.u);
        assert(r1 =~= QueuesView { f: r.f.drop_first(), ..r });
    } else if t < nf + ni {
        assert(all[t as int] == ti[t - nf]);
        assert(r1.f =~= r.f);
        assert(r1.i =~= r.i.drop_first());
        assert(r1.u =~= r.u);
        assert(r1 =~= QueuesView { i: r.i.drop_first(), ..r });
    } else if t < all.len() {
        assert(all[t as int] == tu[t - nf - ni]);
        assert(r1.f =~= r.f);
        assert(r1.i =~= r.i);
        assert(r1.u =~= r.u.drop_first());
        assert(r1 =~= QueuesView { u: r.u.drop_first(), ..r });
    }
}

/// Feeds the speaker: first adds the samples of the packet just received,
/// if any (`add_samples_to_queue`), then walks the output buffer frame by
/// frame (`channels` samples each) and gives each slot the next waiting
/// sample, taking from the float queue first, then the `i16` queue, then the
/// `u16` queue, until the buffer is full or the queues are empty. Slot `j`
/// of the result is the sample for output slot `j`, or `None` where the
/// slot keeps its old value.
pub fn write_output_data(
    output_len: usize,
    channels: u16,
    received: Option<&Vec<u8>>,
    other_kind: SampleKind,
    queues: &mut PlaybackQueues,
) -> (plan: Vec<Option<QueuedSample>>)
    requires
        channels > 0,
        received matches Some(p) ==> packet_readable(p@.len(), other_kind),
    ensures
        ({
            let q1 = queues_after_receiving(
                old(queues)@,
                match received {
                    Some(p) => Some(p@),
                    None => None,
                },
                other_kind,
            );
            let all = playback_order(q1);
            let n = min_nat(output_len as nat, all.len());
            &&& plan@.len() == output_len
            &&& forall|j: int|
                0 <= j < output_len ==> #[trigger] plan@[j] == if j < n {
                    Some(all[j])
                } else {
                    None
                }
            &&& final(queues)@ == queues_after_taking(q1, n)
            &&& (received matches Some(p) ==> q1 == queues_after_packet(old(queues)@, p@, other_kind))
            &&& (received is None ==> q1 == old(queues)@)
            &&& queue_total(final(queues)@) + n == queue_total(old(queues)@) + match received {
                Some(p) => received_count(p@.len(), spec_type_size(other_kind)),
                None => 0,
            }
        }),
{
    if let Some(audio_packet_bytes) = received {
        add_samples_to_queue(audio_packet_bytes, other_kind, queues);
    }
    let ghost q1 = queues@;
    let ghost all = playback_order(q1);
    proof {
        assert(queues_after_taking(q1, 0) =~= q1);
    }
    proof {
        lemma_taking_step(q1, 0);
    }
    let mut plan: Vec<Option<QueuedSample>> = Vec::new();
    for j in 0..output_len
        invariant
            plan@.len() == j,
            forall|m: int| 0 <= m < j ==> #[trigger] plan@[m] == None::<QueuedSample>,
    {
        plan.push(None);
    }
    let ch: usize = channels as usize;
    let mut pos: usize = 0;
    while pos < output_len
        invariant_except_break
            pos <= output_len,
        invariant
            ch > 0,
            plan@.len() == output_len,
            pos <= all.len(),
            all == playback_order(q1),
            queues@ == queues_after_taking(q1, pos as nat),
            forall|m: int|
                0 <= m < output_len ==> #[trigger] plan@[m] == if m < pos {
                    Some(all[m])
                } else {
                    None
                },
        ensures
            pos == min_nat(output_len as nat, all.len()),
            plan@.len() == output_len,
            queues@ == queues_after_taking(q1, pos as nat),
            forall|m: int|
                0 <= m < output_len ==> #[trigger] plan@[m] == if m < pos {
                    Some(all[m])
                } else {
                    None
                },
        decreases output_len - pos,
    {
        let end = if output_len - pos < ch {
            output_len
        } else {
            pos + ch
        };
        let ghost start = pos;
        while pos < end
            invariant
                start < end,
                start <= pos,
                end <= output_len,
                plan@.len() == output_len,
                pos <= end,
                pos <= all.len(),
                all == playback_order(q1),
                queues@ == queues_after_taking(q1, pos as nat),
                forall|m: int|
                    0 <= m < output_len ==> #[trigger] plan@[m] == if m < pos {
                        Some(all[m])
                    } else {
                        None
                    },
            ensures
                pos == end || (queues@.f.len() == 0 && queues@.i.len() == 0 && queues@.u.len() == 0),
                start <= pos <= end,
                end <= output_len,
                plan@.len() == output_len,
                pos <= all.len(),
                queues@ == queues_after_taking(q1, pos as nat),
                forall|m: int|
                    0 <= m < output_len ==> #[trigger] plan@[m] == if m < pos {
                        Some(all[m])
                    } else {
                        None
                    },
            decreases end - pos,
        {
            proof {
                lemma_taking_step(q1, pos as nat);
            }
            if queues.all_empty() {
                break;
            }
            let ghost before = plan@;
            if f32_queue_size(&queues.que_f) > 0 {
                if let Some(v) = f32_queue_remove(&mut queues.que_f) {
                    plan.set(pos, Some(QueuedSample::F32(F32Bits(v))));
                }
            } else if i16_queue_size(&queues.que_i) > 0 {
                if let Some(v) = i16_queue_remove(&mut queues.que_i) {
                    plan.set(pos, Some(QueuedSample::I16(v)));
                }
            } else if u16_queue_size(&queues.que_u) > 0 {
                if let Some(v) = u16_queue_remove(&mut queues.que_u) {
                    plan.set(pos, Some(QueuedSample::U16(v)));
                }
            }
            assert(queues@ =~= queues_after_taking(q1, pos as nat + 1));
            pos += 1;
        }
        proof {
            lemma_taking_step(q1, pos as nat);
        }
        if queues.all_empty() {
            break;
        }
    }
    proof {
        lemma_taking_total(q1, pos as nat);
    }
    plan
}

/// A packet made by the capture side from `xs` yields as many samples as `xs` has.
proof fn lemma_sent_count<S: ConvertBytes>(seq_num: u32, time: u128, xs: Seq<S>)
    requires
        S::spec_size() > 0,
    ensures
        received_count(input_packet(seq_num as nat, time, concat_sample_bytes(xs)).len(), S::spec_size())
            == xs.len(),
{
    let size = S::spec_size();
    lemma_pow256_small();
    lemma_pow256_16();
    lemma_ne_roundtrip(seq_num as nat, 4);
    lemma_ne_roundtrip(time as nat, 16);
    lemma_concat_sample_bytes_len(xs);
    let b = input_packet(seq_num as nat, time, concat_sample_bytes(xs));
    assert(b.len() == HEADER_SIZE + xs.len() * size);
    if xs.len() == 0 {
        assert(xs.len() * size == 0);
    } else {
        assert(xs.len() * size > 0) by (nonlinear_arith)
            requires
                xs.len() > 0,
                size > 0,
        ;
        assert(((xs.len() * size) + size - 1) as nat / size == xs.len()) by (nonlinear_arith)
            requires
                size > 0,
        ;
    }
}

/// In a packet made by the capture side, the `k`-th window that
/// `add_samples_to_queue` reads (for `k >= 1`) holds the bytes of the
/// `(k - 1)`-th sample sent.
proof fn lemma_sent_window<S: ConvertBytes>(seq_num: u32, time: u128, xs: Seq<S>, k: int)
    requires
        1 <= k <= xs.len(),
    ensures
        received_window(input_packet(seq_num as nat, time, concat_sample_bytes(xs)), S::spec_size(), k)
            == xs[k - 1].spec_ne_bytes(),
{
    let size = S::spec_size();
    let payload = concat_sample_bytes(xs);
    lemma_pow256_small();
    lemma_pow256_16();
    lemma_ne_roundtrip(seq_num as nat, 4);
    lemma_ne_roundtrip(time as nat, 16);
    lemma_concat_sample_bytes_len(xs);
    lemma_concat_sample_bytes_at(xs, k - 1);
    let b = input_packet(seq_num as nat, time, payload);
    assert(b.len() == HEADER_SIZE + xs.len() * size);
    assert(0 <= (k - 1) * size <= k * size <= xs.len() * size) by (nonlinear_arith)
        requires
            1 <= k <= xs.len(),
    ;
    assert(k * size == (k - 1) * size + size) by (nonlinear_arith);
    assert(received_window(b, size, k) =~= payload.subrange((k - 1) * size, k * size));
}

/// What the capture side sends, the playback side gets back one place
/// later: in a packet made of `i16` samples `xs`, `add_samples_to_queue`
/// reads as many samples as were sent, and its `k`-th one (for `k >= 1`) is
/// the `(k - 1)`-th sample sent (the first one it reads comes from the
/// header, and the last one sent is not read).
pub proof fn lemma_sent_samples_received_i16(seq_num: u32, time: u128, xs: Seq<i16>)
    ensures
        ({
            let r = received_i16(input_packet(seq_num as nat, time, concat_sample_bytes(xs)));
            &&& r.len() == xs.len()
            &&& forall|k: int| 1 <= k < xs.len() ==> #[trigger] r[k] == xs[k - 1]
        }),
{
    let r = received_i16(input_packet(seq_num as nat, time, concat_sample_bytes(xs)));
    lemma_sent_count(seq_num, time, xs);
    assert forall|k: int| 1 <= k < xs.len() implies #[trigger] r[k] == xs[k - 1] by {
        lemma_sent_window(seq_num, time, xs, k);
        lemma_i16_bits(xs[k - 1]);
        lemma_ne_roundtrip(i16_bits(xs[k - 1]), 2);
    }
}

/// As `lemma_sent_samples_received_i16`, for `u16` samples.
pub proof fn lemma_sent_samples_received_u16(seq_num: u32, time: u128, xs: Seq<u16>)
    ensures
        ({
            let r = received_u16(input_packet(seq_num as nat, time, concat_sample_bytes(xs)));
            &&& r.len() == xs.len()
            &&& forall|k: int| 1 <= k < xs.len() ==> #[trigger] r[k] == xs[k - 1]
        }),
{
    let r = received_u16(input_packet(seq_num as nat, time, concat_sample_bytes(xs)));
    lemma_sent_count(seq_num, time, xs);
    lemma_pow256_small();
    assert forall|k: int| 1 <= k < xs.len() implies #[trigger] r[k] == xs[k - 1] by {
        lemma_sent_window(seq_num, time, xs, k);
        lemma_ne_roundtrip(xs[k - 1] as nat, 2);
    }
}

/// As `lemma_sent_samples_received_i16`, for float samples (as bit patterns).
pub proof fn lemma_sent_samples_received_f32(seq_num: u32, time: u128, xs: Seq<F32Bits>)
    ensures
        ({
            let r = received_f32(input_packet(seq_num as nat, time, concat_sample_bytes(xs)));
            &&& r.len() == xs.len()
            &&& forall|k: int| 1 <= k < xs.len() ==> #[trigger] r[k] == xs[k - 1].0
        }),
{
    let r = received_f32(input_packet(seq_num as nat, time, concat_sample_bytes(xs)));
    lemma_sent_count(seq_num, time, xs);
    lemma_pow256_small();
    assert forall|k: int| 1 <= k < xs.len() implies #[trigger] r[k] == xs[k - 1].0 by {
        lemma_sent_window(seq_num, time, xs, k);
        lemma_ne_roundtrip(xs[k - 1].0 as nat, 4);
    }
}

/// What is left to play after `n` samples have been taken is the rest of
/// the playback order, in the same order: taking samples never loses,
/// repeats or reorders any.
pub proof fn lemma_taking_keeps_order(q: QueuesView, n: nat)
    requires
        n <= playback_order(q).len(),
    ensures
        playback_order(queues_after_taking(q, n)) == playback_order(q).skip(n as int),
    decreases n,
{
    if n == 0 {
        assert(queues_after_taking(q, 0) =~= q);
        assert(playback_order(q).skip(0) =~= playback_order(q));
    } else {
        let m = (n - 1) as nat;
        lemma_taking_keeps_order(q, m);
        lemma_taking_step(q, m);
        let r = queues_after_taking(q, m);
        let r1 = queues_after_taking(q, n);
        let all = playback_order(q);
        assert(playback_order(r) == all.skip(m as int));
        assert(all.skip(n as int) =~= all.skip(m as int).drop_first());
        if r.f.len() > 0 {
            assert(playback_order(r1) =~= playback_order(r).drop_first());
        } else if r.i.len() > 0 {
            assert(r.f.map_values(|b: u32| QueuedSample::F32(F32Bits(b))) =~= Seq::<QueuedSample>::empty());
            assert(r1.f.map_values(|b: u32| QueuedSample::F32(F32Bits(b))) =~= Seq::<QueuedSample>::empty());
            assert(playback_order(r1) =~= playback_order(r).drop_first());
        } else {
            assert(r.f.map_values(|b: u32| QueuedSample::F32(F32Bits(b))) =~= Seq::<QueuedSample>::empty());
            assert(r1.f.map_values(|b: u32| QueuedSample::F32(F32Bits(b))) =~= Seq::<QueuedSample>::empty());
            assert(r.i.map_values(|v: i16| QueuedSample::I16(v)) =~= Seq::<QueuedSample>::empty());
            assert(r1.i.map_values(|v: i16| QueuedSample::I16(v)) =~= Seq::<QueuedSample>::empty());
            assert(playback_order(r1) =~= playback_order(r).drop_first());
        }
    }
}

/// Offset just past the `k`-th sample that `add_samples_to_queue` reads.
pub open spec fn sample_offset(k: nat, size: nat) -> int {
    HEADER_SIZE + k * size
}

/// The number of samples waiting in all three queues.
pub open spec fn queue_total(q: QueuesView) -> nat {
    q.f.len() + q.i.len() + q.u.len()
}

/// Taking `n` waiting samples leaves `n` fewer.
pub proof fn lemma_taking_total(q: QueuesView, n: nat)
    requires
        n <= queue_total(q),
    ensures
        queue_total(queues_after_taking(q, n)) + n == queue_total(q),
{
    lemma_taking_step(q, 0);
    lemma_taking_keeps_order(q, n);
    let r = queues_after_taking(q, n);
    lemma_taking_step(r, 0);
}

/// Adding a packet keeps every sample that was already waiting: the queue of
/// the packet's format starts with its old contents and grows by one sample
/// per offset `HEADER_SIZE + k * size` inside the packet; the other two
/// queues do not change.
pub proof fn lemma_packet_keeps_waiting(q: QueuesView, bytes: Seq<u8>, kind: SampleKind)
    ensures
        ({
            let r = queues_after_packet(q, bytes, kind);
            let size = spec_type_size(kind);
            &&& forall|k: nat| (#[trigger] sample_offset(k, size) < bytes.len()) == (k < queue_total(r) - queue_total(q))
            &&& queue_total(r) >= queue_total(q)
            &&& match kind {
                SampleKind::F32 => {
                    &&& r.f.len() == q.f.len() + (queue_total(r) - queue_total(q))
                    &&& r.f.take(q.f.len() as int) == q.f
                    &&& r.i == q.i
                    &&& r.u == q.u
                },
                SampleKind::I16 => {
                    &&& r.i.len() == q.i.len() + (queue_total(r) - queue_total(q))
                    &&& r.i.take(q.i.len() as int) == q.i
                    &&& r.f == q.f
                    &&& r.u == q.u
                },
                SampleKind::U16 => {
                    &&& r.u.len() == q.u.len() + (queue_total(r) - queue_total(q))
                    &&& r.u.take(q.u.len() as int) == q.u
                    &&& r.f == q.f
                    &&& r.i == q.i
                },
            }
        }),
{
    let r = queues_after_packet(q, bytes, kind);
    let size = spec_type_size(kind);
    assert forall|k: nat| (#[trigger] sample_offset(k, size) < bytes.len()) == (k < queue_total(r) - queue_total(q)) by {
        lemma_count_bound(k, bytes.len(), size);
    }
    match kind {
        SampleKind::F32 => assert((q.f + received_f32(bytes)).take(q.f.len() as int) =~= q.f),
        SampleKind::I16 => assert((q.i + received_i16(bytes)).take(q.i.len() as int) =~= q.i),
        SampleKind::U16 => assert((q.u + received_u16(bytes)).take(q.u.len() as int) =~= q.u),
    }
}

/// A received packet is always added, whatever is still waiting: the queues
/// that the speaker is fed from after receiving `bytes` are those after
/// adding the packet, and so keep every waiting sample and gain the
/// packet's samples.
pub proof fn lemma_receiving_adds_packet(q: QueuesView, bytes: Seq<u8>, kind: SampleKind)
    ensures
        queues_after_receiving(q, Some(bytes), kind) == queues_after_packet(q, bytes, kind),
        queue_total(queues_after_receiving(q, Some(bytes), kind)) == queue_total(q) + received_count(
            bytes.len(),
            spec_type_size(kind),
        ),
        queues_after_receiving(q, None, kind) == q,
{
}

} // verus!
