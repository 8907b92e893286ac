//! The capture side: samples from the microphone are gathered into packets.
use vstd::prelude::*;
use crate::bytes::{ne_bytes, ne_value, pow256, lemma_pow256_small, lemma_pow256_16, lemma_ne_roundtrip, u32_to_ne_bytes, u128_to_ne_bytes};
use crate::packet::{HEADER_SIZE, MAX_BYTES};
use crate::sample::ConvertBytes;

verus! {

/// What the capture side keeps between two batches of microphone samples:
/// the sequence number of the next packet and the sample bytes gathered so far.
pub struct InputState {
    pub seq_num: u32,
    pub buf: Vec<u8>,
}

impl InputState {
    /// Sequence number 0 and nothing gathered yet.
    pub fn new() -> (r: Self)
        ensures
            r.seq_num == 0,
            r.buf@ == Seq::<u8>::empty(),
    {
        InputState { seq_num: 0, buf: Vec::new() }
    }
}

/// Number of frames in a buffer of `len` samples with `ch` samples per frame
/// (the last frame may be shorter).
pub open spec fn frame_count(len: nat, ch: nat) -> nat {
    (len + ch - 1) as nat / ch
}

/// The bytes of the first sample of each frame.
pub open spec fn frame_bytes<T: ConvertBytes>(input: Seq<T>, ch: nat) -> Seq<Seq<u8>> {
    Seq::new(frame_count(input.len(), ch), |f: int| input[f * ch].spec_ne_bytes())
}

/// Gathering the sample bytes `samples` into a buffer that starts as `buf`:
/// each sample's bytes are appended, and whenever the buffer then holds
/// exactly `MAX_BYTES` bytes it becomes a payload and starts over empty.
/// The result is the final buffer and the payloads, in order.
pub open spec fn capture_run(buf: Seq<u8>, samples: Seq<Seq<u8>>) -> (Seq<u8>, Seq<Seq<u8>>)
    decreases samples.len(),
{
    if samples.len() == 0 {
        (buf, Seq::empty())
    } else {
        let (b0, ps) = capture_run(buf, samples.drop_last());
        let b = b0 + samples.last();
        if b.len() == MAX_BYTES {
            (Seq::empty(), ps.push(b))
        } else {
            (b, ps)
        }
    }
}

/// The packet sent for a payload: the sequence number, the time in
/// milliseconds since the Unix epoch, then the payload.
pub open spec fn input_packet(seq_num: nat, time: u128, payload: Seq<u8>) -> Seq<u8> {
    ne_bytes(seq_num, 4) + ne_bytes(time as nat, 16) + payload
}

/// `packet` is the packet for `payload` with sequence number `seq_num` and a
/// time that the clock `now` can give.
pub open spec fn stamped_packet<F: Fn() -> u128>(now: F, packet: Seq<u8>, seq_num: nat, payload: Seq<u8>) -> bool {
    exists|t: u128| #[trigger] call_ensures(now, (), t) && packet == input_packet(seq_num, t, payload)
}

proof fn lemma_capture_run_take(buf: Seq<u8>, s: Seq<Seq<u8>>, f: int)
    requires
        0 <= f < s.len(),
    ensures
        ({
            let (b0, ps) = capture_run(buf, s.take(f));
            let b = b0 + s[f];
            capture_run(buf, s.take(f + 1)) == if b.len() == MAX_BYTES {
                (Seq::<u8>::empty(), ps.push(b))
            } else {
                (b, ps)
            }
        }),
{
    assert(s.take(f + 1).drop_last() =~= s.take(f));
    assert(s.take(f + 1).last() == s[f]);
}

/// The payloads of a prefix of the samples are no more than those of all of them.
proof fn lemma_capture_run_count(buf: Seq<u8>, s: Seq<Seq<u8>>, f: int)
    requires
        0 <= f <= s.len(),
    ensures
        capture_run(buf, s.take(f)).1.len() <= capture_run(buf, s).1.len(),
    decreases s.len() - f,
{
    if f < s.len() {
        lemma_capture_run_take(buf, s, f);
        lemma_capture_run_count(buf, s, f + 1);
    } else {
        assert(s.take(f) =~= s);
    }
}

proof fn lemma_frame_bound(f: nat, len: nat, ch: nat)
    requires
        ch > 0,
    ensures
        (f < frame_count(len, ch)) == (f * ch < len),
        frame_count(len, ch) <= len,
{
    assert((len + ch - 1) as nat / ch <= len) by (nonlinear_arith)
        requires
            ch > 0,
    ;
    assert((f < (len + ch - 1) as nat / ch) == (f * ch < len)) by (nonlinear_arith)
        requires
            ch > 0,
    ;
}

/// Gathers the microphone samples of one callback: the first sample of
/// every frame of `channels` samples is appended to the buffer as bytes,
/// and each time the buffer holds exactly `MAX_BYTES` bytes a packet is
/// made of the sequence number, the time that `now` gives, and the buffer;
/// the buffer is then emptied and the sequence number goes up by one.
/// Returns the packets, in order.
pub fn write_input_data<T: ConvertBytes, F: Fn() -> u128>(
    input: &[T],
    channels: u16,
    state: &mut InputState,
    now: F,
) -> (packets: Vec<Vec<u8>>)
    requires
        channels > 0,
        forall|u: ()| #[trigger] call_requires(now, u),
        old(state).seq_num + capture_run(old(state).buf@, frame_bytes(input@, channels as nat)).1.len()
            <= u32::MAX,
    ensures
        ({
            let (b, ps) = capture_run(old(state).buf@, frame_bytes(input@, channels as nat));
            &&& final(state).buf@ == b
            &&& final(state).seq_num == old(state).seq_num + ps.len()
            &&& packets@.len() == ps.len()
            &&& forall|k: int|
                0 <= k < ps.len() ==> stamped_packet(
                    now,
                    #[trigger] packets@[k]@,
                    (old(state).seq_num + k) as nat,
                    ps[k],
                )
            &&& forall|k: int|
                #![trigger packets@[k]]
                0 <= k < ps.len() ==> {
                    &&& packets@[k]@.len() == HEADER_SIZE + MAX_BYTES
                    &&& ne_value(packets@[k]@.subrange(0, 4)) == old(state).seq_num + k
                    &&& packets@[k]@.subrange(HEADER_SIZE as int, HEADER_SIZE + MAX_BYTES) == ps[k]
                    &&& exists|t: u128|
                        #[trigger] call_ensures(now, (), t) && ne_value(packets@[k]@.subrange(4, 20))
                            == t
                }
        }),
{
    let ghost s = frame_bytes(input@, channels as nat);
    let ghost buf0 = state.buf@;
    let ghost seq0 = state.seq_num;
    let ghost mut times: Seq<u128> = Seq::empty();
    let ghost mut f: nat = 0;
    let ch: usize = channels as usize;
    let len = input.len();
    let mut packets: Vec<Vec<u8>> = Vec::new();
    let mut pos: usize = 0;
    proof {
        assert(s.take(0) =~= Seq::<Seq<u8>>::empty());
        lemma_frame_bound(0, len as nat, ch as nat);
        lemma_pow256_small();
    }
    while pos < len
        invariant_except_break
            pos == f * ch,
            (f < s.len()) == (pos < len),
        invariant
            ch == channels,
            ch > 0,
            len == input@.len(),
            s == frame_bytes(input@, channels as nat),
            s.len() == frame_count(len as nat, ch as nat),
            f <= s.len(),
            forall|u: ()| #[trigger] call_requires(now, u),
            seq0 + capture_run(buf0, s).1.len() <= u32::MAX,
            pow256(4) == 0x100000000,
            state.buf@ == capture_run(buf0, s.take(f as int)).0,
            state.seq_num == seq0 + capture_run(buf0, s.take(f as int)).1.len(),
            packets@.len() == capture_run(buf0, s.take(f as int)).1.len(),
            times.len() == packets@.len(),
            forall|k: int|
                0 <= k < packets@.len() ==> call_ensures(now, (), #[trigger] times[k])
                    && packets@[k]@ == input_packet(
                    (seq0 + k) as nat,
                    times[k],
                    capture_run(buf0, s.take(f as int)).1[k],
                ),
        ensures
            f == s.len(),
        decreases s.len() - f,
    {
        let x: &T = &input[pos];
        let bytes: Vec<u8> = x.to_ne_bytes();
        assert(bytes@ == s[f as int]);
        let ghost before = state.buf@;
        let ghost sq = state.seq_num;
        let n = bytes.len();
        for y in 0..n
            invariant
                n == bytes@.len(),
                state.seq_num == sq,
                state.buf@ == before + bytes@.take(y as int),
        {
            state.buf.push(bytes[y]);
            assert(state.buf@ =~= before + bytes@.take(y + 1));
        }
        assert(bytes@.take(n as int) =~= bytes@);
        proof {
            lemma_capture_run_take(buf0, s, f as int);
            lemma_capture_run_count(buf0, s, f as int + 1);
        }
        let ghost ps_old = capture_run(buf0, s.take(f as int)).1;
        let ghost ps_new = capture_run(buf0, s.take(f as int + 1)).1;
        assert(state.buf@ == capture_run(buf0, s.take(f as int)).0 + s[f as int]);
        if state.buf.len() == MAX_BYTES {
            assert(ps_new == ps_old.push(state.buf@));
            assert(ps_new.len() <= capture_run(buf0, s).1.len());
            let seq_bytes = u32_to_ne_bytes(state.seq_num);
            let t = now();
            let time_bytes = u128_to_ne_bytes(t);
            let mut res: Vec<u8> = Vec::new();
            for y in 0..4
                invariant
                    res@ == seq_bytes@.take(y as int),
            {
                res.push(seq_bytes[y]);
                assert(res@ =~= seq_bytes@.take(y + 1));
            }
            let ghost r0 = res@;
            for y in 0..16
                invariant
                    res@ == r0 + time_bytes@.take(y as int),
            {
                res.push(time_bytes[y]);
                assert(res@ =~= r0 + time_bytes@.take(y + 1));
            }
            let ghost r1 = res@;
            let m = state.buf.len();
            for y in 0..m
                invariant
                    m == state.buf@.len(),
                    res@ == r1 + state.buf@.take(y as int),
            {
                res.push(state.buf[y]);
                assert(res@ =~= r1 + state.buf@.take(y + 1));
            }
            proof {
                assert(seq_bytes@.take(4) =~= seq_bytes@);
                assert(time_bytes@.take(16) =~= time_bytes@);
                assert(state.buf@.take(m as int) =~= state.buf@);
                assert(res@ =~= input_packet(state.seq_num as nat, t, state.buf@));
                times = times.push(t);
            }
            packets.push(res);
            state.buf.clear();
            state.seq_num += 1;
        }
        proof {
            f = f + 1;
            let ps_new = capture_run(buf0, s.take(f as int)).1;
            assert forall|k: int| 0 <= k < packets@.len() implies call_ensures(now, (), #[trigger] times[k])
                && packets@[k]@ == input_packet((seq0 + k) as nat, times[k], ps_new[k]) by {
                if k < ps_old.len() {
                    assert(ps_new[k] == ps_old[k]);
                }
            }
        }
        proof {
            assert(f * ch == pos + ch) by (nonlinear_arith)
                requires
                    pos == (f - 1) * ch,
                    f >= 1,
            ;
            lemma_frame_bound(f, len as nat, ch as nat);
        }
        if len - pos > ch {
            pos += ch;
        } else {
            break;
        }
    }
    proof {
        assert(s.take(f as int) =~= s);
        let ps = capture_run(buf0, s).1;
        assert forall|k: int|
            0 <= k < ps.len() implies stamped_packet(now, #[trigger] packets@[k]@, (seq0 + k) as nat, ps[k]) by {
            assert(call_ensures(now, (), times[k]));
            assert(packets@[k]@ == input_packet((seq0 + k) as nat, times[k], ps[k]));
        }
        assert forall|k: int|
            #![trigger packets@[k]]
            0 <= k < ps.len() implies {
                &&& packets@[k]@.len() == HEADER_SIZE + MAX_BYTES
                &&& ne_value(packets@[k]@.subrange(0, 4)) == seq0 + k
                &&& packets@[k]@.subrange(HEADER_SIZE as int, HEADER_SIZE + MAX_BYTES) == ps[k]
                &&& exists|t: u128|
                    #[trigger] call_ensures(now, (), t) && ne_value(packets@[k]@.subrange(4, 20)) == t
            } by {
            let t = times[k];
            assert(call_ensures(now, (), t));
            assert(packets@[k]@ == input_packet((seq0 + k) as nat, t, ps[k]));
            lemma_capture_payload_len(buf0, s, k);
            lemma_input_packet_fields((seq0 + k) as nat, t, ps[k]);
        }
    }
    packets
}

/// Number of packets that `write_input_data` makes from `input`, with
/// `channels` samples per frame, starting from `state`.
pub fn packet_count<T: ConvertBytes>(state: &InputState, input: &[T], channels: u16) -> (n: usize)
    requires
        channels > 0,
    ensures
        n == capture_run(state.buf@, frame_bytes(input@, channels as nat)).1.len(),
{
    let ghost s = frame_bytes(input@, channels as nat);
    let ghost buf0 = state.buf@;
    let ghost mut f: nat = 0;
    let ch: usize = channels as usize;
    let len = input.len();
    let size = T::byte_size();
    let mut blen: usize = state.buf.len();
    let mut count: usize = 0;
    let mut pos: usize = 0;
    proof {
        assert(s.take(0) =~= Seq::<Seq<u8>>::empty());
        assert(s.take(s.len() as int) =~= s);
        lemma_frame_bound(0, len as nat, ch as nat);
        if blen > MAX_BYTES {
            lemma_capture_run_stuck(buf0, s, 0);
        }
    }
    while pos < len
        invariant_except_break
            pos == f * ch,
            (f < s.len()) == (pos < len),
        invariant
            ch == channels,
            ch > 0,
            len == input@.len(),
            s.take(s.len() as int) == s,
            s.len() <= len,
            buf0 == state.buf@,
            size == T::spec_size(),
            0 < size <= 16,
            s == frame_bytes(input@, channels as nat),
            s.len() == frame_count(len as nat, ch as nat),
            f <= s.len(),
            blen <= MAX_BYTES ==> blen == capture_run(buf0, s.take(f as int)).0.len(),
            blen > MAX_BYTES ==> capture_run(buf0, s.take(f as int)).0.len() > MAX_BYTES
                && capture_run(buf0, s.take(f as int)).1 == capture_run(buf0, s).1,
            count == capture_run(buf0, s.take(f as int)).1.len(),
            count <= f,
        ensures
            count == capture_run(buf0, s).1.len(),
        decreases s.len() - f,
    {
        if blen > MAX_BYTES {
            assert(count == capture_run(buf0, s).1.len());
            return count;
        }
        proof {
            lemma_capture_run_take(buf0, s, f as int);
            input@[f * ch].lemma_ne_bytes_len();
        }
        blen = blen + size;
        if blen == MAX_BYTES {
            blen = 0;
            count = count + 1;
        }
        proof {
            f = f + 1;
            if blen > MAX_BYTES {
                lemma_capture_run_stuck(buf0, s, f as int);
            }
            assert(f * ch == pos + ch) by (nonlinear_arith)
                requires
                    pos == (f - 1) * ch,
                    f >= 1,
            ;
            lemma_frame_bound(f, len as nat, ch as nat);
        }
        if len - pos > ch {
            pos += ch;
        } else {
            proof {
                assert(s.take(f as int) =~= s);
            }
            break;
        }
    }
    count
}

/// Once the buffer holds more than `MAX_BYTES` bytes it never makes a
/// payload again.
proof fn lemma_capture_run_stuck(buf: Seq<u8>, s: Seq<Seq<u8>>, f: int)
    requires
        0 <= f <= s.len(),
        capture_run(buf, s.take(f)).0.len() > MAX_BYTES,
    ensures
        capture_run(buf, s).1 == capture_run(buf, s.take(f)).1,
        capture_run(buf, s).0.len() > MAX_BYTES,
    decreases s.len() - f,
{
    if f < s.len() {
        lemma_capture_run_take(buf, s, f);
        lemma_capture_run_stuck(buf, s, f + 1);
    } else {
        assert(s.take(f) =~= s);
    }
}

/// Gathering two batches of samples one after the other gives the same
/// buffer, and the same payloads in the same order, as gathering them as
/// one batch: how the microphone stream is cut into callbacks does not
/// change the packets.
pub proof fn lemma_capture_run_append(buf: Seq<u8>, s1: Seq<Seq<u8>>, s2: Seq<Seq<u8>>)
    ensures
        capture_run(capture_run(buf, s1).0, s2).0 == capture_run(buf, s1 + s2).0,
        capture_run(buf, s1).1 + capture_run(capture_run(buf, s1).0, s2).1 == capture_run(
            buf,
            s1 + s2,
        ).1,
    decreases s2.len(),
{
    if s2.len() == 0 {
        assert(s1 + s2 =~= s1);
        assert(capture_run(buf, s1).1 + Seq::<Seq<u8>>::empty() =~= capture_run(buf, s1).1);
    } else {
        let s2i = s2.drop_last();
        lemma_capture_run_append(buf, s1, s2i);
        assert((s1 + s2).drop_last() =~= s1 + s2i);
        assert((s1 + s2).last() == s2.last());
        let ps1 = capture_run(buf, s1).1;
        let ps2 = capture_run(capture_run(buf, s1).0, s2i).1;
        let b = capture_run(capture_run(buf, s1).0, s2i).0 + s2.last();
        assert(ps1 + ps2.push(b) =~= (ps1 + ps2).push(b));
    }
}

/// Every payload that gathering makes holds exactly `MAX_BYTES` bytes.
pub proof fn lemma_capture_payload_len(buf: Seq<u8>, s: Seq<Seq<u8>>, k: int)
    requires
        0 <= k < capture_run(buf, s).1.len(),
    ensures
        capture_run(buf, s).1[k].len() == MAX_BYTES,
    decreases s.len(),
{
    if s.len() > 0 {
        let ps = capture_run(buf, s.drop_last()).1;
        if k < ps.len() {
            lemma_capture_payload_len(buf, s.drop_last(), k);
        }
    }
}

/// A packet of the capture side reads back field by field: its first 4
/// bytes give its sequence number, the next 16 its time, and the rest is
/// its payload.
pub proof fn lemma_input_packet_fields(seq_num: nat, time: u128, payload: Seq<u8>)
    requires
        seq_num <= u32::MAX,
    ensures
        input_packet(seq_num, time, payload).len() == HEADER_SIZE + payload.len(),
        ne_value(input_packet(seq_num, time, payload).subrange(0, 4)) == seq_num,
        ne_value(input_packet(seq_num, time, payload).subrange(4, 20)) == time,
        input_packet(seq_num, time, payload).subrange(
            HEADER_SIZE as int,
            HEADER_SIZE + payload.len(),
        ) == payload,
{
    lemma_pow256_small();
    lemma_pow256_16();
    lemma_ne_roundtrip(seq_num, 4);
    lemma_ne_roundtrip(time as nat, 16);
    let p = input_packet(seq_num, time, payload);
    assert(p.subrange(0, 4) =~= ne_bytes(seq_num, 4));
    assert(p.subrange(4, 20) =~= ne_bytes(time as nat, 16));
    assert(p.subrange(HEADER_SIZE as int, HEADER_SIZE + payload.len()) =~= payload);
}

} // verus!
