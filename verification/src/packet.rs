//! Audio packets: a 16-byte timestamp, a 4-byte sequence number, then samples.
use vstd::prelude::*;
use crate::bytes::{ne_bytes, ne_value, lemma_ne_roundtrip, lemma_pow256_small, lemma_pow256_16, u128_to_ne_bytes, u32_to_ne_bytes, u128_from_ne_bytes, u32_from_ne_bytes};
use crate::sample::ConvertBytes;

verus! {

/// Size of the timestamp field at the front of a packet, in bytes.
pub const TIME_SIZE: usize = 16;

/// Size of the sequence number field that follows the timestamp, in bytes.
pub const SEQ_SIZE: usize = 4;

/// Size of the header (timestamp and sequence number), in bytes.
pub const HEADER_SIZE: usize = 20;

/// Number of sample bytes that a packet carries.
pub const MAX_BYTES: usize = 160;

/// The bytes of the samples `s`, one after the other.
pub open spec fn concat_sample_bytes<S: ConvertBytes>(s: Seq<S>) -> Seq<u8>
    decreases s.len(),
{
    if s.len() == 0 {
        Seq::empty()
    } else {
        concat_sample_bytes(s.drop_last()) + s.last().spec_ne_bytes()
    }
}

/// Number of samples whose bytes a packet carries: as many as fit in `MAX_BYTES`.
pub open spec fn packet_sample_limit<S: ConvertBytes>() -> nat {
    MAX_BYTES as nat / S::spec_size()
}

/// Number of zero bytes that close a packet built from `n` samples.
pub open spec fn packet_padding(n: nat) -> nat {
    if n < 4 * MAX_BYTES {
        (4 * MAX_BYTES - n) as nat
    } else {
        0
    }
}

/// The bytes of the packet with the given timestamp, sequence number and
/// samples: the header, the bytes of the first `packet_sample_limit` samples,
/// then `packet_padding` zero bytes.
pub open spec fn packet_bytes<S: ConvertBytes>(time: u128, seqnumber: u32, samps: Seq<S>) -> Seq<u8> {
    ne_bytes(time as nat, 16) + ne_bytes(seqnumber as nat, 4) + concat_sample_bytes(
        samps.take(packet_sample_limit::<S>() as int),
    ) + Seq::new(packet_padding(samps.len()), |i: int| 0u8)
}

/// An audio packet as it is sent to the other side of a call.
pub struct AudioPacket<S> {
    pub maxbytes: usize,
    pub timestamp: u128,
    pub sequencenumber: u32,
    pub samples: Vec<S>,
    pub bytes: Vec<u8>,
}

impl<S: ConvertBytes> AudioPacket<S> {
    /// Builds the packet for a timestamp, a sequence number and the samples;
    /// its `bytes` are `packet_bytes(time, seqnumber, samps)`.
    pub fn new(time: u128, seqnumber: u32, samps: Vec<S>) -> (r: Self)
        requires
            samps.len() >= packet_sample_limit::<S>(),
        ensures
            r.maxbytes == MAX_BYTES,
            r.timestamp == time,
            r.sequencenumber == seqnumber,
            r.samples@ == samps@,
            r.bytes@ == packet_bytes(time, seqnumber, samps@),
    {
        let maxbyte: usize = MAX_BYTES;
        let timestamp_bytes: [u8; 16] = u128_to_ne_bytes(time);
        let sequencenumber_bytes: [u8; 4] = u32_to_ne_bytes(seqnumber);
        let mut bs: Vec<u8> = Vec::new();
        for x in 0..TIME_SIZE
            invariant
                bs@ == timestamp_bytes@.take(x as int),
        {
            bs.push(timestamp_bytes[x]);
            assert(bs@ =~= timestamp_bytes@.take(x + 1));
        }
        assert(timestamp_bytes@.take(16) =~= timestamp_bytes@);
        let ghost head = bs@;
        for x in 0..SEQ_SIZE
            invariant
                bs@ == head + sequencenumber_bytes@.take(x as int),
        {
            bs.push(sequencenumber_bytes[x]);
            assert(bs@ =~= head + sequencenumber_bytes@.take(x + 1));
        }
        assert(sequencenumber_bytes@.take(4) =~= sequencenumber_bytes@);
        let ghost header = bs@;
        let lim = maxbyte / S::byte_size();
        for x in 0..lim
            invariant
                lim == packet_sample_limit::<S>(),
                lim <= samps.len(),
                bs@ == header + concat_sample_bytes(samps@.take(x as int)),
        {
            let t: Vec<u8> = samps[x].to_ne_bytes();
            let ghost before = bs@;
            let n = t.len();
            for y in 0..n
                invariant
                    n == t@.len(),
                    bs@ == before + t@.take(y as int),
            {
                bs.push(t[y]);
                assert(bs@ =~= before + t@.take(y + 1));
            }
            assert(t@.take(n as int) =~= t@);
            assert(samps@.take(x + 1).drop_last() =~= samps@.take(x as int));
            assert(bs@ =~= header + concat_sample_bytes(samps@.take(x + 1)));
        }
        let ghost body = bs@;
        if samps.len() < maxbyte * 4 {
            let start = samps.len();
            for x in start..(maxbyte * 4)
                invariant
                    start == samps.len(),
                    bs@ == body + Seq::new((x - start) as nat, |i: int| 0u8),
            {
                bs.push(0);
                assert(bs@ =~= body + Seq::new((x + 1 - start) as nat, |i: int| 0u8));
            }
        }
        assert(bs@ =~= packet_bytes(time, seqnumber, samps@));
        AudioPacket {
            maxbytes: maxbyte,
            timestamp: time,
            sequencenumber: seqnumber,
            samples: samps,
            bytes: bs,
        }
    }

    /// The packet's bytes, header included.
    pub fn get_bytes(&self) -> (r: &Vec<u8>)
        ensures
            r == &self.bytes,
    {
        &self.bytes
    }
}

/// Reads the header of a packet: the timestamp in its first 16 bytes and the
/// sequence number in the 4 bytes after them, both in native byte order.
pub fn decode_packet_header(packet_bytes: &Vec<u8>) -> (r: (u128, u32))
    requires
        packet_bytes.len() >= HEADER_SIZE,
    ensures
        r.0 as nat == ne_value(packet_bytes@.subrange(0, 16)),
        r.1 as nat == ne_value(packet_bytes@.subrange(16, 20)),
{
    let b = packet_bytes;
    let t: [u8; 16] = [
        b[0], b[1], b[2], b[3], b[4], b[5], b[6], b[7],
        b[8], b[9], b[10], b[11], b[12], b[13], b[14], b[15],
    ];
    let s: [u8; 4] = [b[16], b[17], b[18], b[19]];
    assert(t@ =~= b@.subrange(0, 16));
    assert(s@ =~= b@.subrange(16, 20));
    (u128_from_ne_bytes(t), u32_from_ne_bytes(s))
}

/// The bytes of a sequence of samples are `size` bytes per sample.
pub proof fn lemma_concat_sample_bytes_len<S: ConvertBytes>(xs: Seq<S>)
    ensures
        concat_sample_bytes(xs).len() == xs.len() * S::spec_size(),
    decreases xs.len(),
{
    if xs.len() > 0 {
        lemma_concat_sample_bytes_len(xs.drop_last());
        xs.last().lemma_ne_bytes_len();
        assert((xs.len() - 1) * S::spec_size() + S::spec_size() == xs.len() * S::spec_size())
            by (nonlinear_arith);
    }
}

/// The bytes of sample `j` lie at `j * size .. (j + 1) * size`.
pub proof fn lemma_concat_sample_bytes_at<S: ConvertBytes>(xs: Seq<S>, j: int)
    requires
        0 <= j < xs.len(),
    ensures
        concat_sample_bytes(xs).subrange(j * S::spec_size(), (j + 1) * S::spec_size())
            == xs[j].spec_ne_bytes(),
    decreases xs.len(),
{
    let size = S::spec_size();
    let init = xs.drop_last();
    lemma_concat_sample_bytes_len(init);
    xs.last().lemma_ne_bytes_len();
    let c = concat_sample_bytes(xs);
    assert(c == concat_sample_bytes(init) + xs.last().spec_ne_bytes());
    if j < xs.len() - 1 {
        lemma_concat_sample_bytes_at(init, j);
        assert((j + 1) * size <= init.len() * size) by (nonlinear_arith)
            requires
                j + 1 <= init.len(),
        ;
        assert(0 <= j * size <= (j + 1) * size) by (nonlinear_arith)
            requires
                j >= 0,
        ;
        assert(c.subrange(j * size, (j + 1) * size) =~= concat_sample_bytes(init).subrange(
            j * size,
            (j + 1) * size,
        ));
    } else {
        assert(j * size == init.len() * size);
        assert((j + 1) * size == j * size + size) by (nonlinear_arith);
        assert(c.subrange(j * size, (j + 1) * size) =~= xs.last().spec_ne_bytes());
    }
}

/// Reading the header of a packet built by `AudioPacket::new` gives back its
/// timestamp and sequence number.
pub proof fn lemma_packet_header<S: ConvertBytes>(time: u128, seqnumber: u32, samps: Seq<S>)
    ensures
        packet_bytes(time, seqnumber, samps).len() >= HEADER_SIZE,
        ne_value(packet_bytes(time, seqnumber, samps).subrange(0, 16)) == time,
        ne_value(packet_bytes(time, seqnumber, samps).subrange(16, 20)) == seqnumber,
{
    lemma_pow256_16();
    lemma_pow256_small();
    lemma_ne_roundtrip(time as nat, 16);
    lemma_ne_roundtrip(seqnumber as nat, 4);
    let b = packet_bytes(time, seqnumber, samps);
    assert(b.subrange(0, 16) =~= ne_bytes(time as nat, 16));
    assert(b.subrange(16, 20) =~= ne_bytes(seqnumber as nat, 4));
}

} // verus!
