use vstd::prelude::*;
use vstd::bytes::*;
use vstd::pervasive::unreached;
use vstd::slice::slice_subrange;
use crate::errors::CscError;
use crate::nlx_csc::NlxCscRecord;
use crate::utilities::{
    i32_from_u32, lemma_i32_u32_round_trip, lemma_u32_i32_round_trip, spec_i32_from_u32,
    spec_u32_from_i32, u32_from_i32,
};

verus! {

/// Number of fixed 32-bit extras slots in every packet.
pub const EXTRAS_LENGTH: usize = 10;

/// Little-endian encoding of one signed 32-bit field.
pub open spec fn spec_i32_to_le_bytes(x: i32) -> Seq<u8> {
    spec_u32_to_le_bytes(spec_u32_from_i32(x))
}

/// The signed 32-bit field held by four little-endian bytes.
pub open spec fn spec_i32_from_le_bytes(s: Seq<u8>) -> i32 {
    spec_i32_from_u32(spec_u32_from_le_bytes(s))
}

/// Little-endian encoding of a 32-bit element sequence, four bytes each.
pub open spec fn spec_elems_to_bytes(s: Seq<i32>) -> Seq<u8>
    decreases s.len(),
{
    if s.len() == 0 {
        Seq::empty()
    } else {
        spec_elems_to_bytes(s.drop_last()) + spec_i32_to_le_bytes(s.last())
    }
}

/// The 32-bit element sequence held by a byte sequence, four bytes each.
pub open spec fn spec_elems_from_bytes(b: Seq<u8>) -> Seq<i32> {
    Seq::new(
        (b.len() as int / 4) as nat,
        |i: int| spec_i32_from_le_bytes(b.subrange(4 * i, 4 * i + 4)),
    )
}

pub proof fn lemma_elems_to_bytes_len(s: Seq<i32>)
    ensures
        spec_elems_to_bytes(s).len() == 4 * s.len(),
    decreases s.len(),
{
    lemma_auto_spec_u32_to_from_le_bytes();
    if s.len() > 0 {
        lemma_elems_to_bytes_len(s.drop_last());
    }
}

/// Each element's four bytes sit at offset `4 * i` of the encoded sequence.
pub proof fn lemma_elems_to_bytes_index(s: Seq<i32>, i: int)
    requires
        0 <= i < s.len(),
    ensures
        spec_elems_to_bytes(s).subrange(4 * i, 4 * i + 4) == spec_i32_to_le_bytes(s[i]),
    decreases s.len(),
{
    lemma_auto_spec_u32_to_from_le_bytes();
    lemma_elems_to_bytes_len(s);
    lemma_elems_to_bytes_len(s.drop_last());
    if i == s.len() - 1 {
        assert(spec_elems_to_bytes(s).subrange(4 * i, 4 * i + 4) =~= spec_i32_to_le_bytes(
            s.last(),
        ));
    } else {
        lemma_elems_to_bytes_index(s.drop_last(), i);
        assert(spec_elems_to_bytes(s).subrange(4 * i, 4 * i + 4) =~= spec_elems_to_bytes(
            s.drop_last(),
        ).subrange(4 * i, 4 * i + 4));
    }
}

/// Decoding an encoded element sequence gives the elements back.
pub proof fn lemma_elems_encode_decode(s: Seq<i32>)
    ensures
        spec_elems_from_bytes(spec_elems_to_bytes(s)) == s,
{
    lemma_elems_to_bytes_len(s);
    let b = spec_elems_to_bytes(s);
    assert(b.len() as int / 4 == s.len());
    assert forall|i: int| 0 <= i < s.len() implies spec_elems_from_bytes(b)[i] == s[i] by {
        lemma_elems_to_bytes_index(s, i);
        lemma_auto_spec_u32_to_from_le_bytes();
        lemma_i32_u32_round_trip(s[i]);
        assert(b.subrange(4 * i, 4 * i + 4) == spec_i32_to_le_bytes(s[i]));
        assert(spec_elems_from_bytes(b)[i] == spec_i32_from_le_bytes(b.subrange(4 * i, 4 * i + 4)));
    }
    assert(spec_elems_from_bytes(b) =~= s);
}

/// Re-encoding a decoded element byte sequence gives the bytes back.
pub proof fn lemma_elems_decode_encode(b: Seq<u8>)
    requires
        b.len() % 4 == 0,
    ensures
        spec_elems_to_bytes(spec_elems_from_bytes(b)) == b,
    decreases b.len(),
{
    lemma_auto_spec_u32_to_from_le_bytes();
    let s = spec_elems_from_bytes(b);
    if b.len() == 0 {
        assert(spec_elems_to_bytes(s) =~= b);
    } else {
        let n = b.len() as int / 4;
        let front = b.subrange(0, 4 * n - 4);
        lemma_elems_decode_encode(front);
        assert(spec_elems_from_bytes(front) =~= s.drop_last()) by {
            assert forall|i: int| 0 <= i < n - 1 implies spec_elems_from_bytes(front)[i]
                == s.drop_last()[i] by {
                assert(front.subrange(4 * i, 4 * i + 4) =~= b.subrange(4 * i, 4 * i + 4));
            }
        }
        let tail = b.subrange(4 * n - 4, 4 * n);
        assert(s.last() == spec_i32_from_le_bytes(tail));
        lemma_u32_i32_round_trip(spec_u32_from_le_bytes(tail));
        assert(spec_i32_to_le_bytes(s.last()) == tail);
        assert(spec_elems_to_bytes(s) =~= b);
    }
}

/// XOR of `base` with every element of `s`, in order.
pub open spec fn xor_fold(base: u32, s: Seq<u32>) -> u32
    decreases s.len(),
{
    if s.len() == 0 {
        base
    } else {
        xor_fold(base, s.drop_last()) ^ s.last()
    }
}

/// The unsigned 32-bit reading of each element.
pub open spec fn elems_as_u32(s: Seq<i32>) -> Seq<u32> {
    s.map_values(|x: i32| spec_u32_from_i32(x))
}

/// One outbound network packet: a fixed prefix, ten extras slots, a variable
/// body of one element per channel, and a trailing checksum field.
///
/// The wire format carries no independent length field: decoding trusts
/// `packet_size` to tell the body length, and nothing re-validates it, so a
/// packet built by hand may declare a size its body does not have.
#[derive(Debug, PartialEq, Clone)]
pub struct NlxUdpPacket {
    pub stx: i32,
    pub packet_id: i32,
    pub packet_size: i32,
    pub timestamp_high: u32,
    pub timestamp_low: u32,
    pub status: i32,
    pub parallel_input_port: u32,
    pub extras: Vec<i32>,
    pub data: Vec<i32>,
    pub crc: i32,
}

impl NlxUdpPacket {
    /// A packet is well formed when it has the fixed number of extras slots.
    pub open spec fn wf(&self) -> bool {
        self.extras@.len() == EXTRAS_LENGTH
    }

    /// A packet is size-consistent when its declared size tells exactly its
    /// extras-plus-body element count, as the wire format assumes on decode.
    pub open spec fn size_consistent(&self) -> bool {
        self.packet_size == EXTRAS_LENGTH + self.data@.len()
    }

    /// The exact wire bytes this packet serializes to.
    pub open spec fn spec_bytes(&self) -> Seq<u8> {
        spec_i32_to_le_bytes(self.stx) + spec_i32_to_le_bytes(self.packet_id)
            + spec_i32_to_le_bytes(self.packet_size) + spec_u32_to_le_bytes(self.timestamp_high)
            + spec_u32_to_le_bytes(self.timestamp_low) + spec_i32_to_le_bytes(self.status)
            + spec_u32_to_le_bytes(self.parallel_input_port) + spec_elems_to_bytes(self.extras@)
            + spec_elems_to_bytes(self.data@) + spec_i32_to_le_bytes(self.crc)
    }

    /// The order-dependent checksum: XOR of every fixed prefix field, every
    /// extras slot, every body element and the checksum field itself, each
    /// read as an unsigned 32-bit value, in declared field order. It is not
    /// enforced by decode or encode; callers validate explicitly.
    pub fn checksum(&self) -> (r: u32)
        ensures
            r == self.spec_checksum(),
    {
        let mut sum: u32 = 0;
        sum = sum ^ u32_from_i32(self.stx);
        sum = sum ^ u32_from_i32(self.packet_id);
        sum = sum ^ u32_from_i32(self.packet_size);
        sum = sum ^ self.timestamp_high;
        sum = sum ^ self.timestamp_low;
        sum = sum ^ u32_from_i32(self.status);
        sum = sum ^ self.parallel_input_port;
        let ghost prefix = sum;
        let mut i: usize = 0;
        while i < self.extras.len()
            invariant
                i <= self.extras@.len(),
                sum == xor_fold(prefix, elems_as_u32(self.extras@).take(i as int)),
            decreases self.extras@.len() - i,
        {
            sum = sum ^ u32_from_i32(self.extras[i]);
            proof {
                let mapped = elems_as_u32(self.extras@);
                assert(mapped.take(i + 1).drop_last() =~= mapped.take(i as int));
                assert(mapped.take(i + 1).last() == spec_u32_from_i32(self.extras@[i as int]));
            }
            i = i + 1;
        }
        proof {
            assert(elems_as_u32(self.extras@).take(self.extras@.len() as int) =~= elems_as_u32(
                self.extras@,
            ));
        }
        let ghost after_extras = sum;
        let mut j: usize = 0;
        while j < self.data.len()
            invariant
                j <= self.data@.len(),
                sum == xor_fold(after_extras, elems_as_u32(self.data@).take(j as int)),
            decreases self.data@.len() - j,
        {
            sum = sum ^ u32_from_i32(self.data[j]);
            proof {
                let mapped = elems_as_u32(self.data@);
                assert(mapped.take(j + 1).drop_last() =~= mapped.take(j as int));
                assert(mapped.take(j + 1).last() == spec_u32_from_i32(self.data@[j as int]));
            }
            j = j + 1;
        }
        proof {
            assert(elems_as_u32(self.data@).take(self.data@.len() as int) =~= elems_as_u32(
                self.data@,
            ));
        }
        sum = sum ^ u32_from_i32(self.crc);
        sum
    }

    /// What [`Self::checksum`] computes, over the packet's field values.
    pub open spec fn spec_checksum(&self) -> u32 {
        xor_fold(
            xor_fold(
                0u32 ^ spec_u32_from_i32(self.stx) ^ spec_u32_from_i32(self.packet_id)
                    ^ spec_u32_from_i32(self.packet_size) ^ self.timestamp_high
                    ^ self.timestamp_low ^ spec_u32_from_i32(self.status)
                    ^ self.parallel_input_port,
                elems_as_u32(self.extras@),
            ),
            elems_as_u32(self.data@),
        ) ^ spec_u32_from_i32(self.crc)
    }

    /// `self` holds exactly the fields the wire bytes `b` declare, the body
    /// length taken from the declared size field as the format requires.
    pub open spec fn matches_wire(&self, b: Seq<u8>) -> bool {
        let size = spec_i32_from_le_bytes(b.subrange(8, 12)) as int;
        &&& self.wf()
        &&& self.stx == spec_i32_from_le_bytes(b.subrange(0, 4))
        &&& self.packet_id == spec_i32_from_le_bytes(b.subrange(4, 8))
        &&& self.packet_size == spec_i32_from_le_bytes(b.subrange(8, 12))
        &&& self.timestamp_high == spec_u32_from_le_bytes(b.subrange(12, 16))
        &&& self.timestamp_low == spec_u32_from_le_bytes(b.subrange(16, 20))
        &&& self.status == spec_i32_from_le_bytes(b.subrange(20, 24))
        &&& self.parallel_input_port == spec_u32_from_le_bytes(b.subrange(24, 28))
        &&& self.extras@ == spec_elems_from_bytes(b.subrange(28, 68))
        &&& self.data@ == spec_elems_from_bytes(b.subrange(68, 68 + 4 * (size - 10)))
        &&& self.crc == spec_i32_from_le_bytes(
            b.subrange(68 + 4 * (size - 10), 72 + 4 * (size - 10)),
        )
    }

    /// Encodes the packet in wire order; always succeeds for a well-formed
    /// packet, whatever size its declared count states.
    pub fn serialize(&self) -> (r: Result<Vec<u8>, CscError>)
        requires
            self.wf(),
        ensures
            r is Ok,
            r->Ok_0@ == self.spec_bytes(),
            r->Ok_0@.len() == 72 + 4 * self.data@.len(),
    {
        proof {
            lemma_auto_spec_u32_to_from_le_bytes();
            lemma_elems_to_bytes_len(self.extras@);
            lemma_elems_to_bytes_len(self.data@);
        }
        let mut out: Vec<u8> = Vec::new();
        let mut part = u32_to_le_bytes(u32_from_i32(self.stx));
        out.append(&mut part);
        let mut part = u32_to_le_bytes(u32_from_i32(self.packet_id));
        out.append(&mut part);
        let mut part = u32_to_le_bytes(u32_from_i32(self.packet_size));
        out.append(&mut part);
        let mut part = u32_to_le_bytes(self.timestamp_high);
        out.append(&mut part);
        let mut part = u32_to_le_bytes(self.timestamp_low);
        out.append(&mut part);
        let mut part = u32_to_le_bytes(u32_from_i32(self.status));
        out.append(&mut part);
        let mut part = u32_to_le_bytes(self.parallel_input_port);
        out.append(&mut part);
        let ghost scalar_prefix = out@;
        let mut i: usize = 0;
        while i < self.extras.len()
            invariant
                i <= self.extras@.len(),
                out@ == scalar_prefix + spec_elems_to_bytes(self.extras@.take(i as int)),
            decreases self.extras@.len() - i,
        {
            let mut chunk = u32_to_le_bytes(u32_from_i32(self.extras[i]));
            out.append(&mut chunk);
            proof {
                let taken = self.extras@.take(i + 1);
                assert(taken.drop_last() =~= self.extras@.take(i as int));
                assert(taken.last() == self.extras@[i as int]);
            }
            i = i + 1;
        }
        proof {
            assert(self.extras@.take(self.extras@.len() as int) =~= self.extras@);
        }
        let ghost extras_prefix = out@;
        let mut j: usize = 0;
        while j < self.data.len()
            invariant
                j <= self.data@.len(),
                out@ == extras_prefix + spec_elems_to_bytes(self.data@.take(j as int)),
            decreases self.data@.len() - j,
        {
            let mut chunk = u32_to_le_bytes(u32_from_i32(self.data[j]));
            out.append(&mut chunk);
            proof {
                let taken = self.data@.take(j + 1);
                assert(taken.drop_last() =~= self.data@.take(j as int));
                assert(taken.last() == self.data@[j as int]);
            }
            j = j + 1;
        }
        proof {
            assert(self.data@.take(self.data@.len() as int) =~= self.data@);
        }
        let mut part = u32_to_le_bytes(u32_from_i32(self.crc));
        out.append(&mut part);
        proof {
            assert(out@ =~= self.spec_bytes());
        }
        Ok(out)
    }

    /// Decodes one packet from the front of `data`, trusting the declared
    /// size field for the body length; bytes past the packet are ignored.
    /// Fails when the declared count is below the fixed extras share, and
    /// when the bytes end before every declared field was read.
    pub fn deserialize(data: &[u8]) -> (r: Result<NlxUdpPacket, CscError>)
        ensures
            r is Ok <==> ({
                let size = spec_i32_from_le_bytes(data@.subrange(8, 12)) as int;
                &&& data@.len() >= 68
                &&& size >= 10
                &&& data@.len() >= 72 + 4 * (size - 10)
            }),
            r is Err && data@.len() >= 68 && spec_i32_from_le_bytes(data@.subrange(8, 12)) < 10
                ==> r->Err_0 == CscError::BadPacketSize,
            r is Err && !(data@.len() >= 68 && spec_i32_from_le_bytes(data@.subrange(8, 12)) < 10)
                ==> r->Err_0 == CscError::ShortPacket,
            r is Ok ==> r->Ok_0.matches_wire(data@) && r->Ok_0.size_consistent(),
    {
        if data.len() < 68 {
            return Err(CscError::ShortPacket);
        }
        let stx = i32_from_u32(u32_from_le_bytes(slice_subrange(data, 0, 4)));
        let packet_id = i32_from_u32(u32_from_le_bytes(slice_subrange(data, 4, 8)));
        let packet_size = i32_from_u32(u32_from_le_bytes(slice_subrange(data, 8, 12)));
        let timestamp_high = u32_from_le_bytes(slice_subrange(data, 12, 16));
        let timestamp_low = u32_from_le_bytes(slice_subrange(data, 16, 20));
        let status = i32_from_u32(u32_from_le_bytes(slice_subrange(data, 20, 24)));
        let parallel_input_port = u32_from_le_bytes(slice_subrange(data, 24, 28));
        if packet_size < 10 {
            return Err(CscError::BadPacketSize);
        }
        let count = (packet_size - 10) as usize;
        if (data.len() as u64) < 72 + 4 * (count as u64) {
            return Err(CscError::ShortPacket);
        }
        let ghost extras_bytes = data@.subrange(28, 68);
        let mut extras: Vec<i32> = Vec::new();
        let mut i: usize = 0;
        while i < EXTRAS_LENGTH
            invariant
                i <= EXTRAS_LENGTH,
                data@.len() >= 68,
                extras_bytes == data@.subrange(28, 68),
                extras@.len() == i,
                forall|k: int|
                    0 <= k < i ==> extras@[k] == spec_i32_from_le_bytes(
                        extras_bytes.subrange(4 * k, 4 * k + 4),
                    ),
            decreases EXTRAS_LENGTH - i,
        {
            let chunk = slice_subrange(data, 28 + 4 * i, 32 + 4 * i);
            proof {
                assert(chunk@ =~= extras_bytes.subrange(4 * i as int, 4 * i as int + 4));
            }
            extras.push(i32_from_u32(u32_from_le_bytes(chunk)));
            i = i + 1;
        }
        proof {
            assert(extras@ =~= spec_elems_from_bytes(extras_bytes));
        }
        let ghost body_bytes = data@.subrange(68, 68 + 4 * (count as int));
        let mut body: Vec<i32> = Vec::new();
        let mut j: usize = 0;
        while j < count
            invariant
                j <= count,
                data@.len() >= 72 + 4 * (count as int),
                data@.len() <= usize::MAX,
                body_bytes == data@.subrange(68, 68 + 4 * (count as int)),
                body@.len() == j,
                forall|k: int|
                    0 <= k < j ==> body@[k] == spec_i32_from_le_bytes(
                        body_bytes.subrange(4 * k, 4 * k + 4),
                    ),
            decreases count - j,
        {
            let chunk = slice_subrange(data, 68 + 4 * j, 72 + 4 * j);
            proof {
                assert(chunk@ =~= body_bytes.subrange(4 * j as int, 4 * j as int + 4));
            }
            body.push(i32_from_u32(u32_from_le_bytes(chunk)));
            j = j + 1;
        }
        proof {
            assert(body@ =~= spec_elems_from_bytes(body_bytes));
        }
        let crc = i32_from_u32(
            u32_from_le_bytes(slice_subrange(data, 68 + 4 * count, 72 + 4 * count)),
        );
        Ok(
            NlxUdpPacket {
                stx,
                packet_id,
                packet_size,
                timestamp_high,
                timestamp_low,
                status,
                parallel_input_port,
                extras,
                data: body,
                crc,
            },
        )
    }
}

/// Round trip, decode then encode: a packet decoded from wire bytes
/// re-serializes to exactly the bytes it was decoded from.
#[verifier::rlimit(50)]
pub proof fn lemma_packet_decode_encode(p: NlxUdpPacket, b: Seq<u8>)
    requires
        ({
            let size = spec_i32_from_le_bytes(b.subrange(8, 12)) as int;
            size >= 10 && b.len() >= 72 + 4 * (size - 10)
        }),
        p.matches_wire(b),
    ensures
        p.spec_bytes() == b.subrange(
            0,
            72 + 4 * (spec_i32_from_le_bytes(b.subrange(8, 12)) - 10),
        ),
{
    lemma_auto_spec_u32_to_from_le_bytes();
    let size = spec_i32_from_le_bytes(b.subrange(8, 12)) as int;
    lemma_elems_decode_encode(b.subrange(28, 68));
    lemma_elems_decode_encode(b.subrange(68, 68 + 4 * (size - 10)));
    lemma_elems_to_bytes_len(p.extras@);
    lemma_elems_to_bytes_len(p.data@);
    lemma_u32_i32_round_trip(spec_u32_from_le_bytes(b.subrange(0, 4)));
    lemma_u32_i32_round_trip(spec_u32_from_le_bytes(b.subrange(4, 8)));
    lemma_u32_i32_round_trip(spec_u32_from_le_bytes(b.subrange(8, 12)));
    lemma_u32_i32_round_trip(spec_u32_from_le_bytes(b.subrange(20, 24)));
    lemma_u32_i32_round_trip(
        spec_u32_from_le_bytes(b.subrange(68 + 4 * (size - 10), 72 + 4 * (size - 10))),
    );
    assert(spec_i32_to_le_bytes(p.stx) == b.subrange(0, 4));
    assert(spec_i32_to_le_bytes(p.packet_id) == b.subrange(4, 8));
    assert(spec_i32_to_le_bytes(p.packet_size) == b.subrange(8, 12));
    assert(spec_u32_to_le_bytes(p.timestamp_high) == b.subrange(12, 16));
    assert(spec_u32_to_le_bytes(p.timestamp_low) == b.subrange(16, 20));
    assert(spec_i32_to_le_bytes(p.status) == b.subrange(20, 24));
    assert(spec_u32_to_le_bytes(p.parallel_input_port) == b.subrange(24, 28));
    assert(spec_elems_to_bytes(p.extras@) == b.subrange(28, 68));
    assert(spec_elems_to_bytes(p.data@) == b.subrange(68, 68 + 4 * (size - 10)));
    assert(spec_i32_to_le_bytes(p.crc) == b.subrange(68 + 4 * (size - 10), 72 + 4 * (size - 10)));
    assert(p.spec_bytes() =~= b.subrange(0, 72 + 4 * (size - 10)));
}

/// Round trip, encode then decode: a well-formed, size-consistent packet's
/// wire bytes decode back to the same field values.
pub proof fn lemma_packet_encode_decode(p: NlxUdpPacket)
    requires
        p.wf(),
        p.size_consistent(),
    ensures
        p.spec_bytes().len() == 72 + 4 * p.data@.len(),
        p.matches_wire(p.spec_bytes()),
{
    lemma_auto_spec_u32_to_from_le_bytes();
    lemma_elems_to_bytes_len(p.extras@);
    lemma_elems_to_bytes_len(p.data@);
    lemma_elems_encode_decode(p.extras@);
    lemma_elems_encode_decode(p.data@);
    let b = p.spec_bytes();
    assert(b.subrange(0, 4) =~= spec_i32_to_le_bytes(p.stx));
    assert(b.subrange(4, 8) =~= spec_i32_to_le_bytes(p.packet_id));
    assert(b.subrange(8, 12) =~= spec_i32_to_le_bytes(p.packet_size));
    lemma_i32_u32_round_trip(p.packet_size);
    assert(spec_i32_from_le_bytes(b.subrange(8, 12)) == p.packet_size);
    assert(b.subrange(12, 16) =~= spec_u32_to_le_bytes(p.timestamp_high));
    assert(b.subrange(16, 20) =~= spec_u32_to_le_bytes(p.timestamp_low));
    assert(b.subrange(20, 24) =~= spec_i32_to_le_bytes(p.status));
    assert(b.subrange(24, 28) =~= spec_u32_to_le_bytes(p.parallel_input_port));
    assert(b.subrange(28, 68) =~= spec_elems_to_bytes(p.extras@));
    assert(b.subrange(68, 68 + 4 * (p.data@.len() as int)) =~= spec_elems_to_bytes(p.data@));
    assert(b.subrange(
        68 + 4 * (p.data@.len() as int),
        72 + 4 * (p.data@.len() as int),
    ) =~= spec_i32_to_le_bytes(p.crc));
    lemma_i32_u32_round_trip(p.stx);
    lemma_i32_u32_round_trip(p.packet_id);
    lemma_i32_u32_round_trip(p.status);
    lemma_i32_u32_round_trip(p.crc);
}

/// Whether every record reports the same valid-sample count as the first.
pub open spec fn spec_counts_agree(records: Seq<NlxCscRecord>) -> bool {
    forall|i: int|
        0 <= i < records.len() ==> (#[trigger] records[i]).number_of_valid_samples == records[
            0
        ].number_of_valid_samples
}

/// The starting packet sequence id: the caller's, or zero.
pub open spec fn spec_first_id(first_id: Option<i32>) -> i32 {
    match first_id {
        Option::Some(c) => c,
        Option::None => 0,
    }
}

/// The packet the transform emits for sample index `i`: fixed marker and
/// declared size, sequence id counted up from the start id, the first
/// record's timestamp advanced by `i` sampling periods and split into 32-bit
/// halves, zeroed status, port, extras and checksum, and one body element
/// per channel holding that channel's `i`-th sample widened to 32 bits.
pub open spec fn spec_packet_at(
    p: NlxUdpPacket,
    records: Seq<NlxCscRecord>,
    first_id: i32,
    i: int,
) -> bool {
    let period = 1000000int / records[0].sample_frequency as int;
    let t = records[0].timestamp + i * period;
    &&& p.wf()
    &&& p.stx == 2048
    &&& p.packet_id == first_id + i
    &&& p.packet_size == 1044
    &&& p.timestamp_high == t / 0x1_0000_0000
    &&& p.timestamp_low == t % 0x1_0000_0000
    &&& p.status == 0
    &&& p.parallel_input_port == 0
    &&& p.extras@ == Seq::new(EXTRAS_LENGTH as nat, |k: int| 0i32)
    &&& p.data@.len() == records.len()
    &&& forall|j: int| #![auto] 0 <= j < records.len() ==> p.data@[j] == records[j].samples@[i] as i32
    &&& p.crc == 0
}

/// Builds one packet per sample index across all supplied channel records,
/// one body element per channel in input order. Fails, identifying the first
/// offending channel, exactly when some record's valid-sample count differs
/// from the first record's.
///
/// The declared packet size is the format's fixed historical constant, kept
/// independent of the actual channel count.
pub fn csc_to_packets(records: Vec<NlxCscRecord>, first_id: Option<i32>) -> (r: Result<
    Vec<NlxUdpPacket>,
    CscError,
>)
    requires
        records@.len() > 0,
        forall|i: int|
            0 <= i < records@.len() ==> (#[trigger] records@[i]).wf()
                && records@[i].number_of_valid_samples <= 512,
        records@[0].sample_frequency > 0,
        spec_counts_agree(records@) ==> ({
            let s = records@[0].number_of_valid_samples as int;
            let period = 1000000int / records@[0].sample_frequency as int;
            &&& records@[0].timestamp + (s - 1) * period <= u64::MAX
            &&& spec_first_id(first_id) + s <= i32::MAX
        }),
    ensures
        r is Ok <==> spec_counts_agree(records@),
        r is Err ==> (r->Err_0 matches CscError::SampleCountMismatch {
            record_index,
            found,
            expected,
        } && 0 < record_index < records@.len() && found == records@[
            record_index as int
        ].number_of_valid_samples && expected == records@[0].number_of_valid_samples && found
            != expected && (forall|j: int|
            0 <= j < record_index ==> (#[trigger] records@[j]).number_of_valid_samples
                == expected)),
        r is Ok ==> ({
            let s = records@[0].number_of_valid_samples as int;
            &&& r->Ok_0@.len() == s
            &&& forall|i: int|
                0 <= i < s ==> spec_packet_at(
                    #[trigger] r->Ok_0@[i],
                    records@,
                    spec_first_id(first_id),
                    i,
                )
        }),
{
    let mut packets: Vec<NlxUdpPacket> = Vec::new();
    let mut packet_id: i32 = match first_id {
        Some(c) => c,
        None => 0,
    };
    let sample_size: usize = records[0].number_of_valid_samples as usize;
    let sampling_period: u64 = 1000000 / (records[0].sample_frequency as u64);

    let mut idx: usize = 0;
    while idx < records.len()
        invariant
            idx <= records@.len(),
            records@.len() > 0,
            sample_size == records@[0].number_of_valid_samples,
            forall|j: int|
                0 <= j < idx ==> (#[trigger] records@[j]).number_of_valid_samples == records@[
                    0
                ].number_of_valid_samples,
        decreases records@.len() - idx,
    {
        let found = records[idx].number_of_valid_samples;
        if found as usize != sample_size {
            return Err(
                CscError::SampleCountMismatch {
                    record_index: idx,
                    found,
                    expected: records[0].number_of_valid_samples,
                },
            );
        }
        idx = idx + 1;
    }

    let mut i: usize = 0;
    while i < sample_size
        invariant
            i <= sample_size,
            records@.len() > 0,
            sample_size == records@[0].number_of_valid_samples,
            sample_size <= 512,
            spec_counts_agree(records@),
            forall|j: int|
                0 <= j < records@.len() ==> (#[trigger] records@[j]).wf() && records@[
                    j
                ].number_of_valid_samples <= 512,
            records@[0].sample_frequency > 0,
            sampling_period == 1000000int / records@[0].sample_frequency as int,
            records@[0].timestamp + (sample_size - 1) * sampling_period <= u64::MAX,
            spec_first_id(first_id) + sample_size <= i32::MAX,
            packet_id == spec_first_id(first_id) + i,
            packets@.len() == i,
            forall|k: int|
                0 <= k < i ==> spec_packet_at(
                    #[trigger] packets@[k],
                    records@,
                    spec_first_id(first_id),
                    k,
                ),
        decreases sample_size - i,
    {
        proof {
            vstd::arithmetic::mul::lemma_mul_inequality(
                i as int,
                sample_size - 1,
                sampling_period as int,
            );
            vstd::arithmetic::mul::lemma_mul_nonnegative(i as int, sampling_period as int);
        }
        let timestamp: u64 = records[0].timestamp + (i as u64) * sampling_period;
        let timestamp_high: u32 = (timestamp / 4294967296) as u32;
        let timestamp_low: u32 = (timestamp % 4294967296) as u32;

        let mut extras: Vec<i32> = Vec::new();
        let mut e: usize = 0;
        while e < EXTRAS_LENGTH
            invariant
                e <= EXTRAS_LENGTH,
                extras@.len() == e,
                forall|k: int| 0 <= k < e ==> extras@[k] == 0i32,
            decreases EXTRAS_LENGTH - e,
        {
            extras.push(0);
            e = e + 1;
        }
        proof {
            assert(extras@ =~= Seq::new(EXTRAS_LENGTH as nat, |k: int| 0i32));
        }

        let mut body: Vec<i32> = Vec::new();
        let mut j: usize = 0;
        while j < records.len()
            invariant
                j <= records@.len(),
                i < sample_size,
                sample_size == records@[0].number_of_valid_samples,
                sample_size <= 512,
                spec_counts_agree(records@),
                forall|m: int|
                    0 <= m < records@.len() ==> (#[trigger] records@[m]).wf() && records@[
                        m
                    ].number_of_valid_samples <= 512,
                body@.len() == j,
                forall|k: int| #![auto] 0 <= k < j ==> body@[k] == records@[k].samples@[i as int] as i32,
            decreases records@.len() - j,
        {
            let v: i16 = records[j].samples[i];
            body.push(v as i32);
            j = j + 1;
        }

        let packet = NlxUdpPacket {
            stx: 2048,
            packet_id,
            packet_size: 1044,
            timestamp_high,
            timestamp_low,
            status: 0,
            parallel_input_port: 0,
            extras,
            data: body,
            crc: 0,
        };
        packets.push(packet);
        packet_id = packet_id + 1;
        i = i + 1;
    }
    Ok(packets)
}

} // verus!
