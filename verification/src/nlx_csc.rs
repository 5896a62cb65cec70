use vstd::prelude::*;
use vstd::arithmetic::div_mod::lemma_fundamental_div_mod;
use vstd::bytes::*;
use vstd::pervasive::unreached;
use vstd::slice::slice_subrange;
use crate::errors::CscError;
use crate::nlx_header::{spec_parse_header, NlxHeader, NLX_HEADER_SIZE};
use crate::utilities::{
    i16_from_u16, lemma_i16_u16_round_trip, lemma_u16_i16_round_trip, spec_i16_from_u16,
    spec_u16_from_i16, u16_from_i16,
};

verus! {

/// Byte length of one record frame: 8 + 4 + 4 + 4 + 512 * 2.
pub const NLX_CSC_RECORD_SIZE: usize = 1044;

/// Number of sample slots in every record, valid or not.
pub const NLX_CSC_SAMPLE_SLOTS: usize = 512;

/// Little-endian encoding of one signed 16-bit sample.
pub open spec fn spec_i16_to_le_bytes(x: i16) -> Seq<u8> {
    spec_u16_to_le_bytes(spec_u16_from_i16(x))
}

/// The signed 16-bit sample held by two little-endian bytes.
pub open spec fn spec_i16_from_le_bytes(s: Seq<u8>) -> i16 {
    spec_i16_from_u16(spec_u16_from_le_bytes(s))
}

/// Little-endian encoding of a sample sequence, two bytes per sample.
pub open spec fn spec_samples_to_bytes(s: Seq<i16>) -> Seq<u8>
    decreases s.len(),
{
    if s.len() == 0 {
        Seq::empty()
    } else {
        spec_samples_to_bytes(s.drop_last()) + spec_i16_to_le_bytes(s.last())
    }
}

/// The sample sequence held by a byte sequence, two bytes per sample.
pub open spec fn spec_samples_from_bytes(b: Seq<u8>) -> Seq<i16> {
    Seq::new((b.len() as int / 2) as nat, |i: int| spec_i16_from_le_bytes(b.subrange(2 * i, 2 * i + 2)))
}

pub proof fn lemma_samples_to_bytes_len(s: Seq<i16>)
    ensures
        spec_samples_to_bytes(s).len() == 2 * s.len(),
    decreases s.len(),
{
    lemma_auto_spec_u16_to_from_le_bytes();
    if s.len() > 0 {
        lemma_samples_to_bytes_len(s.drop_last());
    }
}

/// Each sample's two bytes sit at offset `2 * i` of the encoded sequence.
pub proof fn lemma_samples_to_bytes_index(s: Seq<i16>, i: int)
    requires
        0 <= i < s.len(),
    ensures
        spec_samples_to_bytes(s).subrange(2 * i, 2 * i + 2) == spec_i16_to_le_bytes(s[i]),
    decreases s.len(),
{
    lemma_auto_spec_u16_to_from_le_bytes();
    lemma_samples_to_bytes_len(s);
    lemma_samples_to_bytes_len(s.drop_last());
    if i == s.len() - 1 {
        assert(spec_samples_to_bytes(s).subrange(2 * i, 2 * i + 2) =~= spec_i16_to_le_bytes(
            s.last(),
        ));
    } else {
        lemma_samples_to_bytes_index(s.drop_last(), i);
        assert(spec_samples_to_bytes(s).subrange(2 * i, 2 * i + 2) =~= spec_samples_to_bytes(
            s.drop_last(),
        ).subrange(2 * i, 2 * i + 2));
    }
}

/// Decoding an encoded sample sequence gives the samples back.
pub proof fn lemma_samples_encode_decode(s: Seq<i16>)
    ensures
        spec_samples_from_bytes(spec_samples_to_bytes(s)) == s,
{
    lemma_samples_to_bytes_len(s);
    let b = spec_samples_to_bytes(s);
    assert(b.len() as int / 2 == s.len());
    assert forall|i: int| 0 <= i < s.len() implies spec_samples_from_bytes(b)[i] == s[i] by {
        lemma_samples_to_bytes_index(s, i);
        lemma_auto_spec_u16_to_from_le_bytes();
        lemma_i16_u16_round_trip(s[i]);
        assert(b.subrange(2 * i, 2 * i + 2) == spec_i16_to_le_bytes(s[i]));
        assert(spec_samples_from_bytes(b)[i] == spec_i16_from_le_bytes(
            b.subrange(2 * i, 2 * i + 2),
        ));
    }
    assert(spec_samples_from_bytes(b) =~= s);
}

/// Re-encoding a decoded sample byte sequence gives the bytes back.
pub proof fn lemma_samples_decode_encode(b: Seq<u8>)
    requires
        b.len() % 2 == 0,
    ensures
        spec_samples_to_bytes(spec_samples_from_bytes(b)) == b,
    decreases b.len(),
{
    lemma_auto_spec_u16_to_from_le_bytes();
    let s = spec_samples_from_bytes(b);
    if b.len() == 0 {
        assert(spec_samples_to_bytes(s) =~= b);
    } else {
        let n = b.len() as int / 2;
        let front = b.subrange(0, 2 * n - 2);
        lemma_samples_decode_encode(front);
        assert(spec_samples_from_bytes(front) =~= s.drop_last()) by {
            assert forall|i: int| 0 <= i < n - 1 implies spec_samples_from_bytes(front)[i]
                == s.drop_last()[i] by {
                assert(front.subrange(2 * i, 2 * i + 2) =~= b.subrange(2 * i, 2 * i + 2));
            }
        }
        let tail = b.subrange(2 * n - 2, 2 * n);
        assert(s.last() == spec_i16_from_le_bytes(tail));
        lemma_u16_i16_round_trip(spec_u16_from_le_bytes(tail));
        assert(spec_i16_to_le_bytes(s.last()) == tail);
        assert(spec_samples_to_bytes(s) =~= b);
    }
}

/// One sample record: a fixed-size chunk of one channel's acquisition stream.
///
/// `samples` always holds exactly [`NLX_CSC_SAMPLE_SLOTS`] slots; slots at or
/// beyond `number_of_valid_samples` are padding and carry no real data.
#[derive(Debug, PartialEq, Clone)]
pub struct NlxCscRecord {
    pub timestamp: u64,
    pub channel_number: u32,
    pub sample_frequency: u32,
    pub number_of_valid_samples: u32,
    pub samples: Vec<i16>,
}

impl NlxCscRecord {
    /// A record is well formed when it has the fixed number of sample slots.
    pub open spec fn wf(&self) -> bool {
        self.samples@.len() == NLX_CSC_SAMPLE_SLOTS
    }

    /// The exact frame bytes this record serializes to.
    pub open spec fn spec_bytes(&self) -> Seq<u8> {
        spec_u64_to_le_bytes(self.timestamp) + spec_u32_to_le_bytes(self.channel_number)
            + spec_u32_to_le_bytes(self.sample_frequency) + spec_u32_to_le_bytes(
            self.number_of_valid_samples,
        ) + spec_samples_to_bytes(self.samples@)
    }

    /// `r` holds exactly the fields encoded in the 1044-byte frame `b`.
    pub open spec fn matches_frame(&self, b: Seq<u8>) -> bool {
        &&& self.wf()
        &&& self.timestamp == spec_u64_from_le_bytes(b.subrange(0, 8))
        &&& self.channel_number == spec_u32_from_le_bytes(b.subrange(8, 12))
        &&& self.sample_frequency == spec_u32_from_le_bytes(b.subrange(12, 16))
        &&& self.number_of_valid_samples == spec_u32_from_le_bytes(b.subrange(16, 20))
        &&& self.samples@ == spec_samples_from_bytes(b.subrange(20, 1044))
    }

    /// The all-zero record.
    pub fn new() -> (r: NlxCscRecord)
        ensures
            r.wf(),
            r.timestamp == 0,
            r.channel_number == 0,
            r.sample_frequency == 0,
            r.number_of_valid_samples == 0,
            r.samples@ == Seq::new(NLX_CSC_SAMPLE_SLOTS as nat, |i: int| 0i16),
    {
        let mut samples: Vec<i16> = Vec::new();
        let mut i: usize = 0;
        while i < NLX_CSC_SAMPLE_SLOTS
            invariant
                i <= NLX_CSC_SAMPLE_SLOTS,
                samples@.len() == i,
                forall|j: int| 0 <= j < i ==> samples@[j] == 0i16,
            decreases NLX_CSC_SAMPLE_SLOTS - i,
        {
            samples.push(0);
            i = i + 1;
        }
        proof {
            assert(samples@ =~= Seq::new(NLX_CSC_SAMPLE_SLOTS as nat, |i: int| 0i16));
        }
        NlxCscRecord {
            timestamp: 0,
            channel_number: 0,
            sample_frequency: 0,
            number_of_valid_samples: 0,
            samples,
        }
    }

    /// Decodes one 1044-byte frame; fails exactly when the slice is not one
    /// whole frame.
    pub fn deserialize(data: &[u8]) -> (r: Result<NlxCscRecord, CscError>)
        ensures
            r is Ok <==> data@.len() == NLX_CSC_RECORD_SIZE,
            r is Err ==> r->Err_0 == CscError::ShortRecord,
            r is Ok ==> r->Ok_0.matches_frame(data@),
    {
        if data.len() != NLX_CSC_RECORD_SIZE {
            return Err(CscError::ShortRecord);
        }
        let timestamp = u64_from_le_bytes(slice_subrange(data, 0, 8));
        let channel_number = u32_from_le_bytes(slice_subrange(data, 8, 12));
        let sample_frequency = u32_from_le_bytes(slice_subrange(data, 12, 16));
        let number_of_valid_samples = u32_from_le_bytes(slice_subrange(data, 16, 20));

        let ghost body = data@.subrange(20, 1044);
        let mut samples: Vec<i16> = Vec::new();
        let mut i: usize = 0;
        while i < NLX_CSC_SAMPLE_SLOTS
            invariant
                i <= NLX_CSC_SAMPLE_SLOTS,
                data@.len() == NLX_CSC_RECORD_SIZE,
                body == data@.subrange(20, 1044),
                samples@.len() == i,
                forall|j: int|
                    0 <= j < i ==> samples@[j] == spec_i16_from_le_bytes(
                        body.subrange(2 * j, 2 * j + 2),
                    ),
            decreases NLX_CSC_SAMPLE_SLOTS - i,
        {
            let chunk = slice_subrange(data, 20 + 2 * i, 22 + 2 * i);
            proof {
                assert(chunk@ =~= body.subrange(2 * i as int, 2 * i as int + 2));
            }
            let u = u16_from_le_bytes(chunk);
            samples.push(i16_from_u16(u));
            i = i + 1;
        }
        proof {
            assert(samples@ =~= spec_samples_from_bytes(body));
        }
        Ok(
            NlxCscRecord {
                timestamp,
                channel_number,
                sample_frequency,
                number_of_valid_samples,
                samples,
            },
        )
    }

    /// Encodes the record back into its exact 1044-byte frame; always
    /// succeeds for a well-formed record.
    pub fn serialize(&self) -> (r: Result<Vec<u8>, CscError>)
        requires
            self.wf(),
        ensures
            r is Ok,
            r->Ok_0@ == self.spec_bytes(),
            r->Ok_0@.len() == NLX_CSC_RECORD_SIZE,
    {
        proof {
            lemma_auto_spec_u64_to_from_le_bytes();
            lemma_auto_spec_u32_to_from_le_bytes();
        }
        let mut data: Vec<u8> = Vec::new();
        let mut part = u64_to_le_bytes(self.timestamp);
        data.append(&mut part);
        let mut part = u32_to_le_bytes(self.channel_number);
        data.append(&mut part);
        let mut part = u32_to_le_bytes(self.sample_frequency);
        data.append(&mut part);
        let mut part = u32_to_le_bytes(self.number_of_valid_samples);
        data.append(&mut part);
        let ghost prefix = data@;

        let mut i: usize = 0;
        while i < NLX_CSC_SAMPLE_SLOTS
            invariant
                i <= NLX_CSC_SAMPLE_SLOTS,
                self.wf(),
                data@ == prefix + spec_samples_to_bytes(self.samples@.take(i as int)),
            decreases NLX_CSC_SAMPLE_SLOTS - i,
        {
            let u = u16_from_i16(self.samples[i]);
            let mut chunk = u16_to_le_bytes(u);
            data.append(&mut chunk);
            proof {
                let taken = self.samples@.take(i + 1);
                assert(taken.drop_last() =~= self.samples@.take(i as int));
                assert(taken.last() == self.samples@[i as int]);
            }
            i = i + 1;
        }
        proof {
            assert(self.samples@.take(NLX_CSC_SAMPLE_SLOTS as int) =~= self.samples@);
            lemma_samples_to_bytes_len(self.samples@);
        }
        Ok(data)
    }
}

/// Number of whole record frames following the header.
pub open spec fn spec_avail_records(data: Seq<u8>) -> int {
    (data.len() - NLX_HEADER_SIZE) / (NLX_CSC_RECORD_SIZE as int)
}

/// Number of records a reader consumes: every available frame, or the
/// caller's cap when that is smaller.
pub open spec fn spec_num_records(data: Seq<u8>, cap: Option<u64>) -> int {
    match cap {
        Option::None => spec_avail_records(data),
        Option::Some(c) => if c < spec_avail_records(data) {
            c as int
        } else {
            spec_avail_records(data)
        },
    }
}

/// Whether the reader consumes every available frame (no cap cuts it short).
pub open spec fn spec_reads_to_end(data: Seq<u8>, cap: Option<u64>) -> bool {
    spec_num_records(data, cap) == spec_avail_records(data)
}

/// Whether a partial record frame trails the last whole one.
pub open spec fn spec_has_trailing_bytes(data: Seq<u8>) -> bool {
    (data.len() - NLX_HEADER_SIZE) % (NLX_CSC_RECORD_SIZE as int) != 0
}

/// The bytes of record frame `i`.
pub open spec fn spec_frame(data: Seq<u8>, i: int) -> Seq<u8> {
    data.subrange(
        NLX_HEADER_SIZE + i * NLX_CSC_RECORD_SIZE,
        NLX_HEADER_SIZE + (i + 1) * NLX_CSC_RECORD_SIZE,
    )
}

/// `records` holds exactly the decoded content of the first `n` frames.
pub open spec fn records_match(records: Seq<NlxCscRecord>, data: Seq<u8>, n: int) -> bool {
    &&& records.len() == n
    &&& forall|i: int| 0 <= i < n ==> #[trigger] records[i].matches_frame(spec_frame(data, i))
}

/// Two records carry the same logical content: equal scalar fields and equal
/// sample sequences.
pub open spec fn same_record_content(a: NlxCscRecord, b: NlxCscRecord) -> bool {
    &&& a.timestamp == b.timestamp
    &&& a.channel_number == b.channel_number
    &&& a.sample_frequency == b.sample_frequency
    &&& a.number_of_valid_samples == b.number_of_valid_samples
    &&& a.samples@ == b.samples@
}

/// Frame `i` lies inside the byte range of the first `n` frames.
proof fn lemma_frame_in_bounds(i: int, n: int, len: int)
    requires
        0 <= i < n,
        NLX_HEADER_SIZE + n * NLX_CSC_RECORD_SIZE <= len,
    ensures
        NLX_HEADER_SIZE + (i + 1) * NLX_CSC_RECORD_SIZE <= len,
        (i + 1) * NLX_CSC_RECORD_SIZE == i * NLX_CSC_RECORD_SIZE + NLX_CSC_RECORD_SIZE,
        0 <= i * NLX_CSC_RECORD_SIZE,
        i <= i * NLX_CSC_RECORD_SIZE,
{
    vstd::arithmetic::mul::lemma_mul_inequality(i + 1, n, NLX_CSC_RECORD_SIZE as int);
    vstd::arithmetic::mul::lemma_mul_is_distributive_add_other_way(
        NLX_CSC_RECORD_SIZE as int,
        i,
        1,
    );
    vstd::arithmetic::mul::lemma_mul_nonnegative(i, NLX_CSC_RECORD_SIZE as int);
    vstd::arithmetic::mul::lemma_mul_inequality(1, NLX_CSC_RECORD_SIZE as int, i);
    vstd::arithmetic::mul::lemma_mul_is_commutative(NLX_CSC_RECORD_SIZE as int, i);
}

/// However the cap falls, the records a reader consumes all lie within the
/// byte stream.
proof fn lemma_num_records_fit(data: Seq<u8>, cap: Option<u64>)
    requires
        data.len() >= NLX_HEADER_SIZE,
    ensures
        0 <= spec_num_records(data, cap) <= spec_avail_records(data),
        NLX_HEADER_SIZE + spec_num_records(data, cap) * NLX_CSC_RECORD_SIZE <= data.len(),
{
    let rs = data.len() - NLX_HEADER_SIZE as int;
    let c = NLX_CSC_RECORD_SIZE as int;
    lemma_fundamental_div_mod(rs, c);
    let avail = rs / c;
    vstd::arithmetic::mul::lemma_mul_is_commutative(c, avail);
    let n = spec_num_records(data, cap);
    vstd::arithmetic::mul::lemma_mul_inequality(n, avail, c);
}

/// A whole file, eagerly decoded: its header and every record read.
#[derive(Debug, PartialEq)]
pub struct NlxCscFile {
    pub header: NlxHeader,
    pub records: Vec<NlxCscRecord>,
}

impl NlxCscFile {
    /// Decodes the header and then every whole record frame, up to the cap
    /// when one is given. Fails when the bytes do not reach a full header,
    /// and when a partial frame would trail the last record read.
    pub fn from_bytes(data: &[u8], num_records: Option<u64>) -> (r: Result<NlxCscFile, CscError>)
        ensures
            r is Ok <==> (data@.len() >= NLX_HEADER_SIZE && !(spec_reads_to_end(data@, num_records)
                && spec_has_trailing_bytes(data@))),
            data@.len() < NLX_HEADER_SIZE ==> r == Result::<NlxCscFile, CscError>::Err(
                CscError::ShortHeader,
            ),
            r is Err && data@.len() >= NLX_HEADER_SIZE ==> r == Result::<
                NlxCscFile,
                CscError,
            >::Err(CscError::TrailingBytes),
            r is Ok ==> r->Ok_0.header.wf() && r->Ok_0.header@ == spec_parse_header(
                data@.subrange(0, NLX_HEADER_SIZE as int),
            ),
            r is Ok ==> records_match(
                r->Ok_0.records@,
                data@,
                spec_num_records(data@, num_records),
            ),
    {
        if data.len() < NLX_HEADER_SIZE {
            return Err(CscError::ShortHeader);
        }
        let header = match NlxHeader::deserialize(slice_subrange(data, 0, NLX_HEADER_SIZE)) {
            Ok(h) => h,
            Err(_) => unreached(),
        };
        let records_size = data.len() - NLX_HEADER_SIZE;
        let avail = records_size / NLX_CSC_RECORD_SIZE;
        proof {
            lemma_num_records_fit(data@, num_records);
        }
        let n: usize = match num_records {
            Some(c) => if c < avail as u64 {
                c as usize
            } else {
                avail
            },
            None => avail,
        };
        if n == avail && records_size % NLX_CSC_RECORD_SIZE != 0 {
            return Err(CscError::TrailingBytes);
        }
        let mut records: Vec<NlxCscRecord> = Vec::new();
        let mut i: usize = 0;
        while i < n
            invariant
                i <= n,
                data@.len() >= NLX_HEADER_SIZE,
                data@.len() <= usize::MAX,
                NLX_HEADER_SIZE + n * NLX_CSC_RECORD_SIZE <= data@.len(),
                records@.len() == i,
                forall|j: int|
                    0 <= j < i ==> #[trigger] records@[j].matches_frame(spec_frame(data@, j)),
            decreases n - i,
        {
            proof {
                lemma_frame_in_bounds(i as int, n as int, data@.len() as int);
            }
            let start = NLX_HEADER_SIZE + i * NLX_CSC_RECORD_SIZE;
            let frame = slice_subrange(data, start, start + NLX_CSC_RECORD_SIZE);
            let rec = match NlxCscRecord::deserialize(frame) {
                Ok(rc) => rc,
                Err(_) => unreached(),
            };
            records.push(rec);
            i = i + 1;
        }
        Ok(NlxCscFile { header, records })
    }
}

/// A lazy, finite, forward-only reader: decodes the header once, then hands
/// out one decoded record per step until the bound fixed at construction.
pub struct NlxCscFileIterator {
    data: Vec<u8>,
    num_records: u64,
    current_record: u64,
}

impl NlxCscFileIterator {
    /// The underlying byte stream.
    pub closed spec fn stream(&self) -> Seq<u8> {
        self.data@
    }

    /// The fixed number of records this reader will produce in all.
    pub closed spec fn total(&self) -> u64 {
        self.num_records
    }

    /// How many records have been produced so far.
    pub closed spec fn position(&self) -> u64 {
        self.current_record
    }

    pub open spec fn wf(&self) -> bool {
        &&& self.stream().len() >= NLX_HEADER_SIZE
        &&& self.position() <= self.total()
        &&& NLX_HEADER_SIZE + self.total() * NLX_CSC_RECORD_SIZE <= self.stream().len()
    }

    /// Decodes the header and fixes the record bound: every available whole
    /// frame, or the cap when that is smaller. Fails only when the bytes do
    /// not reach a full header.
    pub fn new(data: Vec<u8>, num_records: Option<u64>) -> (r: Result<
        (NlxHeader, NlxCscFileIterator),
        CscError,
    >)
        ensures
            r is Ok <==> data@.len() >= NLX_HEADER_SIZE,
            r is Err ==> r->Err_0 == CscError::ShortHeader,
            r is Ok ==> ({
                let (header, it) = r->Ok_0;
                &&& header.wf()
                &&& header@ == spec_parse_header(data@.subrange(0, NLX_HEADER_SIZE as int))
                &&& it.wf()
                &&& it.stream() == data@
                &&& it.position() == 0
                &&& it.total() == spec_num_records(data@, num_records)
            }),
    {
        if data.len() < NLX_HEADER_SIZE {
            return Err(CscError::ShortHeader);
        }
        let header = match NlxHeader::deserialize(
            slice_subrange(data.as_slice(), 0, NLX_HEADER_SIZE),
        ) {
            Ok(h) => h,
            Err(_) => unreached(),
        };
        let records_size = data.len() - NLX_HEADER_SIZE;
        let avail = records_size / NLX_CSC_RECORD_SIZE;
        proof {
            lemma_num_records_fit(data@, num_records);
        }
        let n: u64 = match num_records {
            Some(c) => if c < avail as u64 {
                c
            } else {
                avail as u64
            },
            None => avail as u64,
        };
        Ok((header, NlxCscFileIterator { data, num_records: n, current_record: 0 }))
    }

    /// Produces the next record, or nothing once the bound is reached. Every
    /// produced step decodes one whole frame and succeeds.
    pub fn next(&mut self) -> (r: Option<Result<NlxCscRecord, CscError>>)
        requires
            old(self).wf(),
        ensures
            final(self).wf(),
            final(self).stream() == old(self).stream(),
            final(self).total() == old(self).total(),
            r is None <==> old(self).position() == old(self).total(),
            r is None ==> final(self).position() == old(self).position(),
            r is Some ==> ({
                &&& final(self).position() == old(self).position() + 1
                &&& r->Some_0 is Ok
                &&& (r->Some_0)->Ok_0.matches_frame(
                    spec_frame(old(self).stream(), old(self).position() as int),
                )
            }),
    {
        if self.current_record == self.num_records {
            return None;
        }
        let stream_len = self.data.len();
        proof {
            lemma_frame_in_bounds(
                self.current_record as int,
                self.num_records as int,
                stream_len as int,
            );
        }
        let start = NLX_HEADER_SIZE + (self.current_record as usize) * NLX_CSC_RECORD_SIZE;
        let frame = slice_subrange(self.data.as_slice(), start, start + NLX_CSC_RECORD_SIZE);
        let record = match NlxCscRecord::deserialize(frame) {
            Ok(rc) => Ok(rc),
            Err(_) => unreached(),
        };
        self.current_record = self.current_record + 1;
        Some(record)
    }
}

/// The eager reader and the streaming reader, driven to completion over the
/// same bytes and the same cap, produce record sequences of equal length with
/// identical logical content at every index.
pub proof fn lemma_eager_streaming_equivalent(
    eager: Seq<NlxCscRecord>,
    streamed: Seq<NlxCscRecord>,
    data: Seq<u8>,
    cap: Option<u64>,
)
    requires
        records_match(eager, data, spec_num_records(data, cap)),
        records_match(streamed, data, spec_num_records(data, cap)),
    ensures
        eager.len() == streamed.len(),
        forall|i: int| 0 <= i < eager.len() ==> same_record_content(eager[i], streamed[i]),
{
    assert forall|i: int| 0 <= i < eager.len() implies same_record_content(
        eager[i],
        streamed[i],
    ) by {
        assert(eager[i].matches_frame(spec_frame(data, i)));
        assert(streamed[i].matches_frame(spec_frame(data, i)));
    }
}

/// Round trip, decode then encode: a record decoded from any 1044-byte frame
/// re-serializes to exactly that frame.
pub proof fn lemma_record_decode_encode(r: NlxCscRecord, b: Seq<u8>)
    requires
        b.len() == NLX_CSC_RECORD_SIZE,
        r.matches_frame(b),
    ensures
        r.spec_bytes() == b,
{
    lemma_auto_spec_u64_to_from_le_bytes();
    lemma_auto_spec_u32_to_from_le_bytes();
    lemma_samples_decode_encode(b.subrange(20, 1044));
    lemma_samples_to_bytes_len(r.samples@);
    assert(r.spec_bytes() =~= b);
}

/// Round trip, encode then decode: a well-formed record's frame decodes back
/// to the same field values.
pub proof fn lemma_record_encode_decode(r: NlxCscRecord)
    requires
        r.wf(),
    ensures
        r.spec_bytes().len() == NLX_CSC_RECORD_SIZE,
        r.matches_frame(r.spec_bytes()),
{
    lemma_auto_spec_u64_to_from_le_bytes();
    lemma_auto_spec_u32_to_from_le_bytes();
    lemma_samples_to_bytes_len(r.samples@);
    lemma_samples_encode_decode(r.samples@);
    let b = r.spec_bytes();
    assert(b.subrange(0, 8) =~= spec_u64_to_le_bytes(r.timestamp));
    assert(b.subrange(8, 12) =~= spec_u32_to_le_bytes(r.channel_number));
    assert(b.subrange(12, 16) =~= spec_u32_to_le_bytes(r.sample_frequency));
    assert(b.subrange(16, 20) =~= spec_u32_to_le_bytes(r.number_of_valid_samples));
    assert(b.subrange(20, 1044) =~= spec_samples_to_bytes(r.samples@));
}

} // verus!
