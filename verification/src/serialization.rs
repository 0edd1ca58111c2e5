//! Entry envelopes, and the framing that a serializer puts around bytes
//! that the caller has encoded.

use vstd::prelude::*;
use crate::clock::current_timestamp;
use crate::error::{CacheError, CacheResult};
use crate::utils::bump;

verus! {

/// How the caller encodes values before they are framed.
#[derive(Debug, Clone, Copy, PartialEq, Eq, Structural)]
pub enum SerializationFormat {
    Json,
    Bincode,
    MessagePack,
}

/// How framed bytes are compressed.
#[derive(Debug, Clone, Copy, PartialEq, Eq, Structural)]
pub enum CompressionType {
    Uncompressed,
    Lz4,
    Zstd,
}

/// What `lz4_flex::compress_prepend_size` returns for the given input.
pub uninterp spec fn lz4_frame(input: Seq<u8>) -> Seq<u8>;

/// What `lz4_flex::decompress_size_prepended` recovers from the given
/// frame, `None` where it reports an error.
pub uninterp spec fn lz4_unframe(frame: Seq<u8>) -> Option<Seq<u8>>;

/// Longest input whose length the four-byte size prefix of a frame holds.
pub const MAX_FRAME_INPUT: usize = 0xffff_ffff;

/// `lz4_flex::compress_prepend_size`: the input's length as four
/// little-endian bytes, then the compressed block. Where the length fits
/// in the prefix, `decompress_size_prepended` gives the input back.
#[verifier::external_body]
pub(crate) fn lz4_compress(input: &[u8]) -> (r: Vec<u8>)
    ensures
        r@ == lz4_frame(input@),
        input@.len() <= MAX_FRAME_INPUT ==> lz4_unframe(r@) == Some(input@),
{
    lz4_flex::compress_prepend_size(input)
}

/// As many bytes of 0xFF in a row add up to the largest number that
/// thirty-two bits hold. The decompressor adds up the length bytes of a
/// run in thirty-two bits without a check; over fewer bytes than these
/// the sum stays below that number.
pub const MAX_LENGTH_RUN: usize = 0x0101_0101;

/// The `len` bytes from `from` on are all 0xFF.
pub open spec fn all_ones(frame: Seq<u8>, from: int, len: int) -> bool {
    forall|j: int| from <= j < from + len ==> #[trigger] frame[j] == 0xffu8
}

/// The frame holds `MAX_LENGTH_RUN` bytes of 0xFF in a row.
pub open spec fn has_long_run(frame: Seq<u8>) -> bool {
    exists|from: int|
        0 <= from && from + MAX_LENGTH_RUN <= frame.len() && #[trigger] all_ones(
            frame,
            from,
            MAX_LENGTH_RUN as int,
        )
}

/// The frame is one that the decompressor is handed: nowhere in it do
/// `MAX_LENGTH_RUN` bytes of 0xFF stand in a row.
pub open spec fn readable_frame(frame: Seq<u8>) -> bool {
    !has_long_run(frame)
}

/// A frame of fewer than `MAX_LENGTH_RUN` bytes is readable.
pub proof fn lemma_short_frame_is_readable(frame: Seq<u8>)
    requires
        frame.len() < MAX_LENGTH_RUN,
    ensures
        readable_frame(frame),
{
}

/// Whether the frame is readable.
pub fn is_readable_frame(frame: &[u8]) -> (r: bool)
    ensures
        r == readable_frame(frame@),
{
    if frame.len() < MAX_LENGTH_RUN {
        proof {
            lemma_short_frame_is_readable(frame@);
        }
        return true;
    }
    let mut run: usize = 0;
    let mut i: usize = 0;
    while i < frame.len()
        invariant
            i <= frame.len(),
            run <= i,
            run < MAX_LENGTH_RUN,
            all_ones(frame@, i - run, run as int),
            run < i ==> frame@[i - run - 1] != 0xffu8,
            forall|from: int|
                0 <= from && from + MAX_LENGTH_RUN <= i ==> !#[trigger] all_ones(
                    frame@,
                    from,
                    MAX_LENGTH_RUN as int,
                ),
        decreases frame.len() - i,
    {
        let ghost before = run;
        if frame[i] == 0xff {
            run = run + 1;
            if run == MAX_LENGTH_RUN {
                proof {
                    assert(all_ones(frame@, i + 1 - MAX_LENGTH_RUN, MAX_LENGTH_RUN as int));
                }
                return false;
            }
        } else {
            run = 0;
        }
        proof {
            let from = i + 1 - MAX_LENGTH_RUN;
            if from >= 0 {
                if frame@[i as int] != 0xffu8 {
                    assert(!all_ones(frame@, from, MAX_LENGTH_RUN as int));
                } else {
                    assert(before < i);
                    assert(frame@[i - before - 1] != 0xffu8);
                    assert(!all_ones(frame@, from, MAX_LENGTH_RUN as int));
                }
            }
        }
        i = i + 1;
    }
    true
}

/// `lz4_flex::decompress_size_prepended`: the bytes that the frame stands
/// for, or nothing where the frame is cut short or malformed. Frames that
/// are not readable are left out: on some of them the sum of the length
/// bytes overflows inside the call.
#[verifier::external_body]
pub(crate) fn lz4_decompress(frame: &[u8]) -> (r: Option<Vec<u8>>)
    requires
        readable_frame(frame@),
    ensures
        match r {
            Some(v) => lz4_unframe(frame@) == Some(v@),
            None => lz4_unframe(frame@) is None,
        },
{
    lz4_flex::decompress_size_prepended(frame).ok()
}

/// What is recovered from a frame: what the decompressor recovers from
/// it, and nothing from a frame that is not readable.
pub open spec fn spec_decompress_frame(frame: Seq<u8>) -> Option<Seq<u8>> {
    if readable_frame(frame) {
        lz4_unframe(frame)
    } else {
        None
    }
}

/// Recovers the bytes that a frame stands for. A frame that is not
/// readable is refused unread.
pub fn decompress_frame(frame: &[u8]) -> (r: Option<Vec<u8>>)
    ensures
        bytes_option_view(r) == spec_decompress_frame(frame@),
{
    if is_readable_frame(frame) {
        lz4_decompress(frame)
    } else {
        None
    }
}

/// The bytes that a serializer with this compression stores for `encoded`.
pub open spec fn framed(compression: CompressionType, encoded: Seq<u8>) -> Seq<u8> {
    match compression {
        CompressionType::Lz4 => lz4_frame(encoded),
        _ => encoded,
    }
}

/// The bytes can be stored under this compression and read back: under
/// LZ4 their length fits the frame's size prefix and their frame is
/// readable.
pub open spec fn frameable(compression: CompressionType, encoded: Seq<u8>) -> bool {
    compression == CompressionType::Lz4 ==> encoded.len() <= MAX_FRAME_INPUT && readable_frame(
        lz4_frame(encoded),
    )
}

/// The bytes that a serializer with this compression recovers from
/// `stored`, `None` where they are no frame.
pub open spec fn unframed(compression: CompressionType, stored: Seq<u8>) -> Option<Seq<u8>> {
    match compression {
        CompressionType::Lz4 => spec_decompress_frame(stored),
        _ => Some(stored),
    }
}

/// What unframing gives, once the decompressor has answered with `inner`:
/// under LZ4 its answer, or `Deserialization` where it found no frame;
/// under any other compression the stored bytes themselves.
pub open spec fn spec_unframe_result(
    compression: CompressionType,
    stored: Seq<u8>,
    inner: Option<Seq<u8>>,
) -> Result<Seq<u8>, CacheError> {
    match compression {
        CompressionType::Lz4 => match inner {
            Some(v) => Ok(v),
            None => Err(CacheError::Deserialization),
        },
        _ => Ok(stored),
    }
}

/// The view of a decompressor's answer.
pub open spec fn bytes_option_view(o: Option<Vec<u8>>) -> Option<Seq<u8>> {
    match o {
        Some(v) => Some(v@),
        None => None,
    }
}

/// The view of a result that carries bytes.
pub open spec fn bytes_result_view(r: CacheResult<Vec<u8>>) -> Result<Seq<u8>, CacheError> {
    match r {
        Ok(v) => Ok(v@),
        Err(e) => Err(e),
    }
}

/// Turns the decompressor's answer for `stored` into the encoded bytes.
pub fn unframe_result(compression: CompressionType, stored: &[u8], inner: Option<Vec<u8>>) -> (r:
    CacheResult<Vec<u8>>)
    ensures
        bytes_result_view(r) == spec_unframe_result(compression, stored@, bytes_option_view(inner)),
{
    match compression {
        CompressionType::Lz4 => match inner {
            Some(v) => Ok(v),
            None => Err(CacheError::Deserialization),
        },
        _ => Ok(vstd::slice::slice_to_vec(stored)),
    }
}

fn frame_bytes(compression: CompressionType, encoded: &[u8]) -> (r: CacheResult<Vec<u8>>)
    ensures
        match r {
            Ok(v) => frameable(compression, encoded@) && v@ == framed(compression, encoded@)
                && unframed(compression, v@) == Some(encoded@),
            Err(e) => e == CacheError::Serialization && !frameable(compression, encoded@),
        },
{
    match compression {
        CompressionType::Lz4 => {
            if encoded.len() > MAX_FRAME_INPUT {
                return Err(CacheError::Serialization);
            }
            let frame = lz4_compress(encoded);
            if is_readable_frame(frame.as_slice()) {
                Ok(frame)
            } else {
                Err(CacheError::Serialization)
            }
        },
        _ => Ok(vstd::slice::slice_to_vec(encoded)),
    }
}

fn unframe_bytes(compression: CompressionType, stored: &[u8]) -> (r: CacheResult<Vec<u8>>)
    ensures
        match r {
            Ok(v) => unframed(compression, stored@) == Some(v@),
            Err(e) => e == CacheError::Deserialization && unframed(compression, stored@) is None,
        },
{
    let inner = match compression {
        CompressionType::Lz4 => decompress_frame(stored),
        _ => None,
    };
    unframe_result(compression, stored, inner)
}

/// Frames JSON that the caller has produced.
#[derive(Debug)]
pub struct JsonSerializer {
    compression: CompressionType,
}

impl JsonSerializer {
    pub closed spec fn compression(&self) -> CompressionType {
        self.compression
    }

    pub fn new(compression: CompressionType) -> (r: Self)
        ensures
            r.compression() == compression,
    {
        Self { compression }
    }

    /// The stored form of JSON text: compressed where LZ4 was chosen,
    /// unchanged otherwise. What is stored can be read back; text that
    /// could not be is refused with `Serialization`.
    pub fn serialize(&self, encoded: &[u8]) -> (r: CacheResult<Vec<u8>>)
        ensures
            match r {
                Ok(v) => frameable(self.compression(), encoded@) && v@ == framed(
                    self.compression(),
                    encoded@,
                ) && unframed(self.compression(), v@) == Some(encoded@),
                Err(e) => e == CacheError::Serialization && !frameable(
                    self.compression(),
                    encoded@,
                ),
            },
    {
        frame_bytes(self.compression, encoded)
    }

    /// The JSON text inside a stored form; `Deserialization` where the
    /// stored bytes are no frame.
    pub fn deserialize(&self, data: &[u8]) -> (r: CacheResult<Vec<u8>>)
        ensures
            match r {
                Ok(v) => unframed(self.compression(), data@) == Some(v@),
                Err(e) => e == CacheError::Deserialization && unframed(self.compression(), data@)
                    is None,
            },
    {
        unframe_bytes(self.compression, data)
    }
}

/// Frames the compact binary form that the caller has produced.
#[derive(Debug)]
pub struct BincodeSerializer {
    compression: CompressionType,
}

impl BincodeSerializer {
    pub closed spec fn compression(&self) -> CompressionType {
        self.compression
    }

    pub fn new(compression: CompressionType) -> (r: Self)
        ensures
            r.compression() == compression,
    {
        Self { compression }
    }

    /// The stored form of binary data: compressed where LZ4 was chosen,
    /// unchanged otherwise. What is stored can be read back; data that
    /// could not be is refused with `Serialization`.
    pub fn serialize(&self, encoded: &[u8]) -> (r: CacheResult<Vec<u8>>)
        ensures
            match r {
                Ok(v) => frameable(self.compression(), encoded@) && v@ == framed(
                    self.compression(),
                    encoded@,
                ) && unframed(self.compression(), v@) == Some(encoded@),
                Err(e) => e == CacheError::Serialization && !frameable(
                    self.compression(),
                    encoded@,
                ),
            },
    {
        frame_bytes(self.compression, encoded)
    }

    /// The binary data inside a stored form; `Deserialization` where the
    /// stored bytes are no frame.
    pub fn deserialize(&self, data: &[u8]) -> (r: CacheResult<Vec<u8>>)
        ensures
            match r {
                Ok(v) => unframed(self.compression(), data@) == Some(v@),
                Err(e) => e == CacheError::Deserialization && unframed(self.compression(), data@)
                    is None,
            },
    {
        unframe_bytes(self.compression, data)
    }
}

/// A serializer for one of the formats.
#[derive(Debug)]
pub enum Serializer {
    Json(JsonSerializer),
    Bincode(BincodeSerializer),
}

impl Serializer {
    pub open spec fn compression(&self) -> CompressionType {
        match self {
            Serializer::Json(s) => s.compression(),
            Serializer::Bincode(s) => s.compression(),
        }
    }

    /// The stored form of bytes that the caller has encoded. What is
    /// stored can be read back; bytes that could not be are refused with
    /// `Serialization`.
    pub fn serialize(&self, encoded: &[u8]) -> (r: CacheResult<Vec<u8>>)
        ensures
            match r {
                Ok(v) => frameable(self.compression(), encoded@) && v@ == framed(
                    self.compression(),
                    encoded@,
                ) && unframed(self.compression(), v@) == Some(encoded@),
                Err(e) => e == CacheError::Serialization && !frameable(
                    self.compression(),
                    encoded@,
                ),
            },
    {
        match self {
            Serializer::Json(s) => s.serialize(encoded),
            Serializer::Bincode(s) => s.serialize(encoded),
        }
    }

    /// The encoded bytes inside a stored form, for the caller to decode.
    pub fn deserialize(&self, data: &[u8]) -> (r: CacheResult<Vec<u8>>)
        ensures
            match r {
                Ok(v) => unframed(self.compression(), data@) == Some(v@),
                Err(e) => e == CacheError::Deserialization && unframed(self.compression(), data@)
                    is None,
            },
    {
        match self {
            Serializer::Json(s) => s.deserialize(data),
            Serializer::Bincode(s) => s.deserialize(data),
        }
    }
}

/// The serializer for a format: JSON also where MessagePack is asked for.
pub fn create_serializer(format: SerializationFormat, compression: CompressionType) -> (r:
    Serializer)
    ensures
        r.compression() == compression,
        r is Bincode <==> format == SerializationFormat::Bincode,
{
    match format {
        SerializationFormat::Json => Serializer::Json(JsonSerializer::new(compression)),
        SerializationFormat::Bincode => Serializer::Bincode(BincodeSerializer::new(compression)),
        SerializationFormat::MessagePack => Serializer::Json(JsonSerializer::new(compression)),
    }
}

/// The views of a list of strings.
pub open spec fn strings_view(s: Seq<String>) -> Seq<Seq<char>> {
    Seq::new(s.len(), |i: int| s[i]@)
}

/// An entry envelope as plain values.
pub struct CacheEntryView {
    pub key: Seq<char>,
    pub data: Seq<u8>,
    pub created_at: u64,
    pub accessed_at: u64,
    pub access_count: u64,
    pub size: u64,
    pub tags: Seq<Seq<char>>,
    pub expire_time: Option<u64>,
}

/// The envelope of a cached value: the payload and what is known of it.
#[derive(Debug)]
pub struct CacheEntry {
    pub key: String,
    pub data: Vec<u8>,
    pub created_at: u64,
    pub accessed_at: u64,
    pub access_count: u64,
    pub size: u64,
    pub tags: Vec<String>,
    pub expire_time: Option<u64>,
}

impl View for CacheEntry {
    type V = CacheEntryView;

    open spec fn view(&self) -> CacheEntryView {
        CacheEntryView {
            key: self.key@,
            data: self.data@,
            created_at: self.created_at,
            accessed_at: self.accessed_at,
            access_count: self.access_count,
            size: self.size,
            tags: strings_view(self.tags@),
            expire_time: self.expire_time,
        }
    }
}

impl CacheEntryView {
    /// The envelope of a value first stored at `now`.
    pub open spec fn fresh(
        key: Seq<char>,
        data: Seq<u8>,
        tags: Seq<Seq<char>>,
        expire_time: Option<u64>,
        now: u64,
    ) -> CacheEntryView {
        CacheEntryView {
            key,
            data,
            created_at: now,
            accessed_at: now,
            access_count: 1,
            size: data.len() as u64,
            tags,
            expire_time,
        }
    }

    /// The envelope after one more access at `now`.
    pub open spec fn touched(self, now: u64) -> CacheEntryView {
        CacheEntryView { accessed_at: now, access_count: bump(self.access_count), ..self }
    }

    /// The deadline has passed at `now`. An entry without one never expires.
    pub open spec fn expired_at(self, now: u64) -> bool {
        match self.expire_time {
            Some(t) => now > t,
            None => false,
        }
    }
}

/// A copy of a list of strings.
pub fn clone_strings(v: &Vec<String>) -> (r: Vec<String>)
    ensures
        r@ == v@,
{
    let mut out: Vec<String> = Vec::new();
    let mut i: usize = 0;
    while i < v.len()
        invariant
            i <= v.len(),
            out@ == v@.subrange(0, i as int),
        decreases v.len() - i,
    {
        out.push(v[i].clone());
        assert(out@ == v@.subrange(0, i as int + 1));
        i = i + 1;
    }
    assert(v@.subrange(0, v@.len() as int) == v@);
    out
}

impl CacheEntry {
    /// The envelope of a value stored now: created and last accessed at
    /// the clock's reading, counted as accessed once.
    pub fn new(key: String, data: Vec<u8>, tags: Vec<String>, expire_time: Option<u64>) -> (r:
        Self)
        ensures
            exists|now: u64|
                r@ == #[trigger] CacheEntryView::fresh(
                    key@,
                    data@,
                    strings_view(tags@),
                    expire_time,
                    now,
                ),
    {
        let now = current_timestamp();
        CacheEntry::new_at(key, data, tags, expire_time, now)
    }

    /// The envelope of a value first stored at `now`.
    pub fn new_at(
        key: String,
        data: Vec<u8>,
        tags: Vec<String>,
        expire_time: Option<u64>,
        now: u64,
    ) -> (r: Self)
        ensures
            r@ == CacheEntryView::fresh(key@, data@, strings_view(tags@), expire_time, now),
    {
        let size = data.len() as u64;
        CacheEntry {
            key,
            size,
            data,
            created_at: now,
            accessed_at: now,
            access_count: 1,
            tags,
            expire_time,
        }
    }

    /// Counts one more access, at the clock's reading.
    pub fn update_access(&mut self)
        ensures
            exists|now: u64| final(self)@ == #[trigger] old(self)@.touched(now),
    {
        let now = current_timestamp();
        self.update_access_at(now);
    }

    /// Counts one more access at `now`. The count stays at its largest
    /// value once it is reached.
    pub fn update_access_at(&mut self, now: u64)
        ensures
            final(self)@ == old(self)@.touched(now),
    {
        self.accessed_at = now;
        self.access_count = bump(self.access_count);
    }

    /// Whether the deadline has passed by the clock's reading.
    pub fn is_expired(&self) -> (r: bool)
        ensures
            exists|now: u64| r == #[trigger] self@.expired_at(now),
            self.expire_time is None ==> !r,
    {
        let now = current_timestamp();
        self.is_expired_at(now)
    }

    /// Whether the deadline has passed at `now`.
    pub fn is_expired_at(&self, now: u64) -> (r: bool)
        ensures
            r == self@.expired_at(now),
    {
        match self.expire_time {
            Some(t) => now > t,
            None => false,
        }
    }

    /// A copy with the same contents.
    pub fn duplicate(&self) -> (r: Self)
        ensures
            r@ == self@,
    {
        CacheEntry {
            key: self.key.clone(),
            data: self.data.clone(),
            created_at: self.created_at,
            accessed_at: self.accessed_at,
            access_count: self.access_count,
            size: self.size,
            tags: clone_strings(&self.tags),
            expire_time: self.expire_time,
        }
    }
}

} // verus!
