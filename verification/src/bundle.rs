//! The bundle container: a small header describing an Oodle-compressed,
//! block-chunked payload. Parsing and the block layout arithmetic are
//! verified here; the block decoder itself is an external primitive that a
//! source adapter supplies.
use vstd::prelude::*;

use crate::bytes::{le32, le64, lemma_le32_of_bytes, lemma_le64_of_bytes, push_u32_le, push_u64_le, read_u32_at, read_u64_at};
use crate::Error;

verus! {

/// The fixed part of a bundle head, following the three leading `u32`s.
#[derive(Debug, Clone)]
pub struct HeadPayload {
    pub first_file_encode: u32,
    pub unk10: u32,
    pub uncompressed_size: u64,
    pub total_payload_size: u64,
    pub block_count: u32,
    pub uncompressed_block_granularity: u32,
    pub unk28: Vec<u32>,
    pub block_sizes: Vec<u32>,
}

/// A parsed bundle header.
#[derive(Debug, Clone)]
pub struct Bundle {
    pub uncompressed_size: u32,
    pub total_payload_size: u32,
    pub head_payload_size: u32,
    pub head_payload: HeadPayload,
}

impl Bundle {
    /// A well-formed header declares exactly `block_count` block sizes and
    /// four opaque trailing words.
    pub open spec fn wf(self) -> bool {
        &&& self.head_payload.block_sizes@.len() == self.head_payload.block_count
        &&& self.head_payload.unk28@.len() == 4
    }

    /// The number of bytes a serialized header occupies.
    pub open spec fn spec_encoded_len(self) -> int {
        60 + 4 * self.head_payload.block_count
    }
}

/// The correspondence between a header value and its little-endian wire
/// form at `pos` in `data`: every field sits at its fixed offset, with the
/// block sizes trailing.
pub open spec fn header_bytes_match(b: Bundle, data: Seq<u8>, pos: int) -> bool {
    &&& b.wf()
    &&& pos + b.spec_encoded_len() <= data.len()
    &&& b.uncompressed_size == le32(data, pos)
    &&& b.total_payload_size == le32(data, pos + 4)
    &&& b.head_payload_size == le32(data, pos + 8)
    &&& b.head_payload.first_file_encode == le32(data, pos + 12)
    &&& b.head_payload.unk10 == le32(data, pos + 16)
    &&& b.head_payload.uncompressed_size == le64(data, pos + 20)
    &&& b.head_payload.total_payload_size == le64(data, pos + 28)
    &&& b.head_payload.block_count == le32(data, pos + 36)
    &&& b.head_payload.uncompressed_block_granularity == le32(data, pos + 40)
    &&& forall|j: int| 0 <= j < 4 ==> b.head_payload.unk28@[j] == le32(data, pos + 44 + 4 * j)
    &&& forall|j: int|
        0 <= j < b.head_payload.block_count ==> b.head_payload.block_sizes@[j] == le32(
            data,
            pos + 60 + 4 * j,
        )
}

impl Bundle {
    /// Parses a bundle header at `pos`. Succeeds exactly when the data is
    /// long enough for the fixed head and the declared block-size table; the
    /// returned position is the first byte after the header.
    pub fn parse(data: &[u8], pos: usize) -> (r: Result<(Bundle, usize), Error>)
        ensures
            r matches Ok((b, end)) ==> {
                &&& header_bytes_match(b, data@, pos as int)
                &&& end == pos + b.spec_encoded_len()
            },
            r is Ok <==> pos + 60 <= data@.len() && pos + 60 + 4 * (le32(data@, pos as int + 36)
                as int) <= data@.len(),
    {
        let len = data.len();
        if len < 60 || pos > len - 60 {
            return Err(Error::Format);
        }
        let uncompressed_size = read_u32_at(data, pos);
        let total_payload_size = read_u32_at(data, pos + 4);
        let head_payload_size = read_u32_at(data, pos + 8);
        let first_file_encode = read_u32_at(data, pos + 12);
        let unk10 = read_u32_at(data, pos + 16);
        let uncompressed_size_64 = read_u64_at(data, pos + 20);
        let total_payload_size_64 = read_u64_at(data, pos + 28);
        let block_count = read_u32_at(data, pos + 36);
        let uncompressed_block_granularity = read_u32_at(data, pos + 40);
        let mut unk28: Vec<u32> = Vec::new();
        let mut j: usize = 0;
        while j < 4
            invariant
                len == data@.len(),
                pos + 60 <= len,
                j <= 4,
                unk28@.len() == j,
                forall|k: int| 0 <= k < j ==> unk28@[k] == le32(data@, pos + 44 + 4 * k),
            decreases 4 - j,
        {
            unk28.push(read_u32_at(data, pos + 44 + 4 * j));
            j = j + 1;
        }
        let rem = len - pos - 60;
        if (block_count as usize) > rem / 4 {
            return Err(Error::Format);
        }
        let mut block_sizes: Vec<u32> = Vec::new();
        let mut i: usize = 0;
        while i < block_count as usize
            invariant
                len == data@.len(),
                pos + 60 + 4 * (block_count as int) <= len,
                i <= block_count,
                block_sizes@.len() == i,
                forall|k: int| 0 <= k < i ==> block_sizes@[k] == le32(data@, pos + 60 + 4 * k),
            decreases block_count - i,
        {
            block_sizes.push(read_u32_at(data, pos + 60 + 4 * i));
            i = i + 1;
        }
        let end = pos + 60 + 4 * (block_count as usize);
        Ok(
            (
                Bundle {
                    uncompressed_size,
                    total_payload_size,
                    head_payload_size,
                    head_payload: HeadPayload {
                        first_file_encode,
                        unk10,
                        uncompressed_size: uncompressed_size_64,
                        total_payload_size: total_payload_size_64,
                        block_count,
                        uncompressed_block_granularity,
                        unk28,
                        block_sizes,
                    },
                },
                end,
            ),
        )
    }
}


impl Bundle {
    /// Serializes the header to its little-endian wire form; parsing the
    /// result at position zero reads back exactly this header's fields.
    pub fn encode(&self) -> (r: Vec<u8>)
        requires
            self.wf(),
        ensures
            r@.len() == self.spec_encoded_len(),
            header_bytes_match(*self, r@, 0),
    {
        let mut out: Vec<u8> = Vec::new();
        push_u32_le(&mut out, self.uncompressed_size);
        proof {
            lemma_le32_of_bytes(out@, 0, self.uncompressed_size);
        }
        push_u32_le(&mut out, self.total_payload_size);
        proof {
            lemma_le32_of_bytes(out@, 4, self.total_payload_size);
        }
        push_u32_le(&mut out, self.head_payload_size);
        proof {
            lemma_le32_of_bytes(out@, 8, self.head_payload_size);
        }
        push_u32_le(&mut out, self.head_payload.first_file_encode);
        proof {
            lemma_le32_of_bytes(out@, 12, self.head_payload.first_file_encode);
        }
        push_u32_le(&mut out, self.head_payload.unk10);
        proof {
            lemma_le32_of_bytes(out@, 16, self.head_payload.unk10);
        }
        push_u64_le(&mut out, self.head_payload.uncompressed_size);
        proof {
            lemma_le64_of_bytes(out@, 20, self.head_payload.uncompressed_size);
        }
        push_u64_le(&mut out, self.head_payload.total_payload_size);
        proof {
            lemma_le64_of_bytes(out@, 28, self.head_payload.total_payload_size);
        }
        push_u32_le(&mut out, self.head_payload.block_count);
        proof {
            lemma_le32_of_bytes(out@, 36, self.head_payload.block_count);
        }
        push_u32_le(&mut out, self.head_payload.uncompressed_block_granularity);
        proof {
            lemma_le32_of_bytes(out@, 40, self.head_payload.uncompressed_block_granularity);
        }
        let mut j: usize = 0;
        while j < 4
            invariant
                self.wf(),
                j <= 4,
                out@.len() == 44 + 4 * j,
                le32(out@, 0) == self.uncompressed_size,
                le32(out@, 4) == self.total_payload_size,
                le32(out@, 8) == self.head_payload_size,
                le32(out@, 12) == self.head_payload.first_file_encode,
                le32(out@, 16) == self.head_payload.unk10,
                le64(out@, 20) == self.head_payload.uncompressed_size,
                le64(out@, 28) == self.head_payload.total_payload_size,
                le32(out@, 36) == self.head_payload.block_count,
                le32(out@, 40) == self.head_payload.uncompressed_block_granularity,
                forall|k: int| 0 <= k < j ==> le32(out@, 44 + 4 * k) == self.head_payload.unk28@[k],
            decreases 4 - j,
        {
            push_u32_le(&mut out, self.head_payload.unk28[j]);
            proof {
                lemma_le32_of_bytes(out@, 44 + 4 * j as int, self.head_payload.unk28@[j as int]);
            }
            j = j + 1;
        }
        let block_count = self.head_payload.block_count as usize;
        let mut i: usize = 0;
        while i < block_count
            invariant
                self.wf(),
                block_count == self.head_payload.block_count,
                i <= block_count,
                out@.len() == 60 + 4 * i,
                le32(out@, 0) == self.uncompressed_size,
                le32(out@, 4) == self.total_payload_size,
                le32(out@, 8) == self.head_payload_size,
                le32(out@, 12) == self.head_payload.first_file_encode,
                le32(out@, 16) == self.head_payload.unk10,
                le64(out@, 20) == self.head_payload.uncompressed_size,
                le64(out@, 28) == self.head_payload.total_payload_size,
                le32(out@, 36) == self.head_payload.block_count,
                le32(out@, 40) == self.head_payload.uncompressed_block_granularity,
                forall|k: int| 0 <= k < 4 ==> le32(out@, 44 + 4 * k) == self.head_payload.unk28@[k],
                forall|k: int|
                    0 <= k < i ==> le32(out@, 60 + 4 * k) == self.head_payload.block_sizes@[k],
            decreases block_count - i,
        {
            push_u32_le(&mut out, self.head_payload.block_sizes[i]);
            proof {
                lemma_le32_of_bytes(
                    out@,
                    60 + 4 * i as int,
                    self.head_payload.block_sizes@[i as int],
                );
            }
            i = i + 1;
        }
        out
    }
}

/// A header's wire form determines it: two headers that match the same
/// bytes at the same position agree on every field.
pub proof fn lemma_header_encoding_unique(b1: Bundle, b2: Bundle, data: Seq<u8>, pos: int)
    requires
        header_bytes_match(b1, data, pos),
        header_bytes_match(b2, data, pos),
    ensures
        b1.uncompressed_size == b2.uncompressed_size,
        b1.total_payload_size == b2.total_payload_size,
        b1.head_payload_size == b2.head_payload_size,
        b1.head_payload.first_file_encode == b2.head_payload.first_file_encode,
        b1.head_payload.unk10 == b2.head_payload.unk10,
        b1.head_payload.uncompressed_size == b2.head_payload.uncompressed_size,
        b1.head_payload.total_payload_size == b2.head_payload.total_payload_size,
        b1.head_payload.block_count == b2.head_payload.block_count,
        b1.head_payload.uncompressed_block_granularity
            == b2.head_payload.uncompressed_block_granularity,
        b1.head_payload.unk28@ == b2.head_payload.unk28@,
        b1.head_payload.block_sizes@ == b2.head_payload.block_sizes@,
{
    assert(b1.head_payload.unk28@ =~= b2.head_payload.unk28@);
    assert(b1.head_payload.block_sizes@ =~= b2.head_payload.block_sizes@);
}

} // verus!
