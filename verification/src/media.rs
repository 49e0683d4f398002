use vstd::prelude::*;

verus! {

/// The kind of media object being planned for transfer.
#[derive(Debug, Clone, Copy, PartialEq, Eq, Structural)]
pub enum MediaKind {
    Image,
    Voice,
}

/// How the media is normalized before encryption.
#[derive(Debug, Clone, Copy, PartialEq, Eq, Structural)]
pub enum MediaNormalization {
    DecodePixelsAndReencode,
    PcmToOpus,
}

/// Reasons a media transfer cannot be planned.
#[derive(Debug, Clone, Copy, PartialEq, Eq, Structural)]
pub enum MediaPlanError {
    EmptyMedia,
    InvalidChunkSize,
}

/// How a plaintext media object of `plaintext_len` bytes is cut into chunks
/// of at most `chunk_size` bytes.
#[derive(Debug, Clone, Copy, PartialEq, Eq, Structural)]
pub struct ChunkPlan {
    pub plaintext_len: usize,
    pub chunk_size: usize,
    pub chunk_count: usize,
}

/// The number of chunks of size `chunk_size` needed to cover `len` bytes:
/// the ceiling of `len / chunk_size`.
pub open spec fn chunks_needed(len: nat, chunk_size: nat) -> nat
    recommends
        chunk_size > 0,
{
    ((len + chunk_size - 1) / (chunk_size as int)) as nat
}

/// The plan that `ChunkPlan::new` computes, or the error it reports.
pub open spec fn spec_chunk_plan(plaintext_len: usize, chunk_size: usize) -> Result<ChunkPlan, MediaPlanError> {
    if plaintext_len == 0 {
        Err(MediaPlanError::EmptyMedia)
    } else if chunk_size == 0 {
        Err(MediaPlanError::InvalidChunkSize)
    } else {
        Ok(ChunkPlan {
            plaintext_len,
            chunk_size,
            chunk_count: chunks_needed(plaintext_len as nat, chunk_size as nat) as usize,
        })
    }
}

impl ChunkPlan {
    /// Plans the chunks of a `plaintext_len`-byte object. Empty media and a zero
    /// chunk size are rejected; otherwise the chunk count is the ceiling of
    /// `plaintext_len / chunk_size`, computed without an overflowing addition.
    pub fn new(plaintext_len: usize, chunk_size: usize) -> (result: Result<Self, MediaPlanError>)
        ensures
            result == spec_chunk_plan(plaintext_len, chunk_size),
            result matches Ok(plan) ==> {
                &&& plan.chunk_count >= 1
                &&& (plan.chunk_count - 1) * chunk_size < plaintext_len
                &&& plaintext_len <= plan.chunk_count * chunk_size
            },
    {
        if plaintext_len == 0 {
            return Err(MediaPlanError::EmptyMedia);
        }
        if chunk_size == 0 {
            return Err(MediaPlanError::InvalidChunkSize);
        }
        let chunk_count = 1 + (plaintext_len - 1) / chunk_size;
        proof {
            lemma_chunk_count(plaintext_len as nat, chunk_size as nat);
        }
        Ok(ChunkPlan { plaintext_len, chunk_size, chunk_count })
    }
}

/// The chunk count `1 + (len - 1) / size` is the ceiling of `len / size`, and
/// the chunks it describes cover `len` bytes with no chunk left empty.
pub proof fn lemma_chunk_count(len: nat, size: nat)
    requires
        len > 0,
        size > 0,
    ensures
        1 + (len - 1) / (size as int) == chunks_needed(len, size),
        (((len - 1) / (size as int)) * size) < len,
        len <= (1 + (len - 1) / (size as int)) * size,
{
    let q = (len - 1) / (size as int);
    let r = (len - 1) % (size as int);
    assert(len - 1 == q * size + r && 0 <= r < size) by (nonlinear_arith)
        requires
            size > 0,
            len > 0,
            q == (len - 1) / (size as int),
            r == (len - 1) % (size as int),
    ;
    assert((len + size - 1) / (size as int) == q + 1) by (nonlinear_arith)
        requires
            len - 1 == q * size + r,
            0 <= r < size,
            size > 0,
    ;
    assert(q * size < len && len <= (1 + q) * size) by (nonlinear_arith)
        requires
            len - 1 == q * size + r,
            0 <= r < size,
    ;
}

/// A planned media transfer: what kind of media, how it is normalized before
/// encryption, and how it is chunked.
#[derive(Debug, Clone, Copy, PartialEq, Eq, Structural)]
pub struct MediaTransferPlan {
    pub kind: MediaKind,
    pub normalization: MediaNormalization,
    pub chunks: ChunkPlan,
}

impl MediaTransferPlan {
    /// Plans an image transfer: images are always decoded to pixels and
    /// re-encoded, so source metadata is not forwarded.
    pub fn image(plaintext_len: usize, chunk_size: usize) -> (result: Result<Self, MediaPlanError>)
        ensures
            result == (match spec_chunk_plan(plaintext_len, chunk_size) {
                Ok(chunks) => Ok(MediaTransferPlan {
                    kind: MediaKind::Image,
                    normalization: MediaNormalization::DecodePixelsAndReencode,
                    chunks,
                }),
                Err(e) => Err(e),
            }),
    {
        Ok(MediaTransferPlan {
            kind: MediaKind::Image,
            normalization: MediaNormalization::DecodePixelsAndReencode,
            chunks: ChunkPlan::new(plaintext_len, chunk_size)?,
        })
    }

    /// Plans a voice transfer: audio is always normalized from PCM to Opus.
    pub fn voice(plaintext_len: usize, chunk_size: usize) -> (result: Result<Self, MediaPlanError>)
        ensures
            result == (match spec_chunk_plan(plaintext_len, chunk_size) {
                Ok(chunks) => Ok(MediaTransferPlan {
                    kind: MediaKind::Voice,
                    normalization: MediaNormalization::PcmToOpus,
                    chunks,
                }),
                Err(e) => Err(e),
            }),
    {
        Ok(MediaTransferPlan {
            kind: MediaKind::Voice,
            normalization: MediaNormalization::PcmToOpus,
            chunks: ChunkPlan::new(plaintext_len, chunk_size)?,
        })
    }
}

} // verus!
