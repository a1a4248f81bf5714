//! The `.cact` container: header, codebook, tensor directory and the
//! embedded tokenizer.
use crate::error::CactError;
use crate::le_bytes::{align64, le_value, spec_align64, u32_at, u64_at};
use crate::tokenizer::{parse_tokenizer, tokenizer_from, Tokenizer};
use vstd::prelude::*;

verus! {

pub const TAG: u32 = 0x05E1_2A82;

pub const HEADER_SIZE: usize = 20;

pub const RECORD_SIZE: usize = 44;

pub const DTYPE_FP16: u8 = 1;

pub const DTYPE_FP32: u8 = 2;

pub const DTYPE_CQ: u8 = 3;

pub const DTYPE_RAW: u8 = 4;

/// The fixed header of a model file.
#[derive(Debug, Clone, Copy, PartialEq, Eq, Structural)]
pub struct ModelHeader {
    pub tensor_count: u32,
    pub codebook_len: u32,
    pub kv_window: u32,
    pub kv_bits: u32,
}

/// One entry of the tensor directory.
#[derive(Debug, Clone, Copy, PartialEq, Eq)]
pub struct TensorRecord {
    pub dtype: u8,
    pub shape: [u32; 4],
    pub ndim: u8,
    pub offset: u64,
    pub nbytes: u64,
    pub group_size: u32,
    pub bits: u32,
}

/// A parsed model. It borrows the file bytes.
#[derive(Debug, Clone)]
pub struct CactModel<'a> {
    pub header: ModelHeader,
    pub codebook: &'a [u8],
    pub tensors: Vec<TensorRecord>,
    pub bytes: &'a [u8],
    pub tokenizer: Tokenizer,
}

/// The little-endian `u32` at offset `o`.
pub open spec fn le32(b: Seq<u8>, o: int) -> u32 {
    le_value(b, o, 4) as u32
}

/// The little-endian `u64` at offset `o`.
pub open spec fn le64(b: Seq<u8>, o: int) -> u64 {
    le_value(b, o, 8) as u64
}

/// End of the codebook: the header followed by `codebook_len` 4-byte entries.
pub open spec fn codebook_end(b: Seq<u8>) -> int {
    HEADER_SIZE + 4 * le32(b, 8)
}

/// End of the tensor directory.
pub open spec fn directory_end(b: Seq<u8>) -> int {
    codebook_end(b) + RECORD_SIZE * le32(b, 4)
}

/// Offset of directory entry `i`.
pub open spec fn record_offset(b: Seq<u8>, i: int) -> int {
    codebook_end(b) + RECORD_SIZE * i
}

/// Whether `r` holds the fields stored at directory offset `o`.
pub open spec fn record_matches(r: TensorRecord, b: Seq<u8>, o: int) -> bool {
    &&& r.dtype == b[o]
    &&& r.ndim == b[o + 1]
    &&& r.shape@ == seq![le32(b, o + 4), le32(b, o + 8), le32(b, o + 12), le32(b, o + 16)]
    &&& r.offset == le64(b, o + 20)
    &&& r.nbytes == le64(b, o + 28)
    &&& r.group_size == le32(b, o + 36)
    &&& r.bits == le32(b, o + 40)
}

/// The problem with the directory entry at offset `o`, if any: more than
/// four dimensions, an unknown dtype, or a payload outside the file.
pub open spec fn record_error(b: Seq<u8>, o: int) -> Option<CactError> {
    if b[o + 1] > 4 {
        Some(CactError::BadShape)
    } else if !(DTYPE_FP16 <= b[o] <= DTYPE_RAW) {
        Some(CactError::UnsupportedDtype(b[o]))
    } else if le64(b, o + 20) + le64(b, o + 28) > b.len() {
        Some(CactError::BadBounds)
    } else {
        None
    }
}

/// The first problem among the first `n` directory entries.
pub open spec fn records_error(b: Seq<u8>, n: nat) -> Option<CactError>
    decreases n,
{
    if n == 0 {
        None
    } else {
        match records_error(b, (n - 1) as nat) {
            Some(e) => Some(e),
            None => record_error(b, record_offset(b, n - 1)),
        }
    }
}

/// The first directory entry, at index `k` or later, of dtype RAW.
pub open spec fn first_raw_from(b: Seq<u8>, k: int) -> Option<int>
    decreases le32(b, 4) - k,
{
    if k < 0 || k >= le32(b, 4) {
        None
    } else if b[record_offset(b, k)] == DTYPE_RAW {
        Some(k)
    } else {
        first_raw_from(b, k + 1)
    }
}

/// The payload of directory entry `k`.
pub open spec fn payload(b: Seq<u8>, k: int) -> Seq<u8> {
    let o = record_offset(b, k);
    b.subrange(le64(b, o + 20) as int, le64(b, o + 20) + le64(b, o + 28))
}

/// The first problem with a model file, in the order the reader checks.
pub open spec fn model_error(b: Seq<u8>) -> Option<CactError> {
    if b.len() < HEADER_SIZE {
        Some(CactError::TooShort)
    } else if le32(b, 0) != TAG {
        Some(CactError::BadTag(le32(b, 0)))
    } else if directory_end(b) > b.len() {
        Some(CactError::BadBounds)
    } else if records_error(b, le32(b, 4) as nat) is Some {
        records_error(b, le32(b, 4) as nat)
    } else {
        match first_raw_from(b, 0) {
            None => Some(CactError::MissingTokenizer),
            Some(k) => match tokenizer_from(payload(b, k)) {
                Err(e) => Some(e),
                Ok(_) => None,
            },
        }
    }
}

/// Whether `m` is what the reader makes of the file `b`.
pub open spec fn parsed_from(m: CactModel, b: Seq<u8>) -> bool {
    &&& m.header == ModelHeader {
        tensor_count: le32(b, 4),
        codebook_len: le32(b, 8),
        kv_window: le32(b, 12),
        kv_bits: le32(b, 16),
    }
    &&& m.codebook@ == b.subrange(HEADER_SIZE as int, codebook_end(b))
    &&& m.tensors@.len() == m.header.tensor_count
    &&& forall|i: int|
        0 <= i < m.tensors@.len() ==> record_matches(
            #[trigger] m.tensors@[i],
            b,
            record_offset(b, i),
        )
    &&& m.bytes@ == b
    &&& m.tokenizer.wf()
    &&& first_raw_from(b, 0) matches Some(k) && tokenizer_from(payload(b, k)) == Ok::<
        _,
        CactError,
    >(m.tokenizer@)
}

impl<'a> CactModel<'a> {
    /// Reads a model file.
    pub fn parse(bytes: &'a [u8]) -> (r: Result<Self, CactError>)
        ensures
            match r {
                Err(e) => model_error(bytes@) == Some(e),
                Ok(m) => model_error(bytes@) is None && parsed_from(m, bytes@),
            },
    {
        let len = bytes.len();
        if len < HEADER_SIZE {
            return Err(CactError::TooShort);
        }
        let tag = match u32_at(bytes, 0) {
            Ok(v) => v,
            Err(e) => return Err(e),
        };
        if tag != TAG {
            return Err(CactError::BadTag(tag));
        }
        let tensor_count = match u32_at(bytes, 4) {
            Ok(v) => v,
            Err(e) => return Err(e),
        };
        let codebook_len = match u32_at(bytes, 8) {
            Ok(v) => v,
            Err(e) => return Err(e),
        };
        let kv_window = match u32_at(bytes, 12) {
            Ok(v) => v,
            Err(e) => return Err(e),
        };
        let kv_bits = match u32_at(bytes, 16) {
            Ok(v) => v,
            Err(e) => return Err(e),
        };
        let cb_len_bytes = match (codebook_len as usize).checked_mul(4) {
            Some(v) => v,
            None => return Err(CactError::BadBounds),
        };
        let cb_end = match HEADER_SIZE.checked_add(cb_len_bytes) {
            Some(v) => v,
            None => return Err(CactError::BadBounds),
        };
        let dir_len = match (tensor_count as usize).checked_mul(RECORD_SIZE) {
            Some(v) => v,
            None => return Err(CactError::BadBounds),
        };
        let dir_end = match cb_end.checked_add(dir_len) {
            Some(v) => v,
            None => return Err(CactError::BadBounds),
        };
        if dir_end > len {
            return Err(CactError::BadBounds);
        }
        let mut tensors: Vec<TensorRecord> = Vec::with_capacity(tensor_count as usize);
        let mut i: usize = 0;
        while i < tensor_count as usize
            invariant
                len == bytes@.len(),
                len >= HEADER_SIZE,
                le32(bytes@, 0) == TAG,
                tensor_count == le32(bytes@, 4),
                cb_end == codebook_end(bytes@),
                dir_end == directory_end(bytes@),
                dir_end <= len,
                i <= tensor_count,
                tensors@.len() == i,
                records_error(bytes@, i as nat) is None,
                forall|j: int|
                    0 <= j < i ==> record_matches(
                        #[trigger] tensors@[j],
                        bytes@,
                        record_offset(bytes@, j),
                    ),
            decreases tensor_count - i,
        {
            let o = cb_end + i * RECORD_SIZE;
            let dtype = bytes[o];
            let ndim = bytes[o + 1];
            proof {
                assert(record_offset(bytes@, i as int) == o);
                assert(bytes@[record_offset(bytes@, i as int) + 1] == ndim);
            }
            if ndim > 4 {
                proof {
                    lemma_records_first_error(bytes@, i as nat, tensor_count as nat);
                }
                return Err(CactError::BadShape);
            }
            let s0 = match u32_at(bytes, o + 4) {
                Ok(v) => v,
                Err(e) => return Err(e),
            };
            let s1 = match u32_at(bytes, o + 8) {
                Ok(v) => v,
                Err(e) => return Err(e),
            };
            let s2 = match u32_at(bytes, o + 12) {
                Ok(v) => v,
                Err(e) => return Err(e),
            };
            let s3 = match u32_at(bytes, o + 16) {
                Ok(v) => v,
                Err(e) => return Err(e),
            };
            let offset = match u64_at(bytes, o + 20) {
                Ok(v) => v,
                Err(e) => return Err(e),
            };
            let nbytes = match u64_at(bytes, o + 28) {
                Ok(v) => v,
                Err(e) => return Err(e),
            };
            let group_size = match u32_at(bytes, o + 36) {
                Ok(v) => v,
                Err(e) => return Err(e),
            };
            let bits = match u32_at(bytes, o + 40) {
                Ok(v) => v,
                Err(e) => return Err(e),
            };
            if !(dtype == DTYPE_FP16 || dtype == DTYPE_FP32 || dtype == DTYPE_CQ || dtype
                == DTYPE_RAW) {
                proof {
                    lemma_records_first_error(bytes@, i as nat, tensor_count as nat);
                }
                return Err(CactError::UnsupportedDtype(dtype));
            }
            let end = match offset.checked_add(nbytes) {
                Some(v) => v,
                None => {
                    proof {
                        lemma_records_first_error(bytes@, i as nat, tensor_count as nat);
                    }
                    return Err(CactError::BadBounds);
                },
            };
            if offset > len as u64 || end > len as u64 {
                proof {
                    lemma_records_first_error(bytes@, i as nat, tensor_count as nat);
                }
                return Err(CactError::BadBounds);
            }
            let record = TensorRecord {
                dtype,
                shape: [s0, s1, s2, s3],
                ndim,
                offset,
                nbytes,
                group_size,
                bits,
            };
            assert(record.shape@ =~= seq![s0, s1, s2, s3]);
            tensors.push(record);
            i = i + 1;
        }
        let mut k: usize = 0;
        let mut raw: Option<usize> = None;
        while k < tensors.len()
            invariant_except_break
                raw is None,
            invariant
                tensors@.len() == tensor_count,
                tensor_count == le32(bytes@, 4),
                k <= tensors@.len(),
                forall|j: int|
                    0 <= j < tensors@.len() ==> record_matches(
                        #[trigger] tensors@[j],
                        bytes@,
                        record_offset(bytes@, j),
                    ),
                first_raw_from(bytes@, 0) == first_raw_from(bytes@, k as int),
            ensures
                match raw {
                    Some(r) => r < tensors@.len() && first_raw_from(bytes@, 0) == Some(r as int),
                    None => first_raw_from(bytes@, 0) is None,
                },
            decreases tensors@.len() - k,
        {
            assert(record_matches(tensors@[k as int], bytes@, record_offset(bytes@, k as int)));
            if tensors[k].dtype == DTYPE_RAW {
                raw = Some(k);
                break ;
            }
            k = k + 1;
        }
        let raw_index = match raw {
            Some(r) => r,
            None => return Err(CactError::MissingTokenizer),
        };
        proof {
            lemma_records_ok(bytes@, tensor_count as nat, raw_index as int);
        }
        let t = tensors[raw_index];
        let blob = &bytes[t.offset as usize..(t.offset + t.nbytes) as usize];
        let tokenizer = match parse_tokenizer(blob) {
            Ok(tk) => tk,
            Err(e) => return Err(e),
        };
        Ok(CactModel {
            header: ModelHeader { tensor_count, codebook_len, kv_window, kv_bits },
            codebook: &bytes[HEADER_SIZE..cb_end],
            tensors,
            bytes,
            tokenizer,
        })
    }
}

/// The first problem in the directory is that of the first entry that has one.
proof fn lemma_records_first_error(b: Seq<u8>, i: nat, n: nat)
    requires
        records_error(b, i) is None,
        record_error(b, record_offset(b, i as int)) is Some,
        i < n,
    ensures
        records_error(b, n) == record_error(b, record_offset(b, i as int)),
    decreases n,
{
    if n > i + 1 {
        lemma_records_first_error(b, i, (n - 1) as nat);
    }
}

/// When no entry among the first `n` has a problem, each of them lies within
/// the file.
pub(crate) proof fn lemma_records_ok(b: Seq<u8>, n: nat, k: int)
    requires
        records_error(b, n) is None,
        0 <= k < n,
    ensures
        record_error(b, record_offset(b, k)) is None,
    decreases n,
{
    if k < n - 1 {
        lemma_records_ok(b, (n - 1) as nat, k);
    }
}

/// End of the tensor directory described by a header, rounded up to a
/// multiple of 64 (where tensor payloads may start).
pub fn aligned_directory_end(header: &ModelHeader) -> (r: usize)
    requires
        HEADER_SIZE + 4 * header.codebook_len + RECORD_SIZE * header.tensor_count + 63
            <= usize::MAX,
    ensures
        r == spec_align64(
            HEADER_SIZE + 4 * header.codebook_len + RECORD_SIZE * header.tensor_count,
        ),
{
    align64(
        HEADER_SIZE + header.codebook_len as usize * 4 + header.tensor_count as usize
            * RECORD_SIZE,
    )
}

/// Reading a little-endian field inside the first `n` bytes does not depend
/// on what follows them.
proof fn lemma_le_prefix(b: Seq<u8>, n: int, o: int, k: nat)
    requires
        0 <= o,
        o + k <= n <= b.len(),
    ensures
        le_value(b.take(n), o, k) == le_value(b, o, k),
    decreases k,
{
    if k > 0 {
        lemma_le_prefix(b, n, o + 1, (k - 1) as nat);
    }
}

/// A model file cut short before the end of its tensor directory, or
/// before the end of any tensor's payload, is rejected.
pub proof fn lemma_truncated_file_rejected(b: Seq<u8>, n: int, i: int)
    requires
        model_error(b) is None,
        0 <= n <= b.len(),
        n < directory_end(b) || (0 <= i < le32(b, 4) && n < le64(b, record_offset(b, i) + 20)
            + le64(b, record_offset(b, i) + 28)),
    ensures
        model_error(b.take(n)) is Some,
{
    let p = b.take(n);
    if n >= HEADER_SIZE && model_error(p) is None {
        lemma_le_prefix(b, n, 4, 4);
        lemma_le_prefix(b, n, 8, 4);
        assert(directory_end(p) == directory_end(b));
        assert(n >= directory_end(b));
        assert(records_error(b, le32(b, 4) as nat) is None);
        lemma_records_ok(p, le32(p, 4) as nat, i);
        let o = record_offset(b, i);
        assert(record_offset(p, i) == o);
        assert(o + RECORD_SIZE <= directory_end(b)) by (nonlinear_arith)
            requires
                o == codebook_end(b) + RECORD_SIZE * i,
                directory_end(b) == codebook_end(b) + RECORD_SIZE * le32(b, 4),
                0 <= i < le32(b, 4),
        ;
        lemma_le_prefix(b, n, o + 20, 8);
        lemma_le_prefix(b, n, o + 28, 8);
        assert(p[o + 1] == b[o + 1]);
        assert(p[o] == b[o]);
    }
}

} // verus!
