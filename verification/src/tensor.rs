//! Tensor payloads: locating them, counting their elements, turning stored
//! words into `f32` bit patterns, and the integer layout of codebook-quantized
//! (CQ) tensors.
use crate::error::CactError;
use crate::le_bytes::{le_value, u16_at, u32_at};
use crate::model::{
    lemma_records_ok, model_error, parsed_from, record_offset, records_error, CactModel,
    TensorRecord, DTYPE_CQ, DTYPE_FP16, DTYPE_FP32, DTYPE_RAW,
};
use crate::float_bits::{is_nan, magnitude, negative};
use vstd::prelude::*;

verus! {

/// The sign bit of a half-precision value, placed where single precision has it.
pub open spec fn half_sign(h: u16) -> int {
    if h >= 0x8000 {
        0x8000_0000
    } else {
        0
    }
}

/// The 5-bit exponent field of a half-precision value.
pub open spec fn half_exp(h: u16) -> int {
    (h as int / 1024) % 32
}

/// The 10-bit fraction field of a half-precision value.
pub open spec fn half_frac(h: u16) -> int {
    h as int % 1024
}

/// For a nonzero subnormal fraction `f`, the shift `k` and factor `2^k` that
/// bring `f` into `1024 .. 2048`.
pub open spec fn subnormal_scale(f: int) -> (int, int) {
    if f >= 512 {
        (1, 2)
    } else if f >= 256 {
        (2, 4)
    } else if f >= 128 {
        (3, 8)
    } else if f >= 64 {
        (4, 16)
    } else if f >= 32 {
        (5, 32)
    } else if f >= 16 {
        (6, 64)
    } else if f >= 8 {
        (7, 128)
    } else if f >= 4 {
        (8, 256)
    } else if f >= 2 {
        (9, 512)
    } else {
        (10, 1024)
    }
}

/// The `f32` bit pattern of the value of a half-precision bit pattern: zeros
/// keep their sign, subnormals are normalised, infinities and NaNs keep their
/// payload, normal numbers are re-biased.
pub open spec fn f16_to_f32_bits(h: u16) -> u32 {
    let s = half_sign(h);
    let e = half_exp(h);
    let f = half_frac(h);
    (if e == 0 {
        if f == 0 {
            s
        } else {
            let (k, m) = subnormal_scale(f);
            s + (113 - k) * 0x80_0000 + (f * m - 1024) * 0x2000
        }
    } else if e == 31 {
        s + 0x7f80_0000 + f * 0x2000
    } else {
        s + (e + 112) * 0x80_0000 + f * 0x2000
    }) as u32
}

fn subnormal_scale_of(f: u32) -> (r: (u32, u32))
    requires
        1 <= f < 1024,
    ensures
        r.0 == subnormal_scale(f as int).0,
        r.1 == subnormal_scale(f as int).1,
        1024 <= f * r.1 < 2048,
        1 <= r.0 <= 10,
{
    if f >= 512 {
        (1, 2)
    } else if f >= 256 {
        (2, 4)
    } else if f >= 128 {
        (3, 8)
    } else if f >= 64 {
        (4, 16)
    } else if f >= 32 {
        (5, 32)
    } else if f >= 16 {
        (6, 64)
    } else if f >= 8 {
        (7, 128)
    } else if f >= 4 {
        (8, 256)
    } else if f >= 2 {
        (9, 512)
    } else {
        (10, 1024)
    }
}

/// Widens a half-precision bit pattern to single precision.
pub fn half_to_single_bits(h: u16) -> (r: u32)
    ensures
        r == f16_to_f32_bits(h),
{
    let sign: u32 = if h >= 0x8000 {
        0x8000_0000
    } else {
        0
    };
    let exp: u32 = ((h / 1024) % 32) as u32;
    let frac: u32 = (h % 1024) as u32;
    if exp == 0 {
        if frac == 0 {
            sign
        } else {
            let (k, m) = subnormal_scale_of(frac);
            sign + (113 - k) * 0x80_0000 + (frac * m - 1024) * 0x2000
        }
    } else if exp == 31 {
        sign + 0x7f80_0000 + frac * 0x2000
    } else {
        sign + (exp + 112) * 0x80_0000 + frac * 0x2000
    }
}

/// The product of the first `n` dimensions of a shape.
pub open spec fn shape_product(shape: Seq<u32>, n: int) -> int
    decreases n,
{
    if n <= 0 {
        1
    } else {
        shape_product(shape, n - 1) * shape[n - 1]
    }
}

/// Whether multiplying out the first `n` dimensions, one at a time, leaves
/// `usize` at some step.
pub open spec fn shape_overflows(shape: Seq<u32>, n: int) -> bool
    decreases n,
{
    if n <= 0 {
        false
    } else {
        shape_overflows(shape, n - 1) || shape_product(shape, n) > usize::MAX
    }
}

/// Number of elements of a tensor, or `None` when counting overflows.
pub fn element_count(record: &TensorRecord) -> (r: Option<usize>)
    requires
        record.ndim <= 4,
    ensures
        match r {
            Some(c) => !shape_overflows(record.shape@, record.ndim as int) && c == shape_product(
                record.shape@,
                record.ndim as int,
            ),
            None => shape_overflows(record.shape@, record.ndim as int),
        },
{
    let mut n: usize = 1;
    let mut i: usize = 0;
    while i < record.ndim as usize
        invariant
            record.ndim <= 4,
            record.shape@.len() == 4,
            i <= record.ndim,
            !shape_overflows(record.shape@, i as int),
            n == shape_product(record.shape@, i as int),
        decreases record.ndim - i,
    {
        match n.checked_mul(record.shape[i] as usize) {
            Some(v) => {
                n = v;
            },
            None => {
                proof {
                    lemma_overflow_persists(record.shape@, i + 1, record.ndim as int);
                }
                return None;
            },
        }
        i = i + 1;
    }
    Some(n)
}

proof fn lemma_overflow_persists(shape: Seq<u32>, m: int, n: int)
    requires
        1 <= m <= n,
        shape_product(shape, m) > usize::MAX,
    ensures
        shape_overflows(shape, n),
    decreases n,
{
    if n > m {
        lemma_overflow_persists(shape, m, n - 1);
    }
}

/// The payload of tensor `index`, if the index is in the directory and the
/// payload lies within the file.
pub open spec fn tensor_payload(m: CactModel, index: int) -> Option<Seq<u8>> {
    if index < 0 || index >= m.tensors@.len() {
        None
    } else {
        let t = m.tensors@[index];
        if t.offset + t.nbytes > m.bytes@.len() {
            None
        } else {
            Some(m.bytes@.subrange(t.offset as int, t.offset + t.nbytes))
        }
    }
}

/// Integer layout of a codebook-quantized matrix: `rows` rows of `cols`
/// values, quantized in groups of `group` values after padding each row to
/// `padded` values; every value is a `code_bits`-bit index into a codebook,
/// rows of codes take `packed_row` bytes, and one half-precision norm per
/// group follows at `norm_offset`.
#[derive(Debug, Clone, Copy)]
pub struct CqLayout {
    pub rows: usize,
    pub cols: usize,
    pub group: usize,
    pub padded: usize,
    pub bits: u32,
    pub code_bits: usize,
    pub packed_row: usize,
    pub norm_offset: usize,
    pub codebook_start: usize,
}

/// The checks and sizes of a CQ layout, stated over integers.
pub open spec fn cq_shape_ok(r: TensorRecord) -> bool {
    r.ndim == 2 && r.group_size != 0 && 2 <= r.bits <= 5
}

pub open spec fn cq_padded(r: TensorRecord) -> int {
    (r.shape@[1] + r.group_size - 1) / (r.group_size as int) * r.group_size
}

pub open spec fn cq_code_bits(r: TensorRecord) -> int {
    if r.bits == 5 {
        2
    } else {
        r.bits as int
    }
}

pub open spec fn cq_packed_row(r: TensorRecord) -> int {
    cq_padded(r) * cq_code_bits(r) / 8
}

pub open spec fn cq_norm_offset(r: TensorRecord) -> int {
    r.shape@[0] * cq_packed_row(r)
}

pub open spec fn cq_norms_len(r: TensorRecord) -> int {
    r.shape@[0] * (cq_padded(r) / (r.group_size as int)) * 2
}

/// Whether the layout arithmetic of a CQ record stays within `usize`.
pub open spec fn cq_fits(r: TensorRecord) -> bool {
    cq_shape_ok(r) ==> {
        &&& r.shape@[1] + r.group_size <= usize::MAX
        &&& cq_padded(r) * cq_code_bits(r) <= usize::MAX
        &&& (cq_norm_offset(r) <= usize::MAX ==> cq_norm_offset(r) + cq_norms_len(r)
            <= usize::MAX)
    }
}

/// The first problem with a CQ record whose payload has `blob_len` bytes.
pub open spec fn cq_error(r: TensorRecord, blob_len: int) -> Option<CactError> {
    if !cq_shape_ok(r) {
        Some(CactError::BadShape)
    } else if cq_norm_offset(r) > usize::MAX {
        Some(CactError::BadBounds)
    } else if blob_len < cq_norm_offset(r) + cq_norms_len(r) {
        Some(CactError::BadBounds)
    } else {
        None
    }
}

/// Whether `l` is the layout of CQ record `r`.
pub open spec fn cq_layout_of(l: CqLayout, r: TensorRecord) -> bool {
    &&& l.rows == r.shape@[0]
    &&& l.cols == r.shape@[1]
    &&& l.group == r.group_size
    &&& l.bits == r.bits
    &&& l.padded == cq_padded(r)
    &&& l.code_bits == cq_code_bits(r)
    &&& l.packed_row == cq_packed_row(r)
    &&& l.norm_offset == cq_norm_offset(r)
    &&& l.codebook_start == (if r.bits == 2 {
        0int
    } else if r.bits == 3 {
        4
    } else {
        12
    })
}

impl CqLayout {
    /// Validates a CQ record against the length of its payload.
    pub fn new(r: &TensorRecord, blob_len: usize) -> (res: Result<CqLayout, CactError>)
        requires
            cq_fits(*r),
        ensures
            match res {
                Ok(l) => cq_error(*r, blob_len as int) is None && cq_layout_of(l, *r),
                Err(e) => cq_error(*r, blob_len as int) == Some(e),
            },
    {
        if r.ndim != 2 || r.group_size == 0 || !(r.bits == 2 || r.bits == 3 || r.bits == 4
            || r.bits == 5) {
            return Err(CactError::BadShape);
        }
        let out = r.shape[0] as usize;
        let input = r.shape[1] as usize;
        let group = r.group_size as usize;
        assert(cq_shape_ok(*r));
        assert(input == r.shape@[1] && out == r.shape@[0]);
        assert(r.shape@[1] + r.group_size <= usize::MAX);
        let span = input + group - 1;
        assert((span / group) * group <= span) by (nonlinear_arith)
            requires
                group > 0,
        ;
        let padded = span / group * group;
        let code_bits: usize = if r.bits == 5 {
            2
        } else {
            r.bits as usize
        };
        let packed_row = padded * code_bits / 8;
        let norm_offset = match out.checked_mul(packed_row) {
            Some(v) => v,
            None => return Err(CactError::BadBounds),
        };
        let groups = padded / group;
        assert(out * groups * 2 <= usize::MAX);
        if blob_len < norm_offset + out * groups * 2 {
            return Err(CactError::BadBounds);
        }
        let codebook_start: usize = if r.bits == 2 {
            0
        } else if r.bits == 3 {
            4
        } else {
            12
        };
        Ok(
            CqLayout {
                rows: out,
                cols: input,
                group,
                padded,
                bits: r.bits,
                code_bits,
                packed_row,
                norm_offset,
                codebook_start,
            },
        )
    }
}

/// Bit `pos` of a byte sequence, least significant bit of each byte first.
pub open spec fn bit_at(blob: Seq<u8>, pos: int) -> int {
    ((blob[pos / 8] >> ((pos % 8) as u8)) & 1u8) as int
}

/// The `n`-bit little-endian number whose lowest bit is bit `pos`.
pub open spec fn bits_value(blob: Seq<u8>, pos: int, n: nat) -> int
    decreases n,
{
    if n == 0 {
        0
    } else {
        bit_at(blob, pos) + 2 * bits_value(blob, pos + 1, (n - 1) as nat)
    }
}

/// `2` to the power `n`.
pub open spec fn two_to(n: int) -> int
    decreases n,
{
    if n <= 0 {
        1
    } else {
        2 * two_to(n - 1)
    }
}

/// Position of the first code bit of value `k` of group `group_i` in row `row`.
pub open spec fn code_position(l: CqLayout, row: int, group_i: int, k: int) -> int {
    row * l.packed_row * 8 + group_i * l.group * l.code_bits + k * l.code_bits
}

/// The codebook index of a stored code: 2- to 4-bit codes are used as they
/// are; the ternary layout (5) maps code 3 to entry 0, 0 to 1, 1 to 2 and
/// anything else to 1.
pub open spec fn code_index(l: CqLayout, code: int) -> int {
    if l.bits == 5 {
        if code == 3 {
            0
        } else if code == 0 {
            1
        } else if code == 1 {
            2
        } else {
            1
        }
    } else {
        code
    }
}

impl CqLayout {
    /// The codebook index of value `k` of group `group_i` in row `row`.
    pub fn code_at(&self, blob: &[u8], row: usize, group_i: usize, k: usize) -> (r: usize)
        requires
            1 <= self.code_bits <= 4,
            code_position(*self, row as int, group_i as int, k as int) + self.code_bits
                <= usize::MAX,
            code_position(*self, row as int, group_i as int, k as int) + self.code_bits <= 8
                * blob@.len(),
        ensures
            r == code_index(
                *self,
                bits_value(
                    blob@,
                    code_position(*self, row as int, group_i as int, k as int),
                    self.code_bits as nat,
                ),
            ),
    {
        proof {
            let a = row * self.packed_row * 8;
            let c = group_i * self.group * self.code_bits;
            let d = k * self.code_bits;
            assert(0 <= row * self.packed_row) by (nonlinear_arith);
            assert(0 <= group_i * self.group) by (nonlinear_arith);
            assert(0 <= group_i * self.group * self.code_bits) by (nonlinear_arith);
            assert(0 <= k * self.code_bits) by (nonlinear_arith);
            assert(0 <= row * self.packed_row * 8) by (nonlinear_arith);
            assert(row * self.packed_row <= row * self.packed_row * 8) by (nonlinear_arith);
            assert(group_i * self.group <= group_i * self.group * self.code_bits) by (nonlinear_arith)
                requires
                    self.code_bits >= 1,
            ;
            assert(row * self.packed_row * 8 <= usize::MAX);
            assert(group_i * self.group * self.code_bits <= usize::MAX);
            assert(k * self.code_bits <= usize::MAX);
        }
        let bit = row * self.packed_row * 8 + group_i * self.group * self.code_bits + k
            * self.code_bits;
        let mut idx: usize = 0;
        let mut b: usize = self.code_bits;
        while b > 0
            invariant
                b <= self.code_bits <= 4,
                bit + self.code_bits <= 8 * blob@.len(),
                bit + self.code_bits <= usize::MAX,
                idx < two_to(self.code_bits - b),
                two_to(self.code_bits - b) <= 16,
                idx == bits_value(blob@, bit + b, (self.code_bits - b) as nat),
            decreases b,
        {
            b = b - 1;
            let absolute = bit + b;
            let one = ((blob[absolute / 8] >> ((absolute % 8) as u8)) & 1u8) as usize;
            assert(one <= 1) by {
                let x = blob@[(absolute / 8) as int];
                let s = (absolute % 8) as u8;
                assert((x >> s) & 1u8 <= 1u8) by (bit_vector);
            }
            idx = one + 2 * idx;
            assert(two_to(self.code_bits - b) == 2 * two_to(self.code_bits - b - 1));
            proof {
                reveal_with_fuel(two_to, 5);
            }
        }
        if self.bits == 5 {
            if idx == 3 {
                0
            } else if idx == 0 {
                1
            } else if idx == 1 {
                2
            } else {
                1
            }
        } else {
            idx
        }
    }

    /// The `f32` bit pattern of the norm of group `group_i` in row `row`.
    pub fn norm_bits(&self, blob: &[u8], row: usize, group_i: usize) -> (r: u32)
        requires
            self.group > 0,
            self.norm_offset + (row * (self.padded / self.group) + group_i) * 2 + 2 <= blob@.len(),
        ensures
            r == f16_to_f32_bits(
                le_value(
                    blob@,
                    self.norm_offset + (row * (self.padded / self.group) + group_i) * 2,
                    2,
                ) as u16,
            ),
    {
        let blen = blob.len();
        let groups = self.padded / self.group;
        assert(0 <= row * groups) by (nonlinear_arith);
        let pos = self.norm_offset + (row * groups + group_i) * 2;
        let h = match u16_at(blob, pos) {
            Ok(v) => v,
            Err(_) => 0,
        };
        half_to_single_bits(h)
    }
}

/// What a tensor decodes to before floating-point work: plain `f32` bit
/// patterns, or a quantized payload with its layout and element count.
pub enum TensorData<'a> {
    Words(Vec<u32>),
    Quantized(CqLayout, &'a [u8], usize),
}

/// The words of an FP16 payload, widened to `f32` bit patterns (a trailing
/// odd byte is ignored).
pub open spec fn fp16_words(blob: Seq<u8>) -> Seq<u32> {
    Seq::new(blob.len() / 2, |i: int| f16_to_f32_bits(le_value(blob, 2 * i, 2) as u16))
}

/// The words of an FP32 payload (trailing bytes short of a word are ignored).
pub open spec fn fp32_words(blob: Seq<u8>) -> Seq<u32> {
    Seq::new(blob.len() / 4, |i: int| le_value(blob, 4 * i, 4) as u32)
}

impl<'a> CactModel<'a> {
    /// The payload bytes of tensor `index`.
    pub fn tensor_bytes(&self, index: usize) -> (r: Option<&'a [u8]>)
        requires
            index < self.tensors@.len() ==> self.tensors@[index as int].offset
                + self.tensors@[index as int].nbytes <= u64::MAX,
        ensures
            match r {
                Some(s) => tensor_payload(*self, index as int) == Some(s@),
                None => tensor_payload(*self, index as int) is None,
            },
    {
        if index >= self.tensors.len() {
            return None;
        }
        let t = self.tensors[index];
        let end = t.offset + t.nbytes;
        if end > self.bytes.len() as u64 {
            return None;
        }
        Some(&self.bytes[t.offset as usize..end as usize])
    }

    /// Decodes tensor `index` as far as integers go: FP16 and FP32 payloads
    /// become `f32` bit patterns; a CQ payload is validated and its layout
    /// returned with the element count.
    pub fn tensor_f32_bits(&self, index: usize) -> (r: Result<TensorData<'a>, CactError>)
        requires
            index < self.tensors@.len() ==> {
                let t = self.tensors@[index as int];
                &&& t.offset + t.nbytes <= u64::MAX
                &&& t.ndim <= 4
                &&& cq_fits(t)
            },
        ensures
            index >= self.tensors@.len() ==> r == Err::<TensorData<'a>, CactError>(
                CactError::BadBounds,
            ),
            index < self.tensors@.len() ==> {
                let t = self.tensors@[index as int];
                match tensor_payload(*self, index as int) {
                    None => r == Err::<TensorData<'a>, CactError>(CactError::BadBounds),
                    Some(blob) => if shape_overflows(t.shape@, t.ndim as int) {
                        r == Err::<TensorData<'a>, CactError>(CactError::BadShape)
                    } else if t.dtype == DTYPE_FP16 {
                        r matches Ok(TensorData::Words(w)) && w@ == fp16_words(blob)
                    } else if t.dtype == DTYPE_FP32 {
                        r matches Ok(TensorData::Words(w)) && w@ == fp32_words(blob)
                    } else if t.dtype == DTYPE_CQ {
                        match cq_error(t, blob.len() as int) {
                            Some(e) => r == Err::<TensorData<'a>, CactError>(e),
                            None => r matches Ok(TensorData::Quantized(l, b, c)) && cq_layout_of(
                                l,
                                t,
                            ) && b@ == blob && c == shape_product(t.shape@, t.ndim as int),
                        }
                    } else {
                        r == Err::<TensorData<'a>, CactError>(CactError::UnsupportedDtype(t.dtype))
                    },
                }
            },
    {
        if index >= self.tensors.len() {
            return Err(CactError::BadBounds);
        }
        let record = self.tensors[index];
        let blob = match self.tensor_bytes(index) {
            Some(b) => b,
            None => return Err(CactError::BadBounds),
        };
        let count = match element_count(&record) {
            Some(c) => c,
            None => return Err(CactError::BadShape),
        };
        if record.dtype == DTYPE_FP16 {
            let mut words: Vec<u32> = Vec::new();
            let mut i: usize = 0;
            while i < blob.len() / 2
                invariant
                    i <= blob@.len() / 2,
                    words@ == fp16_words(blob@).take(i as int),
                decreases blob@.len() / 2 - i,
            {
                let h = match u16_at(blob, 2 * i) {
                    Ok(v) => v,
                    Err(_) => 0,
                };
                words.push(half_to_single_bits(h));
                i = i + 1;
                assert(words@ =~= fp16_words(blob@).take(i as int));
            }
            assert(fp16_words(blob@).take(i as int) =~= fp16_words(blob@));
            Ok(TensorData::Words(words))
        } else if record.dtype == DTYPE_FP32 {
            let mut words: Vec<u32> = Vec::new();
            let mut i: usize = 0;
            while i < blob.len() / 4
                invariant
                    i <= blob@.len() / 4,
                    words@ == fp32_words(blob@).take(i as int),
                decreases blob@.len() / 4 - i,
            {
                let w = match u32_at(blob, 4 * i) {
                    Ok(v) => v,
                    Err(_) => 0,
                };
                words.push(w);
                i = i + 1;
                assert(words@ =~= fp32_words(blob@).take(i as int));
            }
            assert(fp32_words(blob@).take(i as int) =~= fp32_words(blob@));
            Ok(TensorData::Words(words))
        } else if record.dtype == DTYPE_CQ {
            match CqLayout::new(&record, blob.len()) {
                Ok(l) => Ok(TensorData::Quantized(l, blob, count)),
                Err(e) => Err(e),
            }
        } else {
            Err(CactError::UnsupportedDtype(record.dtype))
        }
    }
}

/// Every tensor of an accepted model file has at most four dimensions,
/// a known dtype, and a payload that lies inside the file.
pub proof fn lemma_parsed_tensor_in_bounds(m: CactModel, b: Seq<u8>, i: int)
    requires
        model_error(b) is None,
        parsed_from(m, b),
        0 <= i < m.tensors@.len(),
    ensures
        m.tensors@[i].ndim <= 4,
        DTYPE_FP16 <= m.tensors@[i].dtype <= DTYPE_RAW,
        m.tensors@[i].offset + m.tensors@[i].nbytes <= m.bytes@.len(),
        tensor_payload(m, i) is Some,
{
    assert(records_error(b, m.header.tensor_count as nat) is None);
    lemma_records_ok(b, m.header.tensor_count as nat, i);
    assert(crate::model::record_matches(m.tensors@[i], b, record_offset(b, i)));
}

/// Widening a half-precision value keeps its sign, turns NaN into NaN,
/// infinity into infinity and zero into zero, and nothing else into any of
/// these.
pub proof fn lemma_half_widening(h: u16)
    ensures
        negative(f16_to_f32_bits(h)) == (h >= 0x8000),
        is_nan(f16_to_f32_bits(h)) == (half_exp(h) == 31 && half_frac(h) != 0),
        (magnitude(f16_to_f32_bits(h)) == 0x7f80_0000) == (half_exp(h) == 31 && half_frac(h)
            == 0),
        (magnitude(f16_to_f32_bits(h)) == 0) == (half_exp(h) == 0 && half_frac(h) == 0),
{
    let e = half_exp(h);
    let f = half_frac(h);
    if e == 0 && f != 0 {
        let (k, m) = subnormal_scale(f);
        assert(1 <= k <= 10 && 1024 <= f * m < 2048);
    }
}

/// Every code and every norm of a validated CQ layout lies inside the
/// payload it was validated against.
pub proof fn lemma_cq_reads_in_payload(
    l: CqLayout,
    r: TensorRecord,
    blob_len: int,
    row: int,
    group_i: int,
    k: int,
)
    requires
        cq_layout_of(l, r),
        cq_error(r, blob_len) is None,
        0 <= row < l.rows,
        0 <= group_i < l.padded / l.group,
        0 <= k < l.group,
    ensures
        code_position(l, row, group_i, k) + l.code_bits <= 8 * blob_len,
        l.norm_offset + (row * (l.padded / l.group) + group_i) * 2 + 2 <= blob_len,
{
    let p = l.padded as int;
    let g = l.group as int;
    let cb = l.code_bits as int;
    let pr = l.packed_row as int;
    let rows = l.rows as int;
    let q = p / g;
    assert(g > 0);
    assert(q * g <= p) by (nonlinear_arith)
        requires
            g > 0,
            q == p / g,
    ;
    assert(group_i * g + k + 1 <= p) by (nonlinear_arith)
        requires
            0 <= group_i < q,
            0 <= k < g,
            q * g <= p,
    ;
    assert(group_i * g * cb + k * cb + cb <= p * cb) by (nonlinear_arith)
        requires
            group_i * g + k + 1 <= p,
            cb >= 0,
    ;
    assert(p * cb <= 8 * pr + 7) by (nonlinear_arith)
        requires
            pr == p * cb / 8,
            p * cb >= 0,
    ;
    assert(row * pr * 8 + 8 * pr <= rows * pr * 8) by (nonlinear_arith)
        requires
            0 <= row < rows,
            pr >= 0,
    ;
    assert(l.norm_offset == rows * pr);
    assert(rows * q * 2 >= 2) by (nonlinear_arith)
        requires
            rows >= 1,
            q >= 1,
    ;
    assert(row * q + group_i + 1 <= rows * q) by (nonlinear_arith)
        requires
            0 <= row < rows,
            0 <= group_i < q,
    ;
    assert(cq_norms_len(r) == rows * q * 2);
}

/// The number of one bits of `x`.
pub open spec fn ones(x: nat) -> nat
    decreases x,
{
    if x == 0 {
        0
    } else {
        x % 2 + ones(x / 2)
    }
}

/// Whether entry (`j`, `k`) of the Walsh–Hadamard matrix is negative: when
/// `j & k` has an odd number of one bits.
pub fn hadamard_negative(j: usize, k: usize) -> (r: bool)
    ensures
        r == (ones((j & k) as nat) % 2 == 1),
{
    let ghost start = (j & k) as nat;
    let mut x = j & k;
    let mut odd = false;
    while x > 0
        invariant
            ones(start) % 2 == (ones(x as nat) + (if odd { 1nat } else { 0nat })) % 2,
        decreases x,
    {
        let low = x & 1;
        assert(low == x % 2 && x >> 1 == x / 2) by (bit_vector)
            requires
                low == x & 1,
        ;
        if low == 1 {
            odd = !odd;
        }
        x = x >> 1;
    }
    odd
}

/// How many codebook entries the codes narrower than `bits` use, from 2-bit
/// codes up: 2^2 + ... + 2^(bits - 1).
pub open spec fn codebook_entries_below(bits: int) -> int
    decreases bits,
{
    if bits <= 2 {
        0
    } else {
        codebook_entries_below(bits - 1) + two_to(bits - 1)
    }
}

/// The codebooks of 2-, 3- and 4-bit codes lie back to back from entry 0:
/// a layout's `b`-bit codebook starts after all narrower ones and its
/// 2^b entries end before the next width's begin, within the 28 entries of
/// all three.
pub proof fn lemma_codebook_slices(l: CqLayout, r: TensorRecord)
    requires
        cq_layout_of(l, r),
        2 <= r.bits <= 4,
    ensures
        l.codebook_start == codebook_entries_below(r.bits as int),
        l.codebook_start + two_to(r.bits as int) == codebook_entries_below(r.bits + 1),
        codebook_entries_below(5) == 28,
{
    reveal_with_fuel(codebook_entries_below, 4);
    reveal_with_fuel(two_to, 5);
}

} // verus!
