//! The SentencePiece-style tokenizer embedded in a `.cact` model: its blob
//! format, byte-pair merging, encoding and decoding.
use crate::error::CactError;
use crate::float_bits::{f32_gt, is_nan};
use crate::le_bytes::{le_value, u16_at, u32_at};
use crate::text::{chars_of, str_from_utf8, utf8_lossy};
use vstd::prelude::*;
use vstd::utf8::*;

verus! {

broadcast use vstd::utf8::group_utf8_lib;

pub const TOKENIZER_HEADER_SIZE: usize = 24;

pub const TOKENIZER_RECORD_SIZE: usize = 7;

/// Kind of a piece that encodes one raw byte, spelled `<0xHH>`.
pub const KIND_BYTE: u8 = 4;

/// Kind of a user-defined marker piece, matched verbatim before merging.
pub const KIND_MARKER: u8 = 3;

/// One vocabulary entry.
#[derive(Debug, Clone, PartialEq, Eq)]
pub struct TokenizerPiece {
    pub kind: u8,
    pub surface: String,
}

/// A tokenizer read from a `.cact` tokenizer blob. Scores are kept as the
/// bit patterns of their `f32` values.
#[derive(Debug, Clone)]
pub struct Tokenizer {
    pub pad_id: u32,
    pub eos_id: u32,
    pub bos_id: u32,
    pub unk_id: u32,
    pub add_dummy_prefix: bool,
    pub byte_fallback: bool,
    pub pieces: Vec<TokenizerPiece>,
    scores: Vec<u32>,
    byte_ids: Vec<Option<u32>>,
    markers: Vec<(String, u32)>,
    piece_chars: Vec<Vec<char>>,
    marker_chars: Vec<Vec<char>>,
}

/// Mathematical model of a tokenizer.
pub struct TokenizerView {
    pub pad_id: u32,
    pub eos_id: u32,
    pub bos_id: u32,
    pub unk_id: u32,
    pub add_dummy_prefix: bool,
    pub byte_fallback: bool,
    /// Kind and surface text of each piece, indexed by token id.
    pub pieces: Seq<(u8, Seq<char>)>,
    /// `f32` bit pattern of each piece's merge score.
    pub scores: Seq<u32>,
    /// For each byte value, the token id that spells it, if any.
    pub byte_ids: Seq<Option<u32>>,
    /// Marker texts with their ids, longest (in UTF-8 bytes) first.
    pub markers: Seq<(Seq<char>, u32)>,
}

impl View for Tokenizer {
    type V = TokenizerView;

    closed spec fn view(&self) -> TokenizerView {
        TokenizerView {
            pad_id: self.pad_id,
            eos_id: self.eos_id,
            bos_id: self.bos_id,
            unk_id: self.unk_id,
            add_dummy_prefix: self.add_dummy_prefix,
            byte_fallback: self.byte_fallback,
            pieces: self.pieces@.map_values(|p: TokenizerPiece| (p.kind, p.surface@)),
            scores: self.scores@,
            byte_ids: self.byte_ids@,
            markers: self.markers@.map_values(|m: (String, u32)| (m.0@, m.1)),
        }
    }
}

/// One piece record as stored in the blob.
pub struct RawPiece {
    pub score: u32,
    pub kind: u8,
    pub bytes: Seq<u8>,
}

/// Value of an ASCII hexadecimal digit.
pub open spec fn hex_digit(c: u8) -> Option<u8> {
    if 0x30 <= c <= 0x39 {
        Some((c - 0x30) as u8)
    } else if 0x61 <= c <= 0x66 {
        Some((c - 0x61 + 10) as u8)
    } else if 0x41 <= c <= 0x46 {
        Some((c - 0x41 + 10) as u8)
    } else {
        None
    }
}

/// `u8::from_str_radix(text, 16)` on the two-byte text `a b`: an optional
/// leading `+` followed by hexadecimal digits.
pub open spec fn hex_pair(a: u8, b: u8) -> Option<u8> {
    if a == 0x2b {
        hex_digit(b)
    } else {
        match (hex_digit(a), hex_digit(b)) {
            (Some(x), Some(y)) => Some((16 * x + y) as u8),
            _ => None,
        }
    }
}

/// The byte that a byte piece spelled `<0xHH>` stands for.
pub open spec fn byte_piece_value(kind: u8, b: Seq<u8>) -> Option<u8> {
    if kind == KIND_BYTE && b.len() == 6 && b[0] == 0x3c && b[1] == 0x30 && b[2] == 0x78 && b[5]
        == 0x3e {
        hex_pair(b[3], b[4])
    } else {
        None
    }
}

/// Parses the piece record at offset `o`, giving the piece and the offset
/// just past it.
pub open spec fn piece_at(b: Seq<u8>, o: int) -> Result<(RawPiece, int), CactError> {
    if o + 7 > b.len() {
        Err(CactError::BadBounds)
    } else {
        let end = o + 7 + le_value(b, o + 5, 2);
        if end > b.len() {
            Err(CactError::BadBounds)
        } else if !valid_utf8(b.subrange(o + 7, end)) {
            Err(CactError::BadUtf8)
        } else {
            Ok(
                (
                    RawPiece {
                        score: le_value(b, o, 4) as u32,
                        kind: b[o + 4],
                        bytes: b.subrange(o + 7, end),
                    },
                    end,
                ),
            )
        }
    }
}

/// Parses `count` consecutive piece records starting at offset `o`; the
/// first failing record decides the error.
pub open spec fn pieces_from(b: Seq<u8>, o: int, count: nat) -> Result<
    Seq<RawPiece>,
    CactError,
>
    decreases count,
{
    if count == 0 {
        Ok(seq![])
    } else {
        match piece_at(b, o) {
            Err(e) => Err(e),
            Ok((p, next)) => match pieces_from(b, next, (count - 1) as nat) {
                Err(e) => Err(e),
                Ok(ps) => Ok(seq![p] + ps),
            },
        }
    }
}

/// Puts `done` in front of a successful result.
pub open spec fn prepend_pieces(done: Seq<RawPiece>, r: Result<Seq<RawPiece>, CactError>) -> Result<
    Seq<RawPiece>,
    CactError,
> {
    match r {
        Ok(ps) => Ok(done + ps),
        Err(e) => Err(e),
    }
}

/// The id of the last byte piece that stands for byte `v`.
pub open spec fn byte_id(raw: Seq<RawPiece>, v: u8) -> Option<u32>
    decreases raw.len(),
{
    if raw.len() == 0 {
        None
    } else if byte_piece_value(raw.last().kind, raw.last().bytes) == Some(v) {
        Some((raw.len() - 1) as u32)
    } else {
        byte_id(raw.drop_last(), v)
    }
}

/// Length of a text in UTF-8 bytes.
pub open spec fn byte_len(s: Seq<char>) -> nat {
    encode_utf8(s).len()
}

/// Where a marker of byte length `l` goes in a list sorted longest first:
/// after every entry at least as long.
pub open spec fn insert_pos(ms: Seq<(Seq<char>, u32)>, l: nat) -> nat
    decreases ms.len(),
{
    if ms.len() == 0 {
        0
    } else if byte_len(ms[0].0) < l {
        0
    } else {
        1 + insert_pos(ms.drop_first(), l)
    }
}

/// The marker list of a piece sequence: its marker pieces ordered by
/// decreasing byte length, ties in id order.
pub open spec fn marker_list(raw: Seq<RawPiece>) -> Seq<(Seq<char>, u32)>
    decreases raw.len(),
{
    if raw.len() == 0 {
        seq![]
    } else {
        let prev = marker_list(raw.drop_last());
        let p = raw.last();
        if p.kind == KIND_MARKER {
            let m = (decode_utf8(p.bytes), (raw.len() - 1) as u32);
            prev.insert(insert_pos(prev, byte_len(m.0)) as int, m)
        } else {
            prev
        }
    }
}

/// The tokenizer described by a parsed header and piece list.
pub open spec fn tokenizer_model(b: Seq<u8>, raw: Seq<RawPiece>) -> TokenizerView {
    TokenizerView {
        pad_id: le_value(b, 4, 4) as u32,
        eos_id: le_value(b, 8, 4) as u32,
        bos_id: le_value(b, 12, 4) as u32,
        unk_id: le_value(b, 16, 4) as u32,
        add_dummy_prefix: b[20] != 0,
        byte_fallback: b[21] != 0,
        pieces: raw.map_values(|p: RawPiece| (p.kind, decode_utf8(p.bytes))),
        scores: raw.map_values(|p: RawPiece| p.score),
        byte_ids: Seq::new(256, |v: int| byte_id(raw, v as u8)),
        markers: marker_list(raw),
    }
}

/// What reading a tokenizer blob gives: the tokenizer, or the first problem
/// found in it.
pub open spec fn tokenizer_from(b: Seq<u8>) -> Result<TokenizerView, CactError> {
    if b.len() < TOKENIZER_HEADER_SIZE {
        Err(CactError::TooShort)
    } else {
        match pieces_from(b, 24, le_value(b, 0, 4)) {
            Err(e) => Err(e),
            Ok(raw) => Ok(tokenizer_model(b, raw)),
        }
    }
}

impl Tokenizer {
    /// Internal consistency of the private tables with the public pieces.
    pub closed spec fn wf(&self) -> bool {
        &&& self.scores@.len() == self.pieces@.len()
        &&& self.piece_chars@.len() == self.pieces@.len()
        &&& self.pieces@.len() <= 0x1_0000_0000
        &&& forall|i: int|
            0 <= i < self.pieces@.len() ==> #[trigger] self.piece_chars@[i]@
                == self.pieces@[i].surface@
        &&& self.byte_ids@.len() == 256
        &&& self.marker_chars@.len() == self.markers@.len()
        &&& forall|i: int|
            0 <= i < self.markers@.len() ==> byte_len(#[trigger] self.markers@[i].0@) <= usize::MAX
        &&& forall|i: int|
            0 <= i < self.markers@.len() ==> #[trigger] self.marker_chars@[i]@
                == self.markers@[i].0@
    }
}

impl Tokenizer {
    /// Adds a marker piece, keeping the markers longest first and, among
    /// equally long ones, in the order they were added.
    fn add_marker(&mut self, text: &str, id: u32, nbytes: usize)
        requires
            old(self).wf(),
            byte_len(text@) == nbytes,
        ensures
            final(self).wf(),
            final(self)@ == (TokenizerView {
                markers: old(self)@.markers.insert(
                    insert_pos(old(self)@.markers, nbytes as nat) as int,
                    (text@, id),
                ),
                ..old(self)@
            }),
    {
        let pos = marker_insert_pos(&self.markers, nbytes);
        let ghost old_markers = self.markers@;
        let ghost old_chars = self.marker_chars@;
        self.markers.insert(pos, (text.to_owned(), id));
        self.marker_chars.insert(pos, chars_of(text));
        proof {
            assert(self.markers@ == old_markers.insert(pos as int, self.markers@[pos as int]));
            assert(self@.markers =~= old(self)@.markers.insert(pos as int, (text@, id)));
            assert(forall|i: int|
                0 <= i < self.markers@.len() ==> #[trigger] self.marker_chars@[i]@
                    == self.markers@[i].0@) by {
                assert forall|i: int| 0 <= i < self.markers@.len() implies #[trigger]
                    self.marker_chars@[i]@ == self.markers@[i].0@ by {
                    if i < pos {
                        assert(self.markers@[i] == old_markers[i]);
                        assert(self.marker_chars@[i] == old_chars[i]);
                    } else if i > pos {
                        assert(self.markers@[i] == old_markers[i - 1]);
                        assert(self.marker_chars@[i] == old_chars[i - 1]);
                    }
                }
            }
            assert forall|i: int| 0 <= i < self.markers@.len() implies byte_len(
                #[trigger] self.markers@[i].0@,
            ) <= usize::MAX by {
                if i < pos {
                    assert(self.markers@[i] == old_markers[i]);
                } else if i > pos {
                    assert(self.markers@[i] == old_markers[i - 1]);
                }
            }
        }
    }

    /// Appends a piece with its score.
    fn add_piece(&mut self, kind: u8, surface: String, chars: Vec<char>, score: u32)
        requires
            old(self).wf(),
            chars@ == surface@,
            old(self).pieces@.len() < 0x1_0000_0000,
        ensures
            final(self).wf(),
            final(self).pieces@.len() == old(self).pieces@.len() + 1,
            final(self)@ == (TokenizerView {
                pieces: old(self)@.pieces.push((kind, surface@)),
                scores: old(self)@.scores.push(score),
                ..old(self)@
            }),
    {
        let ghost old_pieces = self.pieces@;
        let ghost sv = surface@;
        self.scores.push(score);
        self.pieces.push(TokenizerPiece { kind, surface });
        self.piece_chars.push(chars);
        proof {
            let f = |p: TokenizerPiece| (p.kind, p.surface@);
            assert(self.pieces@ =~= old_pieces.push(TokenizerPiece { kind, surface: self.pieces@.last().surface }));
            assert(self.pieces@.map_values(f) =~= old_pieces.map_values(f).push((kind, sv)));
        }
    }
}

/// The byte value spelled by a `<0xHH>` piece text, as the tokenizer reader
/// recognises it.
fn byte_piece_of(kind: u8, b: &[u8]) -> (r: Option<u8>)
    ensures
        r == byte_piece_value(kind, b@),
{
    if kind == KIND_BYTE && b.len() == 6 && b[0] == 0x3c && b[1] == 0x30 && b[2] == 0x78 && b[5]
        == 0x3e {
        parse_hex_pair(b[3], b[4])
    } else {
        None
    }
}

fn parse_hex_digit(c: u8) -> (r: Option<u8>)
    ensures
        r == hex_digit(c),
{
    if 0x30 <= c && c <= 0x39 {
        Some(c - 0x30)
    } else if 0x61 <= c && c <= 0x66 {
        Some(c - 0x61 + 10)
    } else if 0x41 <= c && c <= 0x46 {
        Some(c - 0x41 + 10)
    } else {
        None
    }
}

/// Parses the two-byte text `a b` as a hexadecimal `u8`.
pub fn parse_hex_pair(a: u8, b: u8) -> (r: Option<u8>)
    ensures
        r == hex_pair(a, b),
{
    if a == 0x2b {
        parse_hex_digit(b)
    } else {
        match (parse_hex_digit(a), parse_hex_digit(b)) {
            (Some(x), Some(y)) => Some(16 * x + y),
            _ => None,
        }
    }
}

proof fn lemma_pieces_step(b: Seq<u8>, o: int, count: nat, done: Seq<RawPiece>)
    requires
        count > 0,
        piece_at(b, o) is Ok,
    ensures
        ({
            let (p, next) = piece_at(b, o)->Ok_0;
            prepend_pieces(done, pieces_from(b, o, count)) == prepend_pieces(
                done.push(p),
                pieces_from(b, next, (count - 1) as nat),
            )
        }),
{
    let (p, next) = piece_at(b, o)->Ok_0;
    match pieces_from(b, next, (count - 1) as nat) {
        Ok(ps) => {
            assert(done + (seq![p] + ps) =~= done.push(p) + ps);
        },
        Err(e) => {},
    }
}

/// Where a new marker of `l` bytes goes in the current (sorted) marker list.
fn marker_insert_pos(markers: &Vec<(String, u32)>, l: usize) -> (r: usize)
    requires
        forall|i: int|
            0 <= i < markers@.len() ==> byte_len(#[trigger] markers@[i].0@) <= usize::MAX,
    ensures
        r == insert_pos(markers@.map_values(|m: (String, u32)| (m.0@, m.1)), l as nat),
        r <= markers@.len(),
{
    let ghost ms = markers@.map_values(|m: (String, u32)| (m.0@, m.1));
    let mut i: usize = 0;
    assert(ms.skip(0) =~= ms);
    while i < markers.len()
        invariant
            i <= markers@.len(),
            forall|i: int|
                0 <= i < markers@.len() ==> byte_len(#[trigger] markers@[i].0@) <= usize::MAX,
            ms == markers@.map_values(|m: (String, u32)| (m.0@, m.1)),
            insert_pos(ms, l as nat) == i + insert_pos(ms.skip(i as int), l as nat),
        decreases markers@.len() - i,
    {
        let ml = markers[i].0.as_str().len();
        proof {
            assert(ms[i as int].0 == markers@[i as int].0@);
            assert(ms.skip(i as int)[0] == ms[i as int]);
            assert(ms.skip(i as int).drop_first() =~= ms.skip(i + 1));
        }
        if ml < l {
            assert(byte_len(ms.skip(i as int)[0].0) < l);
            assert(insert_pos(ms.skip(i as int), l as nat) == 0);
            return i;
        }
        i = i + 1;
    }
    i
}

/// Reads a tokenizer blob.
pub fn parse_tokenizer(b: &[u8]) -> (r: Result<Tokenizer, CactError>)
    ensures
        match r {
            Ok(t) => t.wf() && tokenizer_from(b@) == Ok::<TokenizerView, CactError>(t@),
            Err(e) => tokenizer_from(b@) == Err::<TokenizerView, CactError>(e),
        },
{
    if b.len() < TOKENIZER_HEADER_SIZE {
        return Err(CactError::TooShort);
    }
    let n = match u32_at(b, 0) {
        Ok(v) => v,
        Err(e) => return Err(e),
    };
    let pad_id = match u32_at(b, 4) {
        Ok(v) => v,
        Err(e) => return Err(e),
    };
    let eos_id = match u32_at(b, 8) {
        Ok(v) => v,
        Err(e) => return Err(e),
    };
    let bos_id = match u32_at(b, 12) {
        Ok(v) => v,
        Err(e) => return Err(e),
    };
    let unk_id = match u32_at(b, 16) {
        Ok(v) => v,
        Err(e) => return Err(e),
    };
    let mut byte_ids: Vec<Option<u32>> = Vec::new();
    let mut v: usize = 0;
    while v < 256
        invariant
            v <= 256,
            byte_ids@ == Seq::new(v as nat, |k: int| None::<u32>),
        decreases 256 - v,
    {
        byte_ids.push(None);
        v = v + 1;
        assert(byte_ids@ =~= Seq::new(v as nat, |k: int| None::<u32>));
    }
    let mut out = Tokenizer {
        pad_id,
        eos_id,
        bos_id,
        unk_id,
        add_dummy_prefix: b[20] != 0,
        byte_fallback: b[21] != 0,
        pieces: Vec::new(),
        scores: Vec::new(),
        byte_ids,
        markers: Vec::new(),
        piece_chars: Vec::new(),
        marker_chars: Vec::new(),
    };
    let ghost mut done: Seq<RawPiece> = seq![];
    let mut o: usize = TOKENIZER_HEADER_SIZE;
    let mut id: u32 = 0;
    assert(out.byte_ids@ =~= Seq::new(256, |v: int| byte_id(done, v as u8)));
    while id < n
        invariant
            o <= b@.len(),
            id <= n,
            n == le_value(b@, 0, 4),
            b@.len() >= TOKENIZER_HEADER_SIZE,
            done.len() == id,
            pieces_from(b@, 24, n as nat) == prepend_pieces(
                done,
                pieces_from(b@, o as int, (n - id) as nat),
            ),
            out.wf(),
            out.pad_id == le_value(b@, 4, 4),
            out.eos_id == le_value(b@, 8, 4),
            out.bos_id == le_value(b@, 12, 4),
            out.unk_id == le_value(b@, 16, 4),
            out.add_dummy_prefix == (b@[20] != 0),
            out.byte_fallback == (b@[21] != 0),
            out@.pieces == done.map_values(|p: RawPiece| (p.kind, decode_utf8(p.bytes))),
            out@.scores == done.map_values(|p: RawPiece| p.score),
            out@.byte_ids == Seq::new(256, |v: int| byte_id(done, v as u8)),
            out@.markers == marker_list(done),
        decreases n - id,
    {
        let rec_end = match o.checked_add(TOKENIZER_RECORD_SIZE) {
            Some(e) => e,
            None => {
                assert(b@.len() == b.len());
                return Err(CactError::BadBounds);
            },
        };
        if rec_end > b.len() {
            assert(piece_at(b@, o as int) == Err::<(RawPiece, int), CactError>(CactError::BadBounds));
            return Err(CactError::BadBounds);
        }
        let score = match u32_at(b, o) {
            Ok(v) => v,
            Err(e) => return Err(e),
        };
        let kind = b[o + 4];
        let len = match u16_at(b, o + 5) {
            Ok(v) => v,
            Err(e) => return Err(e),
        };
        let start = rec_end;
        let end = match start.checked_add(len as usize) {
            Some(e) => e,
            None => {
                assert(piece_at(b@, o as int) == Err::<(RawPiece, int), CactError>(
                    CactError::BadBounds,
                ));
                return Err(CactError::BadBounds);
            },
        };
        if end > b.len() {
            assert(piece_at(b@, o as int) == Err::<(RawPiece, int), CactError>(CactError::BadBounds));
            return Err(CactError::BadBounds);
        }
        let piece_bytes = &b[start..end];
        let text = match str_from_utf8(piece_bytes) {
            Some(s) => s,
            None => {
                assert(piece_at(b@, o as int) == Err::<(RawPiece, int), CactError>(
                    CactError::BadUtf8,
                ));
                return Err(CactError::BadUtf8);
            },
        };
        let ghost p = RawPiece { score, kind, bytes: piece_bytes@ };
        assert(piece_at(b@, o as int) == Ok::<(RawPiece, int), CactError>((p, end as int)));
        proof {
            lemma_pieces_step(b@, o as int, (n - id) as nat, done);
        }
        let surface = text.to_owned();
        let chars = chars_of(text);
        proof {
            decode_utf8_encode_utf8(piece_bytes@);
        }
        match byte_piece_of(kind, piece_bytes) {
            Some(value) => {
                out.byte_ids.set(value as usize, Some(id));
            },
            None => {},
        }
        if kind == KIND_MARKER {
            out.add_marker(text, id, piece_bytes.len());
        }
        out.add_piece(kind, surface, chars, score);
        proof {
            let f = |p: RawPiece| (p.kind, decode_utf8(p.bytes));
            let g = |p: RawPiece| p.score;
            let old_done = done;
            done = done.push(p);
            assert(done.drop_last() =~= old_done);
            assert(done.map_values(f) =~= old_done.map_values(f).push(f(p)));
            assert(done.map_values(g) =~= old_done.map_values(g).push(g(p)));
            assert(out@.byte_ids =~= Seq::new(256, |v: int| byte_id(done, v as u8)));
        }
        o = end;
        id = id + 1;
    }
    assert(done =~= done + seq![]);
    Ok(out)
}


/// The first piece id, at index `i` or later, whose surface is `s`.
pub open spec fn piece_id_from(ps: Seq<(u8, Seq<char>)>, s: Seq<char>, i: int) -> Option<int>
    decreases ps.len() - i,
{
    if i < 0 || i >= ps.len() {
        None
    } else if ps[i].1 == s {
        Some(i)
    } else {
        piece_id_from(ps, s, i + 1)
    }
}

/// The first piece id whose surface is `s`.
pub open spec fn piece_id(t: TokenizerView, s: Seq<char>) -> Option<int> {
    piece_id_from(t.pieces, s, 0)
}

/// Scans adjacent symbol pairs from position `i` on and keeps the first
/// pair whose concatenation is a piece with a strictly greater score than
/// the best so far (`best`: score bits and position).
pub open spec fn best_merge_from(
    t: TokenizerView,
    syms: Seq<Seq<char>>,
    i: int,
    best: Option<(u32, int)>,
) -> Option<(u32, int)>
    decreases syms.len() - i,
{
    if i < 0 || i + 1 >= syms.len() {
        best
    } else {
        let next = match piece_id(t, syms[i] + syms[i + 1]) {
            Some(id) => {
                let score = t.scores[id];
                match best {
                    None => Some((score, i)),
                    Some((s, _)) => if f32_gt(score, s) {
                        Some((score, i))
                    } else {
                        best
                    },
                }
            },
            None => best,
        };
        best_merge_from(t, syms, i + 1, next)
    }
}

/// Replaces symbols `i` and `i + 1` by their concatenation.
pub open spec fn merge_at(syms: Seq<Seq<char>>, i: int) -> Seq<Seq<char>> {
    syms.take(i) + seq![syms[i] + syms[i + 1]] + syms.skip(i + 2)
}

/// Repeatedly merges the best-scoring adjacent pair until no pair is a piece.
pub open spec fn bpe_merge(t: TokenizerView, syms: Seq<Seq<char>>) -> Seq<Seq<char>>
    decreases syms.len(),
{
    if syms.len() <= 1 {
        syms
    } else {
        match best_merge_from(t, syms, 0, None) {
            None => syms,
            Some((_, i)) => if 0 <= i < syms.len() - 1 {
                bpe_merge(t, merge_at(syms, i))
            } else {
                syms
            },
        }
    }
}

/// Token ids for the UTF-8 bytes of a symbol that is not a piece.
pub open spec fn fallback_ids(t: TokenizerView, bytes: Seq<u8>) -> Seq<u32>
    decreases bytes.len(),
{
    if bytes.len() == 0 {
        seq![]
    } else {
        fallback_ids(t, bytes.drop_last()) + match t.byte_ids[bytes.last() as int] {
            Some(id) => seq![id],
            None => seq![],
        }
    }
}

/// Token ids for one merged symbol.
pub open spec fn symbol_ids(t: TokenizerView, s: Seq<char>) -> Seq<u32> {
    match piece_id(t, s) {
        Some(id) => seq![id as u32],
        None => if t.byte_fallback {
            fallback_ids(t, encode_utf8(s))
        } else {
            seq![t.unk_id]
        },
    }
}

/// Token ids of a sequence of symbols, in order.
pub open spec fn ids_of(t: TokenizerView, syms: Seq<Seq<char>>) -> Seq<u32>
    decreases syms.len(),
{
    if syms.len() == 0 {
        seq![]
    } else {
        ids_of(t, syms.drop_last()) + symbol_ids(t, syms.last())
    }
}

/// One symbol per character.
pub open spec fn singletons(seg: Seq<char>) -> Seq<Seq<char>> {
    Seq::new(seg.len(), |i: int| seq![seg[i]])
}

/// Byte-pair encoding of a text segment.
pub open spec fn spec_bpe(t: TokenizerView, seg: Seq<char>) -> Seq<u32> {
    ids_of(t, bpe_merge(t, singletons(seg)))
}

/// The character that stands for a space inside pieces.
pub open spec fn space_mark() -> char {
    '\u{2581}'
}

/// A space becomes the space mark.
pub open spec fn escape_char(c: char) -> char {
    if c == ' ' {
        space_mark()
    } else {
        c
    }
}

/// The space mark becomes a space.
pub open spec fn unescape_char(c: char) -> char {
    if c == space_mark() {
        ' '
    } else {
        c
    }
}

/// The text with spaces replaced by the space mark, and the mark put in
/// front when the tokenizer adds a dummy prefix.
pub open spec fn escape(t: TokenizerView, text: Seq<char>) -> Seq<char> {
    let e = text.map_values(|c: char| escape_char(c));
    if t.add_dummy_prefix {
        seq![space_mark()] + e
    } else {
        e
    }
}

/// Whether `rest` starts with `m`.
pub open spec fn starts_with(rest: Seq<char>, m: Seq<char>) -> bool {
    m.len() <= rest.len() && rest.take(m.len() as int) == m
}

/// The first marker, at index `k` or later, that `rest` starts with.
pub open spec fn first_marker_from(ms: Seq<(Seq<char>, u32)>, rest: Seq<char>, k: int) -> Option<
    int,
>
    decreases ms.len() - k,
{
    if k < 0 || k >= ms.len() {
        None
    } else if starts_with(rest, ms[k].0) {
        Some(k)
    } else {
        first_marker_from(ms, rest, k + 1)
    }
}

/// Whether scanning `rest` for markers ends: it does unless it reaches a
/// position where the first matching marker is empty.
pub open spec fn scan_ends(t: TokenizerView, rest: Seq<char>) -> bool
    decreases rest.len(),
{
    if rest.len() == 0 {
        true
    } else {
        match first_marker_from(t.markers, rest, 0) {
            Some(k) => if 0 <= k < t.markers.len() && 0 < t.markers[k].0.len() <= rest.len() {
                scan_ends(t, rest.skip(t.markers[k].0.len() as int))
            } else {
                false
            },
            None => scan_ends(t, rest.drop_first()),
        }
    }
}

/// Encoding of the remaining escaped text `rest`, with `buf` the pending
/// characters since the last marker.
pub open spec fn encode_from(t: TokenizerView, rest: Seq<char>, buf: Seq<char>) -> Seq<u32>
    decreases rest.len(),
{
    if rest.len() == 0 {
        spec_bpe(t, buf)
    } else {
        match first_marker_from(t.markers, rest, 0) {
            Some(k) => if 0 <= k < t.markers.len() && 0 < t.markers[k].0.len() <= rest.len() {
                spec_bpe(t, buf) + seq![t.markers[k].1] + encode_from(
                    t,
                    rest.skip(t.markers[k].0.len() as int),
                    seq![],
                )
            } else {
                seq![]
            },
            None => encode_from(t, rest.drop_first(), buf.push(rest[0])),
        }
    }
}

/// The token ids of a text.
pub open spec fn spec_encode(t: TokenizerView, text: Seq<char>) -> Seq<u32> {
    if text.len() == 0 {
        seq![]
    } else {
        encode_from(t, escape(t, text), seq![])
    }
}

/// Whether encoding `text` terminates (it loops forever on a nonempty text
/// when an empty marker is reached).
pub open spec fn encode_ends(t: TokenizerView, text: Seq<char>) -> bool {
    text.len() == 0 || scan_ends(t, escape(t, text))
}

/// The bytes that one token id contributes to decoded text.
pub open spec fn piece_output(t: TokenizerView, id: u32) -> Seq<u8> {
    if id >= t.pieces.len() {
        seq![]
    } else {
        let kind = t.pieces[id as int].0;
        let b = encode_utf8(t.pieces[id as int].1);
        if kind == KIND_BYTE {
            match hex_pair(b[3], b[4]) {
                Some(v) => seq![v],
                None => seq![],
            }
        } else if kind != 1 && kind != 2 {
            b
        } else {
            seq![]
        }
    }
}

/// The bytes of decoded text.
pub open spec fn decode_bytes(t: TokenizerView, ids: Seq<u32>) -> Seq<u8>
    decreases ids.len(),
{
    if ids.len() == 0 {
        seq![]
    } else {
        decode_bytes(t, ids.drop_last()) + piece_output(t, ids.last())
    }
}

/// Whether byte 3 up to byte 5 of a text can be cut out on character
/// boundaries.
pub open spec fn hex_slice_ok(b: Seq<u8>) -> bool {
    b.len() >= 5 && !is_continuation_byte(b[3]) && (b.len() == 5 || !is_continuation_byte(b[5]))
}

/// Whether decoding `ids` reads only byte pieces whose hex digits can be cut
/// out (decoding panics otherwise).
pub open spec fn decodable(t: TokenizerView, ids: Seq<u32>) -> bool {
    forall|i: int|
        0 <= i < ids.len() && ids[i] < t.pieces.len() && t.pieces[ids[i] as int].0 == KIND_BYTE
            ==> hex_slice_ok(encode_utf8(#[trigger] t.pieces[ids[i] as int].1))
}

/// Decoded text: the lossily decoded bytes, with the space mark turned back
/// into spaces.
pub open spec fn spec_decode(t: TokenizerView, ids: Seq<u32>) -> Seq<char> {
    utf8_lossy(decode_bytes(t, ids)).map_values(|c: char| unescape_char(c))
}

/// Views of a list of character vectors.
pub open spec fn deep(v: Seq<Vec<char>>) -> Seq<Seq<char>> {
    v.map_values(|x: Vec<char>| x@)
}

/// Whether two character slices are equal.
pub fn chars_eq(a: &[char], b: &[char]) -> (r: bool)
    ensures
        r == (a@ == b@),
{
    if a.len() != b.len() {
        return false;
    }
    let mut i: usize = 0;
    while i < a.len()
        invariant
            i <= a@.len(),
            a@.len() == b@.len(),
            forall|j: int| 0 <= j < i ==> a@[j] == b@[j],
        decreases a@.len() - i,
    {
        if a[i] != b[i] {
            return false;
        }
        i = i + 1;
    }
    assert(a@ =~= b@);
    true
}

/// The concatenation of two character slices.
pub fn concat_chars(a: &[char], b: &[char]) -> (r: Vec<char>)
    ensures
        r@ == a@ + b@,
{
    let mut out: Vec<char> = Vec::new();
    let mut i: usize = 0;
    while i < a.len()
        invariant
            i <= a@.len(),
            out@ == a@.take(i as int),
        decreases a@.len() - i,
    {
        out.push(a[i]);
        i = i + 1;
        assert(out@ =~= a@.take(i as int));
    }
    let mut j: usize = 0;
    while j < b.len()
        invariant
            j <= b@.len(),
            out@ == a@ + b@.take(j as int),
        decreases b@.len() - j,
    {
        out.push(b[j]);
        j = j + 1;
        assert(out@ =~= a@ + b@.take(j as int));
    }
    assert(b@.take(j as int) =~= b@);
    out
}

/// Whether `text[i..]` starts with `m`.
fn starts_with_at(text: &[char], i: usize, m: &[char]) -> (r: bool)
    requires
        i <= text@.len(),
    ensures
        r == starts_with(text@.skip(i as int), m@),
{
    let tl = text.len();
    if m.len() > tl - i {
        return false;
    }
    let mut j: usize = 0;
    while j < m.len()
        invariant
            i + m@.len() <= text@.len(),
            text@.len() <= usize::MAX,
            j <= m@.len(),
            forall|k: int| 0 <= k < j ==> text@[i + k] == m@[k],
        decreases m@.len() - j,
    {
        if text[i + j] != m[j] {
            assert(text@.skip(i as int).take(m@.len() as int)[j as int] != m@[j as int]);
            return false;
        }
        j = j + 1;
    }
    assert(text@.skip(i as int).take(m@.len() as int) =~= m@);
    true
}

impl Tokenizer {
    /// The first piece whose surface is `s`.
    fn find_piece(&self, s: &[char]) -> (r: Option<usize>)
        requires
            self.wf(),
        ensures
            match r {
                Some(id) => piece_id(self@, s@) == Some(id as int),
                None => piece_id(self@, s@) is None,
            },
            r matches Some(id) ==> id < self.pieces@.len(),
    {
        let mut i: usize = 0;
        while i < self.piece_chars.len()
            invariant
                self.wf(),
                i <= self.pieces@.len(),
                piece_id(self@, s@) == piece_id_from(self@.pieces, s@, i as int),
            decreases self.pieces@.len() - i,
        {
            assert(self@.pieces[i as int].1 == self.piece_chars@[i as int]@);
            if chars_eq(self.piece_chars[i].as_slice(), s) {
                return Some(i);
            }
            i = i + 1;
        }
        None
    }
}


/// The best pair found so far, with its position as an integer.
pub open spec fn best_view(b: Option<(u32, usize)>) -> Option<(u32, int)> {
    match b {
        Some((s, i)) => Some((s, i as int)),
        None => None,
    }
}

proof fn lemma_best_merge_range(
    t: TokenizerView,
    syms: Seq<Seq<char>>,
    i: int,
    best: Option<(u32, int)>,
)
    requires
        i >= 0,
        best matches Some((_, k)) ==> 0 <= k < syms.len() - 1,
    ensures
        best_merge_from(t, syms, i, best) matches Some((_, j)) ==> 0 <= j < syms.len() - 1,
    decreases syms.len() - i,
{
    if i + 1 < syms.len() {
        let next = match piece_id(t, syms[i] + syms[i + 1]) {
            Some(id) => {
                let score = t.scores[id];
                match best {
                    None => Some((score, i)),
                    Some((s, _)) => if f32_gt(score, s) {
                        Some((score, i))
                    } else {
                        best
                    },
                }
            },
            None => best,
        };
        lemma_best_merge_range(t, syms, i + 1, next);
    }
}

proof fn lemma_merge_decreases(t: TokenizerView, syms: Seq<Seq<char>>)
    requires
        syms.len() > 1,
    ensures
        best_merge_from(t, syms, 0, None) matches Some((_, j)) ==> 0 <= j < syms.len() - 1,
{
    lemma_best_merge_range(t, syms, 0, None);
}

/// The merge score of the adjacent pair at `j`: the score of the piece
/// whose text is the two symbols joined, if there is one.
pub open spec fn pair_score(t: TokenizerView, syms: Seq<Seq<char>>, j: int) -> Option<u32> {
    match piece_id(t, syms[j] + syms[j + 1]) {
        Some(id) => Some(t.scores[id]),
        None => None,
    }
}

/// What the scan up to position `i` keeps, given the best pair `best` so
/// far: it is a scored pair before `i`, no scored pair before `i` is
/// strictly greater, and every numeric score before it is strictly smaller.
pub open spec fn best_so_far(
    t: TokenizerView,
    syms: Seq<Seq<char>>,
    i: int,
    best: Option<(u32, int)>,
) -> bool {
    match best {
        Some((s, k)) => {
            &&& 0 <= k < i && k < syms.len() - 1
            &&& pair_score(t, syms, k) == Some(s)
            &&& forall|j: int|
                0 <= j < i && j < syms.len() - 1 ==> match #[trigger] pair_score(t, syms, j) {
                    Some(s2) => !f32_gt(s2, s) && (j < k && !is_nan(s2) ==> f32_gt(s, s2)),
                    None => true,
                }
        },
        None => forall|j: int|
            0 <= j < i && j < syms.len() - 1 ==> #[trigger] pair_score(t, syms, j) is None,
    }
}

proof fn lemma_best_merge_scan(
    t: TokenizerView,
    syms: Seq<Seq<char>>,
    i: int,
    best: Option<(u32, int)>,
)
    requires
        0 <= i,
        best_so_far(t, syms, i, best),
    ensures
        best_so_far(t, syms, syms.len() as int, best_merge_from(t, syms, i, best)),
    decreases syms.len() - i,
{
    if i + 1 >= syms.len() {
        assert(best_so_far(t, syms, syms.len() as int, best));
    } else {
        let next = match piece_id(t, syms[i] + syms[i + 1]) {
            Some(id) => {
                let score = t.scores[id];
                match best {
                    None => Some((score, i)),
                    Some((s, _)) => if f32_gt(score, s) {
                        Some((score, i))
                    } else {
                        best
                    },
                }
            },
            None => best,
        };
        assert(pair_score(t, syms, i) == match piece_id(t, syms[i] + syms[i + 1]) {
            Some(id) => Some(t.scores[id]),
            None => None::<u32>,
        });
        assert(best_so_far(t, syms, i + 1, next)) by {
            match next {
                Some((s, k)) => {
                    assert forall|j: int| 0 <= j < i + 1 && j < syms.len() - 1 implies match #[trigger] pair_score(
                        t,
                        syms,
                        j,
                    ) {
                        Some(s2) => !f32_gt(s2, s) && (j < k && !is_nan(s2) ==> f32_gt(s, s2)),
                        None => true,
                    } by {
                        if j < i {
                            assert(match pair_score(t, syms, j) {
                                Some(s2) => match best {
                                    Some((b, kb)) => !f32_gt(s2, b) && (j < kb && !is_nan(s2)
                                        ==> f32_gt(b, s2)),
                                    None => false,
                                },
                                None => true,
                            });
                        }
                    }
                },
                None => {
                    assert forall|j: int| 0 <= j < i + 1 && j < syms.len() - 1 implies #[trigger] pair_score(
                        t,
                        syms,
                        j,
                    ) is None by {
                        if j < i {
                        }
                    }
                },
            }
        }
        lemma_best_merge_scan(t, syms, i + 1, next);
    }
}

/// The pair chosen for the next merge has the greatest score: it is a
/// scored pair; no scored pair has a strictly greater score; every pair to
/// its left with a numeric score has a strictly smaller one (ties go to
/// the leftmost pair); and no pair is chosen only when no pair is scored.
pub proof fn lemma_best_merge_is_best(t: TokenizerView, syms: Seq<Seq<char>>)
    ensures
        match best_merge_from(t, syms, 0, None) {
            Some((s, i)) => {
                &&& 0 <= i < syms.len() - 1
                &&& pair_score(t, syms, i) == Some(s)
                &&& forall|j: int|
                    0 <= j < syms.len() - 1 ==> match #[trigger] pair_score(t, syms, j) {
                        Some(s2) => !f32_gt(s2, s) && (j < i && !is_nan(s2) ==> f32_gt(s, s2)),
                        None => true,
                    }
            },
            None => forall|j: int| 0 <= j < syms.len() - 1 ==> #[trigger] pair_score(t, syms, j) is None,
        },
{
    lemma_best_merge_scan(t, syms, 0, None);
}

/// Merging stops only when no adjacent pair of the result is a piece.
pub proof fn lemma_bpe_merge_complete(t: TokenizerView, syms: Seq<Seq<char>>)
    ensures
        forall|j: int|
            0 <= j < bpe_merge(t, syms).len() - 1 ==> #[trigger] pair_score(
                t,
                bpe_merge(t, syms),
                j,
            ) is None,
    decreases syms.len(),
{
    if syms.len() > 1 {
        lemma_best_merge_is_best(t, syms);
        match best_merge_from(t, syms, 0, None) {
            Some((_, i)) => {
                lemma_bpe_merge_complete(t, merge_at(syms, i));
            },
            None => {},
        }
    }
}

impl Tokenizer {
    /// The adjacent pair to merge next, if any.
    fn best_merge(&self, syms: &Vec<Vec<char>>) -> (r: Option<usize>)
        requires
            self.wf(),
        ensures
            match r {
                Some(i) => best_merge_from(self@, deep(syms@), 0, None) matches Some((_, j))
                    && j == i,
                None => best_merge_from(self@, deep(syms@), 0, None) is None,
            },
    {
        let ghost d = deep(syms@);
        let mut best: Option<(u32, usize)> = None;
        let mut i: usize = 0;
        while i < syms.len() && i + 1 < syms.len()
            invariant
                self.wf(),
                d == deep(syms@),
                best_merge_from(self@, d, 0, None) == best_merge_from(
                    self@,
                    d,
                    i as int,
                    best_view(best),
                ),
            decreases syms@.len() - i,
        {
            let cand = concat_chars(syms[i].as_slice(), syms[i + 1].as_slice());
            proof {
                assert(d[i as int] == syms@[i as int]@);
                assert(d[i + 1] == syms@[i + 1]@);
            }
            match self.find_piece(cand.as_slice()) {
                Some(id) => {
                    let score = self.scores[id];
                    match best {
                        None => {
                            best = Some((score, i));
                        },
                        Some((s, _)) => {
                            if crate::float_bits::bits_gt(score, s) {
                                best = Some((score, i));
                            }
                        },
                    }
                },
                None => {},
            }
            i = i + 1;
        }
        match best {
            Some((_, j)) => Some(j),
            None => None,
        }
    }

    /// Token ids for the UTF-8 bytes of a symbol, through the byte pieces.
    fn fallback_ids_of(&self, s: &[char]) -> (r: Vec<u32>)
        requires
            self.wf(),
        ensures
            r@ == fallback_ids(self@, encode_utf8(s@)),
    {
        let text = crate::text::string_from_chars(s);
        let bytes = text.as_str().as_bytes();
        let mut out: Vec<u32> = Vec::new();
        let mut i: usize = 0;
        while i < bytes.len()
            invariant
                self.wf(),
                bytes@ == encode_utf8(s@),
                i <= bytes@.len(),
                out@ == fallback_ids(self@, bytes@.take(i as int)),
            decreases bytes@.len() - i,
        {
            proof {
                assert(bytes@.take(i + 1).drop_last() =~= bytes@.take(i as int));
            }
            match self.byte_ids[bytes[i] as usize] {
                Some(id) => out.push(id),
                None => {},
            }
            i = i + 1;
        }
        assert(bytes@.take(i as int) =~= bytes@);
        out
    }

    /// Token ids for one merged symbol.
    fn symbol_ids_of(&self, s: &[char]) -> (r: Vec<u32>)
        requires
            self.wf(),
        ensures
            r@ == symbol_ids(self@, s@),
    {
        match self.find_piece(s) {
            Some(id) => {
                let mut out: Vec<u32> = Vec::new();
                out.push(id as u32);
                out
            },
            None => {
                if self.byte_fallback {
                    self.fallback_ids_of(s)
                } else {
                    let mut out: Vec<u32> = Vec::new();
                    out.push(self.unk_id);
                    out
                }
            },
        }
    }

    /// Byte-pair encoding of one text segment (no markers inside).
    pub fn bpe(&self, seg: &[char]) -> (r: Vec<u32>)
        requires
            self.wf(),
        ensures
            r@ == spec_bpe(self@, seg@),
    {
        let mut syms: Vec<Vec<char>> = Vec::new();
        let mut k: usize = 0;
        while k < seg.len()
            invariant
                k <= seg@.len(),
                deep(syms@) == singletons(seg@).take(k as int),
            decreases seg@.len() - k,
        {
            let mut one: Vec<char> = Vec::new();
            one.push(seg[k]);
            assert(one@ =~= seq![seg@[k as int]]);
            let ghost before = syms@;
            syms.push(one);
            assert(deep(syms@) =~= deep(before).push(seq![seg@[k as int]]));
            k = k + 1;
            assert(deep(syms@) =~= singletons(seg@).take(k as int));
        }
        assert(singletons(seg@).take(k as int) =~= singletons(seg@));
        let ghost target = bpe_merge(self@, singletons(seg@));
        loop
            invariant
                self.wf(),
                target == bpe_merge(self@, deep(syms@)),
            ensures
                target == deep(syms@),
            decreases syms@.len(),
        {
            if syms.len() <= 1 {
                break ;
            }
            proof {
                lemma_merge_decreases(self@, deep(syms@));
            }
            match self.best_merge(&syms) {
                None => {
                    break ;
                },
                Some(i) => {
                    let ghost before = deep(syms@);
                    let right = syms.remove(i + 1);
                    let merged = concat_chars(syms[i].as_slice(), right.as_slice());
                    syms.set(i, merged);
                    proof {
                        assert(deep(syms@) =~= merge_at(before, i as int));
                    }
                },
            }
        }
        let mut out: Vec<u32> = Vec::new();
        let mut j: usize = 0;
        while j < syms.len()
            invariant
                self.wf(),
                j <= syms@.len(),
                out@ == ids_of(self@, deep(syms@).take(j as int)),
            decreases syms@.len() - j,
        {
            let mut ids = self.symbol_ids_of(syms[j].as_slice());
            proof {
                assert(deep(syms@).take(j + 1).drop_last() =~= deep(syms@).take(j as int));
                assert(deep(syms@)[j as int] == syms@[j as int]@);
            }
            out.append(&mut ids);
            j = j + 1;
        }
        assert(deep(syms@).take(j as int) =~= deep(syms@));
        out
    }
}


impl Tokenizer {
    /// The first marker that `text[i..]` starts with.
    fn find_marker(&self, text: &[char], i: usize) -> (r: Option<usize>)
        requires
            self.wf(),
            i <= text@.len(),
        ensures
            match r {
                Some(k) => first_marker_from(self@.markers, text@.skip(i as int), 0) == Some(
                    k as int,
                ) && k < self@.markers.len(),
                None => first_marker_from(self@.markers, text@.skip(i as int), 0) is None,
            },
    {
        let ghost ms = self@.markers;
        let ghost rest = text@.skip(i as int);
        let mut k: usize = 0;
        while k < self.marker_chars.len()
            invariant
                self.wf(),
                ms == self@.markers,
                rest == text@.skip(i as int),
                i <= text@.len(),
                k <= ms.len(),
                first_marker_from(ms, rest, 0) == first_marker_from(ms, rest, k as int),
            decreases ms.len() - k,
        {
            assert(ms[k as int].0 == self.marker_chars@[k as int]@);
            if starts_with_at(text, i, self.marker_chars[k].as_slice()) {
                return Some(k);
            }
            k = k + 1;
        }
        None
    }

    /// Token ids of a text: spaces become the space mark (with one in front
    /// when the tokenizer adds a dummy prefix), markers are matched verbatim,
    /// and the text between markers is byte-pair encoded.
    pub fn encode(&self, text: &str) -> (r: Vec<u32>)
        requires
            self.wf(),
            encode_ends(self@, text@),
        ensures
            r@ == spec_encode(self@, text@),
    {
        if text.is_empty() {
            return Vec::new();
        }
        let tc = chars_of(text);
                let ghost pre: Seq<char> = if self.add_dummy_prefix {
            seq![space_mark()]
        } else {
            seq![]
        };
        let mut esc: Vec<char> = Vec::new();
        if self.add_dummy_prefix {
            esc.push('\u{2581}');
        }
        assert(esc@ =~= pre + tc@.take(0).map_values(|c: char| escape_char(c)));
        let mut j: usize = 0;
        while j < tc.len()
            invariant
                j <= tc@.len(),
                esc@ == pre + tc@.take(j as int).map_values(|c: char| escape_char(c)),
            decreases tc@.len() - j,
        {
            let c = tc[j];
            assert(tc@.take(j + 1).map_values(|c: char| escape_char(c)) =~= tc@.take(j as int).map_values(|c: char| escape_char(c)).push(escape_char(c)));
            let ghost before = esc@;
            if c == ' ' {
                esc.push('\u{2581}');
                assert(escape_char(c) == '\u{2581}');
            } else {
                esc.push(c);
                assert(escape_char(c) == c);
            }
            assert(esc@ == before.push(escape_char(c)));
            j = j + 1;
            assert(esc@ =~= pre + tc@.take(j as int).map_values(|c: char| escape_char(c)));
        }
        assert(tc@.take(j as int) =~= tc@);
        assert(esc@ =~= escape(self@, text@));
        let mut ids: Vec<u32> = Vec::new();
        let mut buf: Vec<char> = Vec::new();
        let mut i: usize = 0;
        assert(esc@.skip(0) =~= esc@);
        while i < esc.len()
            invariant
                self.wf(),
                i <= esc@.len(),
                text@.len() > 0,
                esc@ == escape(self@, text@),
                spec_encode(self@, text@) == ids@ + encode_from(self@, esc@.skip(i as int), buf@),
                scan_ends(self@, esc@.skip(i as int)),
            decreases esc@.len() - i,
        {
            let ghost rest = esc@.skip(i as int);
            match self.find_marker(esc.as_slice(), i) {
                Some(k) => {
                    let ghost mlen = self@.markers[k as int].0.len();
                    assert(self.marker_chars@[k as int]@ == self@.markers[k as int].0);
                    let mut seg = self.bpe(buf.as_slice());
                    ids.append(&mut seg);
                    ids.push(self.markers[k].1);
                    buf = Vec::new();
                    let ml = self.marker_chars[k].len();
                    proof {
                        assert(rest.skip(mlen as int) =~= esc@.skip(i + ml));
                        assert(buf@ =~= Seq::<char>::empty());
                    }
                    i = i + ml;
                },
                None => {
                    buf.push(esc[i]);
                    proof {
                        assert(rest.drop_first() =~= esc@.skip(i + 1));
                        assert(rest[0] == esc@[i as int]);
                    }
                    i = i + 1;
                },
            }
        }
        assert(esc@.skip(i as int) =~= Seq::<char>::empty());
        let mut last = self.bpe(buf.as_slice());
        ids.append(&mut last);
        ids
    }

    /// The text that a sequence of token ids stands for: ids outside the
    /// vocabulary and control pieces are skipped, byte pieces give
    /// their byte, other pieces their text; the bytes are decoded lossily
    /// and the space mark turns back into a space.
    pub fn decode(&self, ids: &[u32]) -> (r: String)
        requires
            self.wf(),
            decodable(self@, ids@),
        ensures
            r@ == spec_decode(self@, ids@),
            valid_utf8(decode_bytes(self@, ids@)) ==> r@ == decode_utf8(
                decode_bytes(self@, ids@),
            ).map_values(|c: char| unescape_char(c)),
    {
        let mut bytes: Vec<u8> = Vec::new();
        let mut i: usize = 0;
        while i < ids.len()
            invariant
                self.wf(),
                decodable(self@, ids@),
                i <= ids@.len(),
                bytes@ == decode_bytes(self@, ids@.take(i as int)),
            decreases ids@.len() - i,
        {
            let id = ids[i];
            proof {
                assert(ids@.take(i + 1).drop_last() =~= ids@.take(i as int));
                assert(ids@.take(i + 1).last() == id);
            }
            if (id as usize) < self.pieces.len() {
                let piece = &self.pieces[id as usize];
                let b = piece.surface.as_str().as_bytes();
                proof {
                    assert(self@.pieces[id as int] == (piece.kind, piece.surface@));
                }
                if piece.kind == KIND_BYTE {
                    proof {
                        assert(hex_slice_ok(encode_utf8(self@.pieces[ids@[i as int] as int].1)));
                    }
                    match parse_hex_pair(b[3], b[4]) {
                        Some(v) => bytes.push(v),
                        None => {},
                    }
                } else if piece.kind != 1 && piece.kind != 2 {
                    let ghost before = bytes@;
                    let mut k: usize = 0;
                    while k < b.len()
                        invariant
                            k <= b@.len(),
                            bytes@ == before + b@.take(k as int),
                        decreases b@.len() - k,
                    {
                        bytes.push(b[k]);
                        k = k + 1;
                        assert(bytes@ =~= before + b@.take(k as int));
                    }
                    assert(b@.take(k as int) =~= b@);
                }
            }
            i = i + 1;
        }
        assert(ids@.take(i as int) =~= ids@);
        let text = crate::text::string_from_utf8_lossy(bytes.as_slice());
        let cs = chars_of(text.as_str());
        let mut out_chars: Vec<char> = Vec::new();
        let mut j: usize = 0;
        while j < cs.len()
            invariant
                j <= cs@.len(),
                out_chars@ == cs@.take(j as int).map_values(|c: char| unescape_char(c)),
            decreases cs@.len() - j,
        {
            let c = cs[j];
            assert(cs@.take(j + 1).map_values(|c: char| unescape_char(c)) =~= cs@.take(j as int).map_values(|c: char| unescape_char(c)).push(unescape_char(c)));
            if c == '\u{2581}' {
                out_chars.push(' ');
            } else {
                out_chars.push(c);
            }
            j = j + 1;
            assert(out_chars@ =~= cs@.take(j as int).map_values(|c: char| unescape_char(c)));
        }
        assert(cs@.take(j as int) =~= cs@);
        crate::text::string_from_chars(out_chars.as_slice())
    }
}


pub(crate) proof fn lemma_first_marker_matches(ms: Seq<(Seq<char>, u32)>, rest: Seq<char>, k: int)
    ensures
        first_marker_from(ms, rest, k) matches Some(j) ==> k <= j < ms.len() && starts_with(
            rest,
            ms[j].0,
        ),
    decreases ms.len() - k,
{
    if !(k < 0 || k >= ms.len()) && !starts_with(rest, ms[k].0) {
        lemma_first_marker_matches(ms, rest, k + 1);
    }
}

impl Tokenizer {
    /// Whether encoding `text` terminates (see `encode_ends`).
    pub fn encode_terminates(&self, text: &str) -> (r: bool)
        requires
            self.wf(),
        ensures
            r == encode_ends(self@, text@),
    {
        if text.is_empty() {
            return true;
        }
        let tc = chars_of(text);
        let mut esc: Vec<char> = Vec::new();
        if self.add_dummy_prefix {
            esc.push('\u{2581}');
        }
        let ghost pre: Seq<char> = if self.add_dummy_prefix {
            seq![space_mark()]
        } else {
            seq![]
        };
        assert(esc@ =~= pre + tc@.take(0).map_values(|c: char| escape_char(c)));
        let mut j: usize = 0;
        while j < tc.len()
            invariant
                j <= tc@.len(),
                esc@ == pre + tc@.take(j as int).map_values(|c: char| escape_char(c)),
            decreases tc@.len() - j,
        {
            let c = tc[j];
            assert(tc@.take(j + 1).map_values(|c: char| escape_char(c)) =~= tc@.take(
                j as int,
            ).map_values(|c: char| escape_char(c)).push(escape_char(c)));
            if c == ' ' {
                esc.push('\u{2581}');
            } else {
                esc.push(c);
            }
            j = j + 1;
        }
        assert(tc@.take(j as int) =~= tc@);
        assert(esc@ =~= escape(self@, text@));
        let mut i: usize = 0;
        assert(esc@.skip(0) =~= esc@);
        while i < esc.len()
            invariant
                self.wf(),
                i <= esc@.len(),
                text@.len() > 0,
                esc@ == escape(self@, text@),
                scan_ends(self@, esc@) == scan_ends(self@, esc@.skip(i as int)),
            decreases esc@.len() - i,
        {
            let ghost rest = esc@.skip(i as int);
            match self.find_marker(esc.as_slice(), i) {
                Some(k) => {
                    assert(self.marker_chars@[k as int]@ == self@.markers[k as int].0);
                    proof {
                        lemma_first_marker_matches(self@.markers, rest, 0);
                    }
                    let ml = self.marker_chars[k].len();
                    if ml == 0 {
                        return false;
                    }
                    assert(rest.skip(ml as int) =~= esc@.skip(i + ml));
                    i = i + ml;
                },
                None => {
                    assert(rest.drop_first() =~= esc@.skip(i + 1));
                    i = i + 1;
                },
            }
        }
        assert(esc@.skip(i as int) =~= Seq::<char>::empty());
        true
    }

    /// Whether `decode` accepts `ids` (see `decodable`).
    pub fn can_decode(&self, ids: &[u32]) -> (r: bool)
        requires
            self.wf(),
        ensures
            r == decodable(self@, ids@),
    {
        let mut i: usize = 0;
        while i < ids.len()
            invariant
                self.wf(),
                i <= ids@.len(),
                forall|k: int|
                    0 <= k < i && ids@[k] < self@.pieces.len() && self@.pieces[ids@[k] as int].0
                        == KIND_BYTE ==> hex_slice_ok(
                        encode_utf8(#[trigger] self@.pieces[ids@[k] as int].1),
                    ),
            decreases ids@.len() - i,
        {
            let id = ids[i];
            if (id as usize) < self.pieces.len() {
                let piece = &self.pieces[id as usize];
                let b = piece.surface.as_str().as_bytes();
                proof {
                    assert(self@.pieces[id as int] == (piece.kind, piece.surface@));
                }
                if piece.kind == KIND_BYTE {
                    let ok = b.len() >= 5 && !(0x80 <= b[3] && b[3] <= 0xbf) && (b.len() == 5 || !(
                    0x80 <= b[5] && b[5] <= 0xbf));
                    if !ok {
                        assert(!hex_slice_ok(encode_utf8(self@.pieces[ids@[i as int] as int].1)));
                        return false;
                    }
                }
            }
            i = i + 1;
        }
        true
    }
}


/// Entries before the insertion point are at least `l` bytes long; the entry
/// at it, if any, is shorter.
proof fn lemma_insert_pos(ms: Seq<(Seq<char>, u32)>, l: nat)
    ensures
        insert_pos(ms, l) <= ms.len(),
        forall|i: int| 0 <= i < insert_pos(ms, l) ==> byte_len(#[trigger] ms[i].0) >= l,
        insert_pos(ms, l) < ms.len() ==> byte_len(ms[insert_pos(ms, l) as int].0) < l,
    decreases ms.len(),
{
    if ms.len() > 0 && byte_len(ms[0].0) >= l {
        lemma_insert_pos(ms.drop_first(), l);
        assert forall|i: int| 0 <= i < insert_pos(ms, l) implies byte_len(#[trigger] ms[i].0)
            >= l by {
            if i > 0 {
                assert(ms[i] == ms.drop_first()[i - 1]);
            }
        }
    }
}

/// Whether a marker entry is the marker piece with its id and text.
pub open spec fn marker_entry_ok(raw: Seq<RawPiece>, m: (Seq<char>, u32)) -> bool {
    &&& m.1 < raw.len()
    &&& raw[m.1 as int].kind == KIND_MARKER
    &&& m.0 == decode_utf8(raw[m.1 as int].bytes)
}

/// Whether markers are ordered by decreasing byte length, equal lengths by
/// increasing id.
pub open spec fn markers_sorted(ms: Seq<(Seq<char>, u32)>) -> bool {
    forall|i: int, j: int|
        0 <= i < j < ms.len() ==> byte_len(#[trigger] ms[i].0) >= byte_len(#[trigger] ms[j].0)
            && (byte_len(ms[i].0) == byte_len(ms[j].0) ==> ms[i].1 < ms[j].1)
}

/// Every marker is a marker piece, with that piece's id and text.
pub proof fn lemma_marker_entries(raw: Seq<RawPiece>)
    requires
        raw.len() <= 0x1_0000_0000,
    ensures
        forall|k: int|
            0 <= k < marker_list(raw).len() ==> marker_entry_ok(raw, #[trigger] marker_list(raw)[k]),
    decreases raw.len(),
{
    if raw.len() > 0 {
        let prev = marker_list(raw.drop_last());
        lemma_marker_entries(raw.drop_last());
        assert forall|k: int| 0 <= k < prev.len() implies marker_entry_ok(raw, #[trigger] prev[k])
            by {
            assert(marker_entry_ok(raw.drop_last(), prev[k]));
            assert(raw[prev[k].1 as int] == raw.drop_last()[prev[k].1 as int]);
        }
        let p = raw.last();
        if p.kind == KIND_MARKER {
            let m = (decode_utf8(p.bytes), (raw.len() - 1) as u32);
            let pos = insert_pos(prev, byte_len(m.0)) as int;
            lemma_insert_pos(prev, byte_len(m.0));
            let ms = prev.insert(pos, m);
            assert(raw[raw.len() - 1] == p);
            assert(marker_entry_ok(raw, m));
            assert forall|k: int| 0 <= k < ms.len() implies marker_entry_ok(raw, #[trigger] ms[k])
                by {
                if k < pos {
                    assert(ms[k] == prev[k]);
                } else if k > pos {
                    assert(ms[k] == prev[k - 1]);
                }
            }
        }
    }
}

/// The markers are ordered by decreasing length in UTF-8 bytes, and
/// markers of equal length by increasing id (a stable sort of the marker
/// pieces, longest first).
pub proof fn lemma_markers_sorted(raw: Seq<RawPiece>)
    requires
        raw.len() <= 0x1_0000_0000,
    ensures
        markers_sorted(marker_list(raw)),
    decreases raw.len(),
{
    if raw.len() > 0 {
        let prev = marker_list(raw.drop_last());
        lemma_markers_sorted(raw.drop_last());
        lemma_marker_entries(raw.drop_last());
        let p = raw.last();
        if p.kind == KIND_MARKER {
            let m = (decode_utf8(p.bytes), (raw.len() - 1) as u32);
            let l = byte_len(m.0);
            lemma_insert_pos(prev, l);
            let pos = insert_pos(prev, l) as int;
            let ms = prev.insert(pos, m);
            assert(ms[pos] == m);
            assert forall|i: int, j: int| 0 <= i < j < ms.len() implies byte_len(
                #[trigger] ms[i].0,
            ) >= byte_len(#[trigger] ms[j].0) && (byte_len(ms[i].0) == byte_len(ms[j].0)
                ==> ms[i].1 < ms[j].1) by {
                if j < pos {
                    assert(ms[i] == prev[i] && ms[j] == prev[j]);
                } else if j == pos {
                    assert(ms[i] == prev[i]);
                    assert(byte_len(prev[i].0) >= l);
                    assert(marker_entry_ok(raw.drop_last(), prev[i]));
                } else if i < pos {
                    assert(ms[i] == prev[i] && ms[j] == prev[j - 1]);
                    assert(byte_len(prev[i].0) >= l);
                    assert(byte_len(prev[pos].0) < l);
                    if pos < j - 1 {
                        assert(byte_len(prev[pos].0) >= byte_len(prev[j - 1].0));
                    }
                } else if i == pos {
                    assert(ms[j] == prev[j - 1]);
                    assert(byte_len(prev[pos].0) < l);
                    if pos < j - 1 {
                        assert(byte_len(prev[pos].0) >= byte_len(prev[j - 1].0));
                    }
                } else {
                    assert(ms[i] == prev[i - 1] && ms[j] == prev[j - 1]);
                }
            }
        }
    }
}

/// The byte-fallback table sends each byte value to the last piece that
/// spells it as `<0xHH>`, and to nothing when no piece does.
pub proof fn lemma_byte_id(raw: Seq<RawPiece>, v: u8)
    requires
        raw.len() <= 0x1_0000_0000,
    ensures
        byte_id(raw, v) matches Some(id) ==> {
            &&& id < raw.len()
            &&& byte_piece_value(raw[id as int].kind, raw[id as int].bytes) == Some(v)
            &&& forall|j: int|
                id < j < raw.len() ==> byte_piece_value(#[trigger] raw[j].kind, raw[j].bytes)
                    != Some(v)
        },
        byte_id(raw, v) is None ==> forall|j: int|
            0 <= j < raw.len() ==> byte_piece_value(#[trigger] raw[j].kind, raw[j].bytes) != Some(
                v,
            ),
    decreases raw.len(),
{
    if raw.len() > 0 {
        let last = raw.last();
        assert(raw[raw.len() - 1] == last);
        if byte_piece_value(last.kind, last.bytes) != Some(v) {
            let init = raw.drop_last();
            lemma_byte_id(init, v);
            assert forall|j: int| 0 <= j < raw.len() - 1 implies #[trigger] raw[j] == init[j] by {}
            match byte_id(init, v) {
                Some(id) => {
                    assert forall|j: int| id < j < raw.len() implies byte_piece_value(
                        #[trigger] raw[j].kind,
                        raw[j].bytes,
                    ) != Some(v) by {
                        if j < raw.len() - 1 {
                            assert(raw[j] == init[j]);
                        }
                    }
                    assert(raw[id as int] == init[id as int]);
                },
                None => {
                    assert forall|j: int| 0 <= j < raw.len() implies byte_piece_value(
                        #[trigger] raw[j].kind,
                        raw[j].bytes,
                    ) != Some(v) by {
                        if j < raw.len() - 1 {
                            assert(raw[j] == init[j]);
                        }
                    }
                },
            }
        }
    }
}


/// Without empty markers, scanning for markers always ends.
proof fn lemma_scan_ends(t: TokenizerView, rest: Seq<char>)
    requires
        forall|k: int| 0 <= k < t.markers.len() ==> (#[trigger] t.markers[k]).0.len() > 0,
    ensures
        scan_ends(t, rest),
    decreases rest.len(),
{
    if rest.len() > 0 {
        lemma_first_marker_matches(t.markers, rest, 0);
        match first_marker_from(t.markers, rest, 0) {
            Some(k) => {
                assert(t.markers[k].0.len() > 0);
                lemma_scan_ends(t, rest.skip(t.markers[k].0.len() as int));
            },
            None => {
                lemma_scan_ends(t, rest.drop_first());
            },
        }
    }
}

/// When no marker is empty, encoding terminates on every text.
pub proof fn lemma_encode_ends(t: TokenizerView, text: Seq<char>)
    requires
        forall|k: int| 0 <= k < t.markers.len() ==> (#[trigger] t.markers[k]).0.len() > 0,
    ensures
        encode_ends(t, text),
{
    lemma_scan_ends(t, escape(t, text));
}

} // verus!
