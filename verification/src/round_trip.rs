//! Decoding the token ids that encoding gives a text yields the text back.
use crate::le_bytes::le_value;
use crate::tokenizer::{
    bpe_merge, best_merge_from, decodable, decode_bytes, encode_ends, encode_from, escape,
    escape_char, first_marker_from, ids_of, lemma_first_marker_matches, lemma_marker_entries,
    marker_entry_ok, merge_at, piece_at, piece_id, piece_id_from, piece_output, pieces_from,
    scan_ends, singletons, space_mark, spec_bpe, spec_encode, symbol_ids, tokenizer_from,
    unescape_char, TokenizerView, KIND_BYTE, KIND_MARKER,
};
use vstd::prelude::*;
use vstd::seq_lib::lemma_flatten_concat;
use vstd::utf8::*;

verus! {

broadcast use vstd::utf8::group_utf8_lib;

/// Whether pieces of this kind decode to their own text: neither of the two
/// kinds that decode to nothing, nor a byte piece.
pub open spec fn spells_itself(kind: u8) -> bool {
    kind != 1 && kind != 2 && kind != KIND_BYTE
}

/// Whether `s` is the text of a piece that decodes to its own text.
pub open spec fn spells_piece(t: TokenizerView, s: Seq<char>) -> bool {
    piece_id(t, s) matches Some(id) && spells_itself(t.pieces[id].0)
}

/// Whether every symbol is the text of a piece that decodes to its text.
pub open spec fn symbols_spell_pieces(t: TokenizerView, syms: Seq<Seq<char>>) -> bool {
    forall|i: int| 0 <= i < syms.len() ==> spells_piece(t, #[trigger] syms[i])
}

/// Whether every marker names a marker piece that has the marker's text.
pub open spec fn markers_name_pieces(t: TokenizerView) -> bool {
    forall|k: int|
        0 <= k < t.markers.len() ==> {
            let m = #[trigger] t.markers[k];
            m.1 < t.pieces.len() && t.pieces[m.1 as int] == (KIND_MARKER, m.0)
        }
}

/// Whether encoding the escaped text `rest`, with `buf` pending since the
/// last marker, goes through every marker it meets and merges each segment
/// between markers into symbols that spell pieces (so no segment needs the
/// unknown piece or byte fallback).
pub open spec fn segments_spell_pieces(t: TokenizerView, rest: Seq<char>, buf: Seq<char>) -> bool
    decreases rest.len(),
{
    if rest.len() == 0 {
        symbols_spell_pieces(t, bpe_merge(t, singletons(buf)))
    } else {
        match first_marker_from(t.markers, rest, 0) {
            Some(k) => if 0 <= k < t.markers.len() && 0 < t.markers[k].0.len() <= rest.len() {
                symbols_spell_pieces(t, bpe_merge(t, singletons(buf))) && segments_spell_pieces(
                    t,
                    rest.skip(t.markers[k].0.len() as int),
                    seq![],
                )
            } else {
                false
            },
            None => segments_spell_pieces(t, rest.drop_first(), buf.push(rest[0])),
        }
    }
}

/// When encoding `text` round-trips: the piece table is addressable by
/// `u32` ids, markers name their pieces, the text holds no space mark, and
/// every segment merges into symbols that spell pieces.
pub open spec fn encodes_plainly(t: TokenizerView, text: Seq<char>) -> bool {
    &&& t.pieces.len() <= 0x1_0000_0000
    &&& markers_name_pieces(t)
    &&& !text.contains(space_mark())
    &&& text.len() > 0 ==> segments_spell_pieces(t, escape(t, text), seq![])
}

/// The text that decoding gives back for `text`: a leading space when the
/// tokenizer adds a dummy prefix to a nonempty text.
pub open spec fn decoded_text(t: TokenizerView, text: Seq<char>) -> Seq<char> {
    if t.add_dummy_prefix && text.len() > 0 {
        seq![' '] + text
    } else {
        text
    }
}

proof fn lemma_encode_utf8_concat(a: Seq<char>, b: Seq<char>)
    ensures
        encode_utf8(a + b) == encode_utf8(a) + encode_utf8(b),
    decreases a.len(),
{
    if a.len() == 0 {
        assert(a + b =~= b);
        assert(encode_utf8(a) + encode_utf8(b) =~= encode_utf8(b));
    } else {
        assert((a + b).drop_first() =~= a.drop_first() + b);
        assert((a + b)[0] == a[0]);
        lemma_encode_utf8_concat(a.drop_first(), b);
        assert(encode_utf8(a + b) =~= encode_utf8(a) + encode_utf8(b));
    }
}

proof fn lemma_decode_bytes_concat(t: TokenizerView, a: Seq<u32>, b: Seq<u32>)
    ensures
        decode_bytes(t, a + b) == decode_bytes(t, a) + decode_bytes(t, b),
        decodable(t, a) && decodable(t, b) ==> decodable(t, a + b),
    decreases b.len(),
{
    if b.len() == 0 {
        assert(a + b =~= a);
        assert(decode_bytes(t, a) + decode_bytes(t, b) =~= decode_bytes(t, a));
    } else {
        assert((a + b).drop_last() =~= a + b.drop_last());
        assert((a + b).last() == b.last());
        lemma_decode_bytes_concat(t, a, b.drop_last());
        assert(decode_bytes(t, a + b) =~= decode_bytes(t, a) + decode_bytes(t, b));
    }
    if decodable(t, a) && decodable(t, b) {
        assert forall|i: int|
            0 <= i < (a + b).len() && (a + b)[i] < t.pieces.len() && t.pieces[(a
                + b)[i] as int].0 == KIND_BYTE implies crate::tokenizer::hex_slice_ok(
            encode_utf8(#[trigger] t.pieces[(a + b)[i] as int].1),
        ) by {
            if i < a.len() {
                assert((a + b)[i] == a[i]);
            } else {
                assert((a + b)[i] == b[i - a.len()]);
            }
        }
    }
}

/// The single id `id` decodes to its piece's output.
proof fn lemma_decode_one(t: TokenizerView, id: u32)
    ensures
        decode_bytes(t, seq![id]) == piece_output(t, id),
        id < t.pieces.len() && t.pieces[id as int].0 != KIND_BYTE ==> decodable(t, seq![id]),
{
    assert(seq![id].drop_last() =~= Seq::<u32>::empty());
    assert(seq![id].last() == id);
    assert(decode_bytes(t, Seq::<u32>::empty()) =~= Seq::<u8>::empty());
    assert(decode_bytes(t, seq![id]) =~= piece_output(t, id));
}

proof fn lemma_piece_id_found(ps: Seq<(u8, Seq<char>)>, s: Seq<char>, i: int)
    ensures
        piece_id_from(ps, s, i) matches Some(j) ==> 0 <= j < ps.len() && ps[j].1 == s,
    decreases ps.len() - i,
{
    if !(i < 0 || i >= ps.len()) && ps[i].1 != s {
        lemma_piece_id_found(ps, s, i + 1);
    }
}

proof fn lemma_ids_of_spell(t: TokenizerView, syms: Seq<Seq<char>>)
    requires
        t.pieces.len() <= 0x1_0000_0000,
        symbols_spell_pieces(t, syms),
    ensures
        decode_bytes(t, ids_of(t, syms)) == encode_utf8(syms.flatten()),
        decodable(t, ids_of(t, syms)),
    decreases syms.len(),
{
    if syms.len() == 0 {
        assert(decodable(t, ids_of(t, syms)));
    } else {
        let init = syms.drop_last();
        let s = syms.last();
        assert(symbols_spell_pieces(t, init)) by {
            assert forall|i: int| 0 <= i < init.len() implies spells_piece(t, #[trigger] init[i]) by {
                assert(init[i] == syms[i]);
            }
        }
        lemma_ids_of_spell(t, init);
        assert(spells_piece(t, syms[syms.len() - 1]));
        lemma_piece_id_found(t.pieces, s, 0);
        let id = piece_id(t, s)->Some_0;
        assert(symbol_ids(t, s) == seq![id as u32]);
        assert((id as u32) as int == id);
        lemma_decode_one(t, id as u32);
        assert(piece_output(t, id as u32) == encode_utf8(s));
        lemma_decode_bytes_concat(t, ids_of(t, init), seq![id as u32]);
        assert(syms =~= init.push(s));
        init.lemma_flatten_push(s);
        lemma_encode_utf8_concat(init.flatten(), s);
    }
}

proof fn lemma_flatten_pair(x: Seq<char>, y: Seq<char>)
    ensures
        seq![x, y].flatten() == x + y,
{
    assert(seq![x, y] =~= seq![x].push(y));
    seq![x].lemma_flatten_push(y);
    seq![x].lemma_flatten_one_element();
}

proof fn lemma_merge_at_flatten(syms: Seq<Seq<char>>, i: int)
    requires
        0 <= i < syms.len() - 1,
    ensures
        merge_at(syms, i).flatten() == syms.flatten(),
{
    let a = syms.take(i);
    let c = syms.skip(i + 2);
    let pair = seq![syms[i], syms[i + 1]];
    let joined = seq![syms[i] + syms[i + 1]];
    assert(syms =~= a + pair + c);
    lemma_flatten_concat(a + pair, c);
    lemma_flatten_concat(a, pair);
    lemma_flatten_concat(a + joined, c);
    lemma_flatten_concat(a, joined);
    lemma_flatten_pair(syms[i], syms[i + 1]);
    joined.lemma_flatten_one_element();
}

proof fn lemma_bpe_merge_flatten(t: TokenizerView, syms: Seq<Seq<char>>)
    ensures
        bpe_merge(t, syms).flatten() == syms.flatten(),
    decreases syms.len(),
{
    if syms.len() > 1 {
        match best_merge_from(t, syms, 0, None) {
            Some((_, i)) => {
                if 0 <= i < syms.len() - 1 {
                    lemma_merge_at_flatten(syms, i);
                    lemma_bpe_merge_flatten(t, merge_at(syms, i));
                }
            },
            None => {},
        }
    }
}

proof fn lemma_singletons_flatten(seg: Seq<char>)
    ensures
        singletons(seg).flatten() == seg,
    decreases seg.len(),
{
    if seg.len() > 0 {
        let init = seg.drop_last();
        lemma_singletons_flatten(init);
        assert(singletons(seg) =~= singletons(init).push(seq![seg.last()]));
        singletons(init).lemma_flatten_push(seq![seg.last()]);
        assert(seg =~= init + seq![seg.last()]);
    }
}

proof fn lemma_bpe_spell(t: TokenizerView, seg: Seq<char>)
    requires
        t.pieces.len() <= 0x1_0000_0000,
        symbols_spell_pieces(t, bpe_merge(t, singletons(seg))),
    ensures
        decode_bytes(t, spec_bpe(t, seg)) == encode_utf8(seg),
        decodable(t, spec_bpe(t, seg)),
{
    lemma_ids_of_spell(t, bpe_merge(t, singletons(seg)));
    lemma_bpe_merge_flatten(t, singletons(seg));
    lemma_singletons_flatten(seg);
}

proof fn lemma_encode_from_bytes(t: TokenizerView, rest: Seq<char>, buf: Seq<char>)
    requires
        t.pieces.len() <= 0x1_0000_0000,
        markers_name_pieces(t),
        segments_spell_pieces(t, rest, buf),
    ensures
        decode_bytes(t, encode_from(t, rest, buf)) == encode_utf8(buf + rest),
        decodable(t, encode_from(t, rest, buf)),
        scan_ends(t, rest),
    decreases rest.len(),
{
    if rest.len() == 0 {
        lemma_bpe_spell(t, buf);
        assert(buf + rest =~= buf);
    } else {
        match first_marker_from(t.markers, rest, 0) {
            Some(k) => {
                lemma_first_marker_matches(t.markers, rest, 0);
                let m = t.markers[k];
                let l = m.0.len() as int;
                let tail = rest.skip(l);
                lemma_bpe_spell(t, buf);
                lemma_encode_from_bytes(t, tail, seq![]);
                assert(seq![] + tail =~= tail);
                lemma_decode_one(t, m.1);
                assert(piece_output(t, m.1) == encode_utf8(m.0));
                let head = spec_bpe(t, buf) + seq![m.1];
                lemma_decode_bytes_concat(t, spec_bpe(t, buf), seq![m.1]);
                lemma_decode_bytes_concat(t, head, encode_from(t, tail, seq![]));
                assert(m.0 == rest.take(l));
                assert(rest =~= rest.take(l) + tail);
                lemma_encode_utf8_concat(rest.take(l), tail);
                lemma_encode_utf8_concat(buf, rest);
                assert(decode_bytes(t, encode_from(t, rest, buf)) =~= encode_utf8(buf + rest));
            },
            None => {
                lemma_encode_from_bytes(t, rest.drop_first(), buf.push(rest[0]));
                assert(buf.push(rest[0]) + rest.drop_first() =~= buf + rest);
            },
        }
    }
}

proof fn lemma_unescape_escape(t: TokenizerView, text: Seq<char>)
    requires
        !text.contains(space_mark()),
    ensures
        escape(t, text).map_values(|c: char| unescape_char(c)) == if t.add_dummy_prefix {
            seq![' '] + text
        } else {
            text
        },
{
    let e = text.map_values(|c: char| escape_char(c));
    assert forall|i: int| 0 <= i < text.len() implies unescape_char(escape_char(#[trigger] text[i]))
        == text[i] by {
        if text[i] == space_mark() {
            assert(text.contains(space_mark()));
        }
    }
    assert(e.map_values(|c: char| unescape_char(c)) =~= text);
    if t.add_dummy_prefix {
        assert((seq![space_mark()] + e).map_values(|c: char| unescape_char(c)) =~= seq![' ']
            + text);
    }
}

/// Decoding the ids that encoding gives a text yields the text back, behind
/// a space when the tokenizer adds a dummy prefix: whenever the text holds
/// no space mark, markers name their pieces, and every segment merges into
/// symbols that spell pieces. The decoded bytes are then well-formed UTF-8,
/// so `Tokenizer::decode` returns exactly `decoded_text(t, text)`.
pub proof fn lemma_round_trip(t: TokenizerView, text: Seq<char>)
    requires
        encodes_plainly(t, text),
    ensures
        encode_ends(t, text),
        decodable(t, spec_encode(t, text)),
        valid_utf8(decode_bytes(t, spec_encode(t, text))),
        decode_utf8(decode_bytes(t, spec_encode(t, text))).map_values(|c: char| unescape_char(c))
            == decoded_text(t, text),
{
    if text.len() == 0 {
        assert(decode_bytes(t, spec_encode(t, text)) == encode_utf8(Seq::<char>::empty()));
        assert(decode_utf8(encode_utf8(Seq::<char>::empty())) == Seq::<char>::empty());
        assert(Seq::<char>::empty().map_values(|c: char| unescape_char(c)) =~= text);
    } else {
        let e = escape(t, text);
        lemma_encode_from_bytes(t, e, seq![]);
        assert(seq![] + e =~= e);
        assert(decode_utf8(encode_utf8(e)) == e);
        lemma_unescape_escape(t, text);
    }
}

proof fn lemma_pieces_from_len(b: Seq<u8>, o: int, count: nat)
    ensures
        pieces_from(b, o, count) matches Ok(ps) ==> ps.len() == count,
    decreases count,
{
    if count > 0 {
        match piece_at(b, o) {
            Ok((p, next)) => {
                lemma_pieces_from_len(b, next, (count - 1) as nat);
            },
            Err(_) => {},
        }
    }
}

proof fn lemma_count_bound(b: Seq<u8>)
    ensures
        le_value(b, 0, 4) < 0x1_0000_0000,
{
    assert(le_value(b, 4, 0) == 0);
    assert(le_value(b, 3, 1) < 0x100);
    assert(le_value(b, 2, 2) < 0x1_0000);
    assert(le_value(b, 1, 3) < 0x100_0000);
}

/// A tokenizer read from a blob meets the table conditions of the round
/// trip: its ids fit in `u32` and every marker names its marker piece.
pub proof fn lemma_parsed_tokenizer_plain(b: Seq<u8>, t: TokenizerView)
    requires
        tokenizer_from(b) == Ok::<TokenizerView, crate::error::CactError>(t),
    ensures
        t.pieces.len() <= 0x1_0000_0000,
        markers_name_pieces(t),
{
    let count = le_value(b, 0, 4);
    let raw = pieces_from(b, 24, count)->Ok_0;
    lemma_pieces_from_len(b, 24, count);
    lemma_count_bound(b);
    lemma_marker_entries(raw);
    assert forall|k: int| 0 <= k < t.markers.len() implies {
        let m = #[trigger] t.markers[k];
        m.1 < t.pieces.len() && t.pieces[m.1 as int] == (KIND_MARKER, m.0)
    } by {
        assert(marker_entry_ok(raw, t.markers[k]));
    }
}

} // verus!
