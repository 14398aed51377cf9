//! Persistence codec for the history store.
//!
//! A store is written as a sequence of 64-bit words, each laid down as 8
//! little-endian bytes: first `max_size`, `next_id` and the entry count,
//! then per entry its id, its timestamp, its character count and one word
//! per character. `deserialize` never fails the caller: malformed bytes, or
//! bytes that decode to an ill-formed store, yield a fresh empty store with
//! the supplied bound.

use vstd::prelude::*;
use vstd::bytes::{lemma_auto_spec_u64_to_from_le_bytes, spec_u64_from_le_bytes,
    spec_u64_to_le_bytes, spec_u64_to_le_bytes_to_open, spec_u64_to_le_bytes_open};
use crate::history::{ClipboardEntry, EntryModel, History, HistoryModel, entries_model};

verus! {

/// The two's-complement word that stands for timestamp `t`.
pub open spec fn ts_to_word(t: int) -> u64
    recommends
        i64::MIN <= t <= i64::MAX,
{
    (if t >= 0 {
        t
    } else {
        t + 0x10000000000000000
    }) as u64
}

/// The timestamp a word stands for.
pub open spec fn word_to_ts(w: u64) -> int {
    if w <= i64::MAX as u64 {
        w as int
    } else {
        w as int - 0x10000000000000000
    }
}

/// The code point of a character, as a word.
pub open spec fn code_of(c: char) -> u64 {
    c as u64
}

/// Whether some character has `w` as its code point.
pub open spec fn is_scalar_word(w: u64) -> bool {
    exists|c: char| #[trigger] code_of(c) == w
}

/// The character whose code point is `w` (meaningful when one exists).
pub open spec fn char_of(w: u64) -> char {
    choose|c: char| #[trigger] code_of(c) == w
}

/// Every character's code point lies within the Unicode range.
proof fn lemma_char_range(c: char)
    ensures
        c as u64 <= 0x10FFFF,
{
}

/// Characters with equal code points are equal.
proof fn lemma_char_inj(a: char, b: char)
    requires
        a as u64 == b as u64,
    ensures
        a == b,
{
}

/// A text as one word per character.
pub open spec fn content_words(s: Seq<char>) -> Seq<u64> {
    s.map_values(|c: char| code_of(c))
}

/// The words of one entry: id, timestamp, character count, characters.
pub open spec fn entry_words(e: EntryModel) -> Seq<u64> {
    seq![e.id as u64, ts_to_word(e.created_at), e.content.len() as u64] + content_words(e.content)
}

/// The words of a sequence of entries, in order.
pub open spec fn entries_words(es: Seq<EntryModel>) -> Seq<u64>
    decreases es.len(),
{
    if es.len() == 0 {
        Seq::empty()
    } else {
        entry_words(es.first()) + entries_words(es.drop_first())
    }
}

/// The words of a whole store: bound, id counter, entry count, entries.
pub open spec fn store_words(m: HistoryModel) -> Seq<u64> {
    seq![m.max_size as u64, m.next_id as u64, m.entries.len() as u64] + entries_words(m.entries)
}

/// Words laid down as 8 little-endian bytes each.
pub open spec fn words_to_bytes(ws: Seq<u64>) -> Seq<u8>
    decreases ws.len(),
{
    if ws.len() == 0 {
        Seq::empty()
    } else {
        spec_u64_to_le_bytes(ws.first()) + words_to_bytes(ws.drop_first())
    }
}

/// The byte encoding of a store.
pub open spec fn spec_serialize(m: HistoryModel) -> Seq<u8> {
    words_to_bytes(store_words(m))
}

/// The field values of every entry fit the machine types they are written
/// as. Every store read off an executable `History` satisfies this.
pub open spec fn bounded_entries(es: Seq<EntryModel>) -> bool {
    forall|i: int|
        0 <= i < es.len() ==> {
            &&& 0 <= (#[trigger] es[i]).id <= u64::MAX
            &&& i64::MIN <= es[i].created_at <= i64::MAX
            &&& es[i].content.len() <= u64::MAX
        }
}

/// The store's values fit the machine types they are written as.
pub open spec fn bounded(m: HistoryModel) -> bool {
    &&& 0 <= m.max_size <= usize::MAX
    &&& 0 <= m.next_id <= u64::MAX
    &&& m.entries.len() <= u64::MAX
    &&& bounded_entries(m.entries)
}

/// Bytes back to words: every group of 8 little-endian bytes is one word;
/// a trailing group shorter than 8 makes the bytes malformed.
pub open spec fn parse_words(bs: Seq<u8>) -> Option<Seq<u64>>
    decreases bs.len(),
{
    if bs.len() == 0 {
        Some(Seq::empty())
    } else if bs.len() < 8 {
        None
    } else {
        match parse_words(bs.skip(8)) {
            Some(ws) => Some(seq![spec_u64_from_le_bytes(bs.take(8))] + ws),
            None => None,
        }
    }
}

/// Words back to a text: every word must be some character's code point.
pub open spec fn parse_content(ws: Seq<u64>) -> Option<Seq<char>>
    decreases ws.len(),
{
    if ws.len() == 0 {
        Some(Seq::empty())
    } else if is_scalar_word(ws.first()) {
        match parse_content(ws.drop_first()) {
            Some(cs) => Some(seq![char_of(ws.first())] + cs),
            None => None,
        }
    } else {
        None
    }
}

/// Words back to `count` entries, returning the leftover words.
pub open spec fn parse_entries(ws: Seq<u64>, count: nat) -> Option<(Seq<EntryModel>, Seq<u64>)>
    decreases count,
{
    if count == 0 {
        Some((Seq::empty(), ws))
    } else if ws.len() < 3 {
        None
    } else {
        let n = ws[2] as int;
        if ws.len() < 3 + n {
            None
        } else {
            match parse_content(ws.subrange(3, 3 + n)) {
                Some(cs) => match parse_entries(ws.skip(3 + n), (count - 1) as nat) {
                    Some(r) => Some(
                        (
                            seq![
                                EntryModel {
                                    id: ws[0] as int,
                                    content: cs,
                                    created_at: word_to_ts(ws[1]),
                                },
                            ] + r.0,
                            r.1,
                        ),
                    ),
                    None => None,
                },
                None => None,
            }
        }
    }
}

/// Bytes back to a store: header, entries, and nothing left over.
pub open spec fn parse_store(bs: Seq<u8>) -> Option<HistoryModel> {
    match parse_words(bs) {
        Some(ws) => if ws.len() < 3 {
            None
        } else {
            match parse_entries(ws.skip(3), ws[2] as nat) {
                Some(r) => if r.1.len() == 0 {
                    Some(
                        HistoryModel {
                            entries: r.0,
                            max_size: ws[0] as int,
                            next_id: ws[1] as int,
                        },
                    )
                } else {
                    None
                },
                None => None,
            }
        },
        None => None,
    }
}

/// A decoded store is kept only when it is well formed and its bound fits
/// the machine.
pub open spec fn accepted(m: HistoryModel) -> bool {
    m.wf() && m.max_size <= usize::MAX
}

/// What `deserialize` returns: the decoded store when the bytes carry a
/// well-formed one, else a fresh empty store with the supplied bound.
pub open spec fn spec_deserialize(bs: Seq<u8>, fallback_max: int) -> HistoryModel {
    match parse_store(bs) {
        Some(m) => if accepted(m) {
            m
        } else {
            HistoryModel::empty(fallback_max)
        },
        None => HistoryModel::empty(fallback_max),
    }
}

/// Writing words and reading them back yields the words.
proof fn lemma_parse_words_round(ws: Seq<u64>)
    ensures
        words_to_bytes(ws).len() == 8 * ws.len(),
        parse_words(words_to_bytes(ws)) == Some(ws),
    decreases ws.len(),
{
    lemma_auto_spec_u64_to_from_le_bytes();
    if ws.len() > 0 {
        let head = spec_u64_to_le_bytes(ws.first());
        let tail = words_to_bytes(ws.drop_first());
        lemma_parse_words_round(ws.drop_first());
        let bs = words_to_bytes(ws);
        assert(bs == head + tail);
        assert(bs.take(8) =~= head);
        assert(bs.skip(8) =~= tail);
        assert(spec_u64_from_le_bytes(spec_u64_to_le_bytes(ws.first())) == ws.first());
        assert(seq![ws.first()] + ws.drop_first() =~= ws);
    }
}

/// Writing a text and reading it back yields the text.
proof fn lemma_parse_content_round(cs: Seq<char>)
    ensures
        content_words(cs).len() == cs.len(),
        parse_content(content_words(cs)) == Some(cs),
    decreases cs.len(),
{
    if cs.len() > 0 {
        let cw = content_words(cs);
        let c0 = cs[0];
        let w = cw.first();
        assert(code_of(c0) == w);
        assert(is_scalar_word(w)) by {
            assert(code_of(c0) == w);
        }
        assert(code_of(char_of(w)) == w);
        lemma_char_inj(char_of(w), c0);
        assert(char_of(w) == c0);
        assert(cw.drop_first() =~= content_words(cs.drop_first()));
        lemma_parse_content_round(cs.drop_first());
        assert(seq![c0] + cs.drop_first() =~= cs);
    }
}

/// Writing entries and reading them back yields the entries, leaving any
/// trailing words untouched.
proof fn lemma_parse_entries_round(es: Seq<EntryModel>, rest: Seq<u64>)
    requires
        bounded_entries(es),
    ensures
        parse_entries(entries_words(es) + rest, es.len() as nat) == Some((es, rest)),
    decreases es.len(),
{
    if es.len() == 0 {
        assert(entries_words(es) + rest =~= rest);
        assert(parse_entries(rest, 0) == Some((Seq::<EntryModel>::empty(), rest)));
        assert(Seq::<EntryModel>::empty() =~= es);
    } else {
        let e = es.first();
        let ew = entry_words(e);
        let later = entries_words(es.drop_first()) + rest;
        let ws = entries_words(es) + rest;
        assert(ws =~= ew + later);
        let cw = content_words(e.content);
        let n = e.content.len() as int;
        assert(cw.len() == n);
        assert(ew.len() == 3 + n);
        assert(ws[0] == e.id as u64);
        assert(ws[1] == ts_to_word(e.created_at));
        assert(ws[2] == e.content.len() as u64);
        assert(ws[2] as int == n);
        assert(ws.len() >= 3 + n);
        assert(ws.subrange(3, 3 + n) =~= cw);
        lemma_parse_content_round(e.content);
        assert(ws.skip(3 + n) =~= later);
        assert(bounded_entries(es.drop_first())) by {
            assert(forall|i: int|
                0 <= i < es.drop_first().len() ==> (#[trigger] es.drop_first()[i]) == es[i + 1]);
        }
        lemma_parse_entries_round(es.drop_first(), rest);
        let rebuilt = EntryModel {
            id: (e.id as u64) as int,
            content: e.content,
            created_at: word_to_ts(ts_to_word(e.created_at)),
        };
        assert(rebuilt.id == e.id);
        assert(rebuilt.created_at == e.created_at);
        assert(rebuilt == e);
        assert(seq![e] + es.drop_first() =~= es);
    }
}

/// Appending an entry appends its words.
proof fn lemma_entries_words_snoc(es: Seq<EntryModel>, e: EntryModel)
    ensures
        entries_words(es.push(e)) == entries_words(es) + entry_words(e),
    decreases es.len(),
{
    let p = es.push(e);
    if es.len() == 0 {
        assert(p.first() == e);
        assert(p.drop_first() =~= Seq::<EntryModel>::empty());
        assert(entries_words(p.drop_first()) == Seq::<u64>::empty());
        assert(entries_words(p) == entry_words(e) + Seq::<u64>::empty());
        assert(entry_words(e) + Seq::<u64>::empty() =~= entry_words(e));
        assert(entries_words(es) + entry_words(e) =~= entry_words(e));
    } else {
        assert(p.first() == es.first());
        assert(p.drop_first() =~= es.drop_first().push(e));
        lemma_entries_words_snoc(es.drop_first(), e);
        assert(entries_words(p) == entry_words(es.first()) + (entries_words(es.drop_first())
            + entry_words(e)));
        assert(entry_words(es.first()) + (entries_words(es.drop_first()) + entry_words(e)) =~= (
        entry_words(es.first()) + entries_words(es.drop_first())) + entry_words(e));
    }
}

/// Appending a word appends its bytes.
proof fn lemma_words_to_bytes_snoc(ws: Seq<u64>, w: u64)
    ensures
        words_to_bytes(ws.push(w)) == words_to_bytes(ws) + spec_u64_to_le_bytes(w),
    decreases ws.len(),
{
    let p = ws.push(w);
    if ws.len() == 0 {
        assert(p.first() == w);
        assert(p.drop_first() =~= Seq::<u64>::empty());
        assert(words_to_bytes(p.drop_first()) == Seq::<u8>::empty());
        assert(words_to_bytes(p) == spec_u64_to_le_bytes(w) + Seq::<u8>::empty());
        assert(spec_u64_to_le_bytes(w) + Seq::<u8>::empty() =~= spec_u64_to_le_bytes(w));
        assert(words_to_bytes(ws) + spec_u64_to_le_bytes(w) =~= spec_u64_to_le_bytes(w));
    } else {
        assert(p.first() == ws.first());
        assert(p.drop_first() =~= ws.drop_first().push(w));
        lemma_words_to_bytes_snoc(ws.drop_first(), w);
        assert(words_to_bytes(p) == spec_u64_to_le_bytes(ws.first()) + (words_to_bytes(
            ws.drop_first(),
        ) + spec_u64_to_le_bytes(w)));
        assert(spec_u64_to_le_bytes(ws.first()) + (words_to_bytes(ws.drop_first())
            + spec_u64_to_le_bytes(w)) =~= (spec_u64_to_le_bytes(ws.first()) + words_to_bytes(
            ws.drop_first(),
        )) + spec_u64_to_le_bytes(w));
    }
}

/// Append the 8 little-endian bytes of `w`.
fn push_word_bytes(out: &mut Vec<u8>, w: u64)
    ensures
        final(out)@ == old(out)@ + spec_u64_to_le_bytes(w),
{
    proof {
        spec_u64_to_le_bytes_to_open(w);
        assert((w & 0xff) < 256 && ((w >> 8) & 0xff) < 256 && ((w >> 16) & 0xff) < 256 && ((w
            >> 24) & 0xff) < 256 && ((w >> 32) & 0xff) < 256 && ((w >> 40) & 0xff) < 256 && ((w
            >> 48) & 0xff) < 256 && ((w >> 56) & 0xff) < 256) by (bit_vector);
    }
    out.push((w & 0xff) as u8);
    out.push(((w >> 8) & 0xff) as u8);
    out.push(((w >> 16) & 0xff) as u8);
    out.push(((w >> 24) & 0xff) as u8);
    out.push(((w >> 32) & 0xff) as u8);
    out.push(((w >> 40) & 0xff) as u8);
    out.push(((w >> 48) & 0xff) as u8);
    out.push(((w >> 56) & 0xff) as u8);
    proof {
        assert(out@ =~= old(out)@ + spec_u64_to_le_bytes_open(w));
    }
}

/// Encode a store as bytes. (The second clause records that every value of
/// the store fits the machine word it is written as, which lets callers
/// apply the round-trip law.)
pub fn serialize(h: &History) -> (r: Vec<u8>)
    ensures
        r@ == spec_serialize(h@),
        bounded(h@),
        h@.entries.len() <= usize::MAX,
{
    let entries = h.entries();
    let n = entries.len();
    let mut ws: Vec<u64> = Vec::new();
    ws.push(h.max_size() as u64);
    ws.push(h.next_id());
    ws.push(n as u64);
    let ghost header = seq![h@.max_size as u64, h@.next_id as u64, h@.entries.len() as u64];
    proof {
        assert(ws@ =~= header);
    }
    let mut i: usize = 0;
    while i < n
        invariant
            n == entries@.len(),
            entries_model(entries@) == h@.entries,
            0 <= i <= n,
            header == seq![h@.max_size as u64, h@.next_id as u64, h@.entries.len() as u64],
            ws@ == header + entries_words(h@.entries.take(i as int)),
            forall|j: int|
                0 <= j < i ==> (#[trigger] h@.entries[j]).content.len() <= u64::MAX,
        decreases n - i,
    {
        let ghost em = h@.entries[i as int];
        let e = &entries[i];
        proof {
            assert(e@ == em);
        }
        let ghost pre = ws@;
        ws.push(e.id);
        let t = e.created_at;
        let tw: u64 = if t >= 0 {
            t as u64
        } else {
            u64::MAX - ((-(t + 1)) as u64)
        };
        proof {
            assert(tw == ts_to_word(em.created_at));
        }
        ws.push(tw);
        let s = e.content.as_str();
        let clen = s.unicode_len();
        ws.push(clen as u64);
        proof {
            assert(ws@ =~= pre + seq![em.id as u64, ts_to_word(em.created_at), em.content.len() as u64]);
        }
        let ghost pre3 = ws@;
        let ghost cm = em.content;
        let mut j: usize = 0;
        while j < clen
            invariant
                clen == cm.len(),
                s@ == cm,
                0 <= j <= clen,
                ws@ == pre3 + content_words(cm.take(j as int)),
            decreases clen - j,
        {
            let c = s.get_char(j);
            ws.push(c as u64);
            proof {
                assert(content_words(cm.take(j + 1)) =~= content_words(cm.take(j as int)).push(
                    code_of(cm[j as int]),
                ));
                assert(ws@ =~= pre3 + content_words(cm.take(j + 1)));
            }
            j += 1;
        }
        proof {
            assert(cm.take(clen as int) =~= cm);
            assert(ws@ =~= pre + entry_words(em));
            lemma_entries_words_snoc(h@.entries.take(i as int), em);
            assert(h@.entries.take(i as int).push(em) =~= h@.entries.take(i + 1));
            assert(ws@ =~= header + entries_words(h@.entries.take(i + 1)));
        }
        i += 1;
    }
    proof {
        assert(h@.entries.take(n as int) =~= h@.entries);
        assert(ws@ =~= store_words(h@));
        assert(bounded_entries(h@.entries)) by {
            assert forall|j: int| 0 <= j < h@.entries.len() implies {
                &&& 0 <= (#[trigger] h@.entries[j]).id <= u64::MAX
                &&& i64::MIN <= h@.entries[j].created_at <= i64::MAX
                &&& h@.entries[j].content.len() <= u64::MAX
            } by {
                assert(h@.entries[j] == entries@[j]@);
            }
        }
    }
    let wn = ws.len();
    let mut out: Vec<u8> = Vec::new();
    let mut k: usize = 0;
    while k < wn
        invariant
            wn == ws@.len(),
            ws@ == store_words(h@),
            0 <= k <= wn,
            out@ == words_to_bytes(ws@.take(k as int)),
        decreases wn - k,
    {
        push_word_bytes(&mut out, ws[k]);
        proof {
            lemma_words_to_bytes_snoc(ws@.take(k as int), ws@[k as int]);
            assert(ws@.take(k as int).push(ws@[k as int]) =~= ws@.take(k + 1));
        }
        k += 1;
    }
    proof {
        assert(ws@.take(wn as int) =~= ws@);
    }
    out
}

/// Relies on `char::from_u32`: `Some` exactly when some character has `v`
/// as its code point, and then the character with that code point.
#[verifier::external_body]
fn char_from_u32(v: u32) -> (r: Option<char>)
    ensures
        match r {
            Some(c) => code_of(c) == v as u64,
            None => !is_scalar_word(v as u64),
        },
{
    char::from_u32(v)
}

/// Relies on `String`'s `FromIterator` impl: collecting characters yields
/// the string of exactly those characters, in order.
#[verifier::external_body]
fn string_from_chars(cs: &Vec<char>) -> (s: String)
    ensures
        s@ == cs@,
{
    cs.iter().collect()
}

/// Bytes whose length is not a multiple of 8 do not parse into words.
proof fn lemma_parse_words_none(bs: Seq<u8>)
    requires
        bs.len() % 8 != 0,
    ensures
        parse_words(bs) is None,
    decreases bs.len(),
{
    if bs.len() >= 8 {
        assert(bs.skip(8).len() % 8 != 0);
        lemma_parse_words_none(bs.skip(8));
    }
}

/// Bytes whose length is a multiple of 8 parse into one word per 8-byte
/// group, each read little-endian.
proof fn lemma_parse_words_all(bs: Seq<u8>)
    requires
        bs.len() % 8 == 0,
    ensures
        parse_words(bs) is Some,
        parse_words(bs)->0.len() * 8 == bs.len(),
        forall|j: int|
            0 <= j < parse_words(bs)->0.len() ==> parse_words(bs)->0[j]
                == spec_u64_from_le_bytes(#[trigger] bs.subrange(8 * j, 8 * j + 8)),
    decreases bs.len(),
{
    if bs.len() >= 8 {
        let tail = bs.skip(8);
        assert(tail.len() % 8 == 0);
        lemma_parse_words_all(tail);
        let tw = parse_words(tail)->0;
        let ws = parse_words(bs)->0;
        assert(ws == seq![spec_u64_from_le_bytes(bs.take(8))] + tw);
        assert forall|j: int| 0 <= j < ws.len() implies ws[j] == spec_u64_from_le_bytes(
            #[trigger] bs.subrange(8 * j, 8 * j + 8),
        ) by {
            if j == 0 {
                assert(bs.take(8) =~= bs.subrange(0, 8));
            } else {
                assert(ws[j] == tw[j - 1]);
                assert(tail.subrange(8 * (j - 1), 8 * (j - 1) + 8) =~= bs.subrange(
                    8 * j,
                    8 * j + 8,
                ));
            }
        }
    }
}

/// Read the word at byte offset `off`.
fn read_word(bytes: &Vec<u8>, off: usize) -> (w: u64)
    requires
        off + 8 <= bytes@.len(),
    ensures
        w == spec_u64_from_le_bytes(bytes@.subrange(off as int, off as int + 8)),
{
    let total = bytes.len();
    let b0 = bytes[off];
    let b1 = bytes[off + 1];
    let b2 = bytes[off + 2];
    let b3 = bytes[off + 3];
    let b4 = bytes[off + 4];
    let b5 = bytes[off + 5];
    let b6 = bytes[off + 6];
    let b7 = bytes[off + 7];
    let w = (b0 as u64) | ((b1 as u64) << 8) | ((b2 as u64) << 16) | ((b3 as u64) << 24) | ((
    b4 as u64) << 32) | ((b5 as u64) << 40) | ((b6 as u64) << 48) | ((b7 as u64) << 56);
    proof {
        lemma_auto_spec_u64_to_from_le_bytes();
        spec_u64_to_le_bytes_to_open(w);
        assert((w == (b0 as u64) | ((b1 as u64) << 8) | ((b2 as u64) << 16) | ((b3 as u64) << 24)
            | ((b4 as u64) << 32) | ((b5 as u64) << 40) | ((b6 as u64) << 48) | ((b7 as u64)
            << 56)) ==> ((w & 0xff) as u8 == b0 && ((w >> 8) & 0xff) as u8 == b1 && ((w >> 16)
            & 0xff) as u8 == b2 && ((w >> 24) & 0xff) as u8 == b3 && ((w >> 32) & 0xff) as u8 == b4
            && ((w >> 40) & 0xff) as u8 == b5 && ((w >> 48) & 0xff) as u8 == b6 && ((w >> 56)
            & 0xff) as u8 == b7)) by (bit_vector);
        let s = bytes@.subrange(off as int, off as int + 8);
        assert(spec_u64_to_le_bytes_open(w) =~= s);
        assert(spec_u64_to_le_bytes(w) == s);
        assert(spec_u64_from_le_bytes(spec_u64_to_le_bytes(w)) == w);
    }
    w
}

/// Prefix already decoded, in front of what the rest of the words yield.
spec fn prepend_entries(pre: Seq<EntryModel>, r: Option<(Seq<EntryModel>, Seq<u64>)>) -> Option<
    (Seq<EntryModel>, Seq<u64>),
> {
    match r {
        Some(p) => Some((pre + p.0, p.1)),
        None => None,
    }
}

/// Prefix already decoded, in front of what the rest of the words yield.
spec fn prepend_content(pre: Seq<char>, r: Option<Seq<char>>) -> Option<Seq<char>> {
    match r {
        Some(cs) => Some(pre + cs),
        None => None,
    }
}

/// Whether the first `k` entries satisfy the store's well-formedness
/// conditions on entries, against id counter `next_id`.
spec fn wf_upto(es: Seq<EntryModel>, next_id: int, k: int) -> bool {
    &&& forall|i: int| 0 <= i < k ==> (#[trigger] es[i]).content.len() > 0
    &&& forall|i: int| 0 <= i < k ==> (#[trigger] es[i]).id < next_id
    &&& forall|i: int, j: int|
        0 <= i < j < k ==> (#[trigger] es[i]).content != (#[trigger] es[j]).content
    &&& forall|i: int, j: int| 0 <= i < j < k ==> (#[trigger] es[i]).id != (#[trigger] es[j]).id
}

/// Decide the well-formedness conditions on decoded entries.
fn check_entries(ents: &Vec<ClipboardEntry>, w_nid: u64) -> (ok: bool)
    ensures
        ok == wf_upto(entries_model(ents@), w_nid as int, ents@.len() as int),
{
    let ghost em = entries_model(ents@);
    let n = ents.len();
    let mut ok = true;
    let mut i: usize = 0;
    while i < n
        invariant
            n == ents@.len(),
            em == entries_model(ents@),
            0 <= i <= n,
            ok == wf_upto(em, w_nid as int, i as int),
        decreases n - i,
    {
        let mut good = !ents[i].content.as_str().is_empty() && ents[i].id < w_nid;
        proof {
            assert(em[i as int] == ents@[i as int]@);
        }
        let ghost base = good;
        let mut j: usize = 0;
        while j < i
            invariant
                n == ents@.len(),
                em == entries_model(ents@),
                0 <= j <= i < n,
                good == (base && forall|jj: int|
                    0 <= jj < j ==> (#[trigger] em[jj]).content != em[i as int].content && em[jj].id
                        != em[i as int].id),
            decreases i - j,
        {
            let conflict = ents[j].content.eq(&ents[i].content) || ents[j].id == ents[i].id;
            proof {
                assert(em[j as int] == ents@[j as int]@);
                assert(em[i as int] == ents@[i as int]@);
            }
            if conflict {
                good = false;
            }
            j += 1;
        }
        ok = ok && good;
        proof {
            assert(ok == wf_upto(em, w_nid as int, i + 1)) by {
                if ok {
                } else {
                    if wf_upto(em, w_nid as int, i + 1) {
                        assert(wf_upto(em, w_nid as int, i as int));
                        assert(em[i as int].content.len() > 0);
                        assert(em[i as int].id < w_nid as int);
                        assert(forall|jj: int|
                            0 <= jj < i ==> (#[trigger] em[jj]).content != em[i as int].content
                                && em[jj].id != em[i as int].id);
                    }
                }
            }
        }
        i += 1;
    }
    ok
}

/// Decode a store from bytes; on malformed bytes, or bytes carrying an
/// ill-formed store, start over empty with the supplied bound.
pub fn deserialize(bytes: &Vec<u8>, max_size: usize) -> (h: History)
    ensures
        h@ == spec_deserialize(bytes@, max_size as int),
        h@.wf(),
{
    let blen = bytes.len();
    if blen % 8 != 0 {
        proof {
            lemma_parse_words_none(bytes@);
        }
        return History::new(max_size);
    }
    let wn = blen / 8;
    proof {
        lemma_parse_words_all(bytes@);
    }
    let ghost gws = parse_words(bytes@)->0;
    let mut ws: Vec<u64> = Vec::new();
    let mut k: usize = 0;
    while k < wn
        invariant
            blen == bytes@.len(),
            bytes@.len() == 8 * wn,
            bytes@.len() % 8 == 0,
            0 <= k <= wn,
            ws@.len() == k,
            gws == parse_words(bytes@)->0,
            parse_words(bytes@) is Some,
            gws.len() == wn,
            forall|j: int| 0 <= j < k ==> ws@[j] == gws[j],
        decreases wn - k,
    {
        let w = read_word(bytes, 8 * k);
        proof {
            lemma_parse_words_all(bytes@);
            assert(gws[k as int] == spec_u64_from_le_bytes(bytes@.subrange(
                8 * (k as int),
                8 * (k as int) + 8,
            )));
        }
        ws.push(w);
        k += 1;
    }
    proof {
        assert(ws@ =~= gws);
    }
    if wn < 3 {
        return History::new(max_size);
    }
    let w_max = ws[0];
    let w_nid = ws[1];
    let w_count = ws[2];

    let mut ents: Vec<ClipboardEntry> = Vec::new();
    let mut cursor: usize = 3;
    let mut done: u64 = 0;
    proof {
        let r0 = parse_entries(gws.skip(3), w_count as nat);
        assert(prepend_entries(entries_model(ents@), r0) == r0) by {
            assert(entries_model(ents@) =~= Seq::<EntryModel>::empty());
            match r0 {
                Some(p) => {
                    assert(entries_model(ents@) + p.0 =~= p.0);
                },
                None => {},
            }
        }
    }
    while done < w_count
        invariant
            ws@ == gws,
            parse_words(bytes@) == Some(gws),
            gws.len() == wn,
            wn >= 3,
            w_count == gws[2],
            3 <= cursor <= wn,
            0 <= done <= w_count,
            parse_entries(gws.skip(3), w_count as nat) == prepend_entries(
                entries_model(ents@),
                parse_entries(gws.skip(cursor as int), (w_count - done) as nat),
            ),
        decreases w_count - done,
    {
        let ghost rem = gws.skip(cursor as int);
        let ghost rcount = (w_count - done) as nat;
        if wn - cursor < 3 {
            proof {
                assert(rem.len() < 3);
                assert(parse_entries(rem, rcount) is None);
            }
            return History::new(max_size);
        }
        let id = ws[cursor];
        let tsw = ws[cursor + 1];
        let cl = ws[cursor + 2];
        proof {
            assert(rem[0] == gws[cursor as int]);
            assert(rem[1] == gws[cursor as int + 1]);
            assert(rem[2] == gws[cursor as int + 2]);
        }
        if cl > (wn - cursor - 3) as u64 {
            proof {
                assert(rem.len() < 3 + rem[2] as int);
                assert(parse_entries(rem, rcount) is None);
            }
            return History::new(max_size);
        }
        let cln = cl as usize;
        let ghost cws = rem.subrange(3, 3 + cln as int);
        let mut chars: Vec<char> = Vec::new();
        let mut j: usize = 0;
        proof {
            assert(cws.skip(0) =~= cws);
            let r0 = parse_content(cws);
            assert(prepend_content(chars@, r0) == r0) by {
                assert(chars@ =~= Seq::<char>::empty());
                match r0 {
                    Some(cs) => {
                        assert(chars@ + cs =~= cs);
                    },
                    None => {},
                }
            }
        }
        while j < cln
            invariant
                ws@ == gws,
                parse_words(bytes@) == Some(gws),
                gws.len() == wn,
                wn >= 3,
                w_count == gws[2],
                3 <= cursor,
                cursor + 3 + cln <= wn,
                cln as int == cws.len(),
                rem == gws.skip(cursor as int),
                rcount == (w_count - done) as nat,
                rcount >= 1,
                rem[2] as int == cln,
                cws == rem.subrange(3, 3 + cln as int),
                parse_entries(gws.skip(3), w_count as nat) == prepend_entries(
                    entries_model(ents@),
                    parse_entries(rem, rcount),
                ),
                0 <= j <= cln,
                chars@.len() == j,
                parse_content(cws) == prepend_content(chars@, parse_content(cws.skip(j as int))),
            decreases cln - j,
        {
            let w = ws[cursor + 3 + j];
            let ghost crem = cws.skip(j as int);
            proof {
                assert(crem[0] == cws[j as int]);
                assert(cws[j as int] == gws[cursor as int + 3 + j]);
            }
            if w > 0xFFFFFFFF {
                proof {
                    assert(!is_scalar_word(w)) by {
                        if is_scalar_word(w) {
                            let c = choose|c: char| #[trigger] code_of(c) == w;
                            assert(code_of(c) == w);
                            lemma_char_range(c);
                            assert(false);
                        }
                    }
                    assert(parse_content(crem) is None);
                    assert(parse_content(cws) is None);
                    assert(parse_entries(rem, rcount) is None);
                }
                return History::new(max_size);
            }
            match char_from_u32(w as u32) {
                Some(c) => {
                    let ghost prior = chars@;
                    chars.push(c);
                    proof {
                        assert((w as u32) as u64 == w);
                        assert(is_scalar_word(w)) by {
                            assert(code_of(c) == w);
                        }
                        assert(code_of(char_of(w)) == w);
                        lemma_char_inj(char_of(w), c);
                        assert(crem.first() == w);
                        assert(parse_content(crem) == prepend_content(
                            seq![c],
                            parse_content(crem.drop_first()),
                        ));
                        assert(crem.drop_first() =~= cws.skip(j + 1));
                        assert forall|r2: Option<Seq<char>>| true implies prepend_content(
                            prior,
                            prepend_content(seq![c], r2),
                        ) == prepend_content(chars@, r2) by {
                            match r2 {
                                Some(cs) => {
                                    assert(prior + (seq![c] + cs) =~= (prior + seq![c]) + cs);
                                    assert(chars@ =~= prior + seq![c]);
                                },
                                None => {},
                            }
                        }
                    }
                    j += 1;
                },
                None => {
                    proof {
                        assert((w as u32) as u64 == w);
                        assert(parse_content(crem) is None);
                        assert(parse_content(cws) is None);
                        assert(parse_entries(rem, rcount) is None);
                    }
                    return History::new(max_size);
                },
            }
        }
        proof {
            assert(cws.skip(cln as int) =~= Seq::<u64>::empty());
            assert(parse_content(Seq::<u64>::empty()) == Some(Seq::<char>::empty()));
            assert(chars@ + Seq::<char>::empty() =~= chars@);
            assert(parse_content(cws) == Some(chars@));
        }
        let content = string_from_chars(&chars);
        let ts: i64 = if tsw <= 0x7FFFFFFFFFFFFFFF {
            tsw as i64
        } else {
            -((u64::MAX - tsw) as i64) - 1
        };
        proof {
            assert(ts as int == word_to_ts(tsw));
        }
        let ghost prior_ents = entries_model(ents@);
        ents.push(ClipboardEntry { id, content, created_at: ts });
        cursor = cursor + 3 + cln;
        done = done + 1;
        proof {
            let em = EntryModel { id: id as int, content: chars@, created_at: word_to_ts(tsw) };
            assert(rem.subrange(3, 3 + rem[2] as int) == cws);
            assert(parse_entries(rem, rcount) == prepend_entries(
                seq![em],
                parse_entries(rem.skip(3 + cl as int), (rcount - 1) as nat),
            ));
            assert(rem.skip(3 + cl as int) =~= gws.skip(cursor as int));
            assert(entries_model(ents@) =~= prior_ents + seq![em]);
            assert forall|r2: Option<(Seq<EntryModel>, Seq<u64>)>| true implies prepend_entries(
                prior_ents,
                prepend_entries(seq![em], r2),
            ) == prepend_entries(entries_model(ents@), r2) by {
                match r2 {
                    Some(p) => {
                        assert(prior_ents + (seq![em] + p.0) =~= (prior_ents + seq![em]) + p.0);
                    },
                    None => {},
                }
            }
        }
    }
    proof {
        assert(parse_entries(gws.skip(cursor as int), 0) == Some(
            (Seq::<EntryModel>::empty(), gws.skip(cursor as int)),
        ));
        assert(entries_model(ents@) + Seq::<EntryModel>::empty() =~= entries_model(ents@));
    }
    if cursor != wn {
        proof {
            assert(gws.skip(cursor as int).len() > 0);
        }
        return History::new(max_size);
    }
    proof {
        assert(gws.skip(cursor as int) =~= Seq::<u64>::empty());
        assert(parse_store(bytes@) == Some(
            HistoryModel {
                entries: entries_model(ents@),
                max_size: w_max as int,
                next_id: w_nid as int,
            },
        ));
    }
    let ghost m = parse_store(bytes@)->0;

    // Keep the decoded store only when it is well formed and its bound
    // fits the machine.
    let n = ents.len();
    let ok = (n as u64) <= w_max && w_max <= (usize::MAX as u64) && check_entries(&ents, w_nid);
    if ok {
        proof {
            assert(m.wf());
            assert(accepted(m));
        }
        let h = History::from_parts(ents, w_max as usize, w_nid);
        proof {
            assert(h@ == m);
        }
        h
    } else {
        proof {
            assert(!accepted(m));
        }
        History::new(max_size)
    }
}

/// Round-trip law: any well-formed store whose values fit the machine types
/// comes back unchanged from its own encoding, whatever fallback bound the
/// reader is given.
pub proof fn lemma_serialize_deserialize(m: HistoryModel, fallback_max: int)
    requires
        m.wf(),
        bounded(m),
    ensures
        spec_deserialize(spec_serialize(m), fallback_max) == m,
{
    let sw = store_words(m);
    lemma_parse_words_round(sw);
    assert(sw[0] == m.max_size as u64);
    assert(sw[1] == m.next_id as u64);
    assert(sw[2] == m.entries.len() as u64);
    assert(sw.len() >= 3);
    assert(sw.skip(3) =~= entries_words(m.entries) + Seq::<u64>::empty());
    lemma_parse_entries_round(m.entries, Seq::empty());
    assert(sw[2] as nat == m.entries.len());
    let r = parse_entries(sw.skip(3), sw[2] as nat);
    assert(r == Some((m.entries, Seq::<u64>::empty())));
    let parsed = parse_store(spec_serialize(m));
    assert(parsed == Some(
        HistoryModel { entries: m.entries, max_size: sw[0] as int, next_id: sw[1] as int },
    ));
    assert((m.max_size as u64) as int == m.max_size);
    assert((m.next_id as u64) as int == m.next_id);
    assert(parsed == Some(m));
    assert(accepted(m));
}

} // verus!
