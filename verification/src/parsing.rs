//! Header parsing: splitting each fixed 80-byte record into its name,
//! value-indicator and value fields, classifying it as an End, commentary
//! or value card, assembling the keyword list with long-string
//! continuations merged, and looking up the mandatory scalar fields.

use std::io::Write;

use vstd::prelude::*;

use crate::Error;
use crate::ErrorModel;
use crate::header::valid_bitpix_code;
use crate::text::bytes_range;
use crate::text::bytes_to_chars;
use crate::text::chars_of;
use crate::text::chars_to_string;
use crate::text::dec_digits;
use crate::text::digit_char;
use crate::text::digit_exec;
use crate::text::spec_trim;
use crate::text::trim_bytes;
use crate::values::parse_keyword;
use crate::values::spec_parse_value;
use crate::values::Value;
use crate::values::ValueModel;

verus! {

/// Width of one card record in bytes.
pub const CARD_SIZE: usize = 80;

/// Width of the name field at the start of a card.
pub const NAME_SIZE: usize = 8;

/// Mathematical image of a classified card. Text is carried as character
/// sequences; a byte of the record is read as the character with its code.
pub enum CardModel {
    End,
    Comment(Seq<char>),
    History(Seq<char>),
    Commentary(Seq<char>, Seq<char>),
    RawValue(Seq<char>, Seq<char>),
}

/// The exact 80-byte End literal: `END` left-justified, space-padded.
pub open spec fn spec_end_card() -> Seq<u8> {
    Seq::new(
        80,
        |i: int|
            if i == 0 {
                69u8
            } else if i == 1 {
                78u8
            } else if i == 2 {
                68u8
            } else {
                32u8
            },
    )
}

/// Name of the free-text comment keyword.
pub open spec fn comment_name() -> Seq<char> {
    "COMMENT"@
}

/// Name of the free-text history keyword.
pub open spec fn history_name() -> Seq<char> {
    "HISTORY"@
}

/// Name of the long-string continuation keyword.
pub open spec fn continue_name() -> Seq<char> {
    "CONTINUE"@
}

/// Classification of one 80-byte record. A record equal to the End literal
/// is End; otherwise the two bytes after the 8-byte name field decide: the
/// value indicator `"= "` makes a value card, and anything else a
/// commentary card (named Comment or History when the trimmed name says so).
pub open spec fn spec_classify(card: Seq<u8>) -> CardModel {
    if card == spec_end_card() {
        CardModel::End
    } else if card[8] == 61u8 && card[9] == 32u8 {
        CardModel::RawValue(
            chars_of(spec_trim(card.subrange(0, 8), 32u8)),
            chars_of(spec_trim(card.subrange(10, 80), 32u8)),
        )
    } else {
        let name = chars_of(spec_trim(card.subrange(0, 8), 32u8));
        let text = chars_of(spec_trim(card.subrange(8, 80), 32u8));
        if name == comment_name() {
            CardModel::Comment(text)
        } else if name == history_name() {
            CardModel::History(text)
        } else {
            CardModel::Commentary(name, text)
        }
    }
}

/// One classified 80-byte header record.
#[derive(Debug, PartialEq, Clone)]
pub enum HeaderChunk {
    /// The record that ends the header.
    End,
    /// A card whose name is `COMMENT`, with its trimmed text.
    Comment(String),
    /// A card whose name is `HISTORY`, with its trimmed text.
    History(String),
    /// Any other card without the value indicator: trimmed name and text.
    Commentary(String, String),
    /// A card with the value indicator: trimmed name and raw value field.
    RawValue(String, String),
}

impl View for HeaderChunk {
    type V = CardModel;

    open spec fn view(&self) -> CardModel {
        match self {
            HeaderChunk::End => CardModel::End,
            HeaderChunk::Comment(t) => CardModel::Comment(t@),
            HeaderChunk::History(t) => CardModel::History(t@),
            HeaderChunk::Commentary(n, t) => CardModel::Commentary(n@, t@),
            HeaderChunk::RawValue(n, v) => CardModel::RawValue(n@, v@),
        }
    }
}

/// Whether an 80-byte record equals the End literal, byte for byte.
pub fn is_end_record(card: &Vec<u8>) -> (r: bool)
    requires
        card@.len() == 80,
    ensures
        r == (card@ == spec_end_card()),
{
    let mut i: usize = 0;
    while i < 80
        invariant
            0 <= i <= 80,
            card@.len() == 80,
            forall|k: int| 0 <= k < i ==> card@[k] == spec_end_card()[k],
        decreases 80 - i,
    {
        let expected: u8 = if i == 0 {
            69
        } else if i == 1 {
            78
        } else if i == 2 {
            68
        } else {
            32
        };
        if card[i] != expected {
            proof {
                assert(card@[i as int] != spec_end_card()[i as int]);
            }
            return false;
        }
        i = i + 1;
    }
    proof {
        assert(card@ =~= spec_end_card());
    }
    true
}

/// The name field, whether the value indicator `"= "` is present, and the
/// remaining field of an 80-byte record, split without trimming.
pub fn split_header_chunk(hc_bytes: &Vec<u8>) -> (r: (Vec<u8>, bool, Vec<u8>))
    requires
        hc_bytes@.len() == 80,
    ensures
        r.0@ == hc_bytes@.subrange(0, 8),
        r.1 == (hc_bytes@[8] == 61u8 && hc_bytes@[9] == 32u8),
        r.1 ==> r.2@ == hc_bytes@.subrange(10, 80),
        !r.1 ==> r.2@ == hc_bytes@.subrange(8, 80),
{
    let name = bytes_range(hc_bytes, 0, NAME_SIZE);
    let has_indicator = hc_bytes[8] == 61 && hc_bytes[9] == 32;
    let rest = if has_indicator {
        bytes_range(hc_bytes, 10, CARD_SIZE)
    } else {
        bytes_range(hc_bytes, NAME_SIZE, CARD_SIZE)
    };
    (name, has_indicator, rest)
}

/// `v[from..to]`, space-trimmed, as a string of the bytes' characters.
fn trimmed_text(v: &Vec<u8>, from: usize, to: usize) -> (r: String)
    requires
        from <= to <= v@.len(),
    ensures
        r@ == chars_of(spec_trim(v@.subrange(from as int, to as int), 32u8)),
{
    let t = trim_bytes(v, from, to);
    let c = bytes_to_chars(&t);
    chars_to_string(&c)
}

impl HeaderChunk {
    /// Classify one 80-byte record. A record is End exactly when it equals
    /// the 80-byte End literal; every other record is a value card when the
    /// two bytes after the name field are the indicator `"= "`, and a
    /// commentary card otherwise.
    pub fn from_bytes(hc_bytes: &Vec<u8>) -> (r: Result<HeaderChunk, Error>)
        requires
            hc_bytes@.len() == 80,
        ensures
            r is Ok,
            r->Ok_0@ == spec_classify(hc_bytes@),
            (r->Ok_0 is End <==> hc_bytes@ == spec_end_card()),
            (r->Ok_0 is RawValue <==> (hc_bytes@ != spec_end_card() && hc_bytes@[8] == 61u8
                && hc_bytes@[9] == 32u8)),
            ((r->Ok_0 is Comment || r->Ok_0 is History || r->Ok_0 is Commentary) <==> (
            hc_bytes@ != spec_end_card() && !(hc_bytes@[8] == 61u8 && hc_bytes@[9] == 32u8))),
    {
        if is_end_record(hc_bytes) {
            return Ok(HeaderChunk::End);
        }
        let (_name_bytes, has_indicator, _rest) = split_header_chunk(hc_bytes);
        let name = trimmed_text(hc_bytes, 0, NAME_SIZE);
        if has_indicator {
            let value = trimmed_text(hc_bytes, 10, CARD_SIZE);
            return Ok(HeaderChunk::RawValue(name, value));
        }
        let text = trimmed_text(hc_bytes, NAME_SIZE, CARD_SIZE);
        if name == String::from_str("COMMENT") {
            Ok(HeaderChunk::Comment(text))
        } else if name == String::from_str("HISTORY") {
            Ok(HeaderChunk::History(text))
        } else {
            Ok(HeaderChunk::Commentary(name, text))
        }
    }
}

/// Mathematical image of an assembled keyword.
pub enum KeywordModel {
    History(Seq<char>),
    Comment(Seq<char>),
    Commentary(Seq<char>, Seq<char>),
    Value(Seq<char>, ValueModel, Seq<char>),
    Continue(Seq<char>, ValueModel, Seq<char>),
}

/// One assembled header keyword: a parsed value card, a passthrough
/// commentary entry, or a continuation card kept standalone because its
/// predecessor did not qualify for merging.
#[derive(Debug, PartialEq, Clone)]
pub enum Keyword {
    History(String),
    Comment(String),
    Commentary(String, String),
    Value(String, Value, String),
    Continue(String, Value, String),
}

impl View for Keyword {
    type V = KeywordModel;

    open spec fn view(&self) -> KeywordModel {
        match self {
            Keyword::History(t) => KeywordModel::History(t@),
            Keyword::Comment(t) => KeywordModel::Comment(t@),
            Keyword::Commentary(n, t) => KeywordModel::Commentary(n@, t@),
            Keyword::Value(n, v, c) => KeywordModel::Value(n@, v@, c@),
            Keyword::Continue(n, v, c) => KeywordModel::Continue(n@, v@, c@),
        }
    }
}

/// The classified cards of a sequence, viewed through the model.
pub open spec fn deep_chunks(s: Seq<HeaderChunk>) -> Seq<CardModel> {
    s.map_values(|c: HeaderChunk| c@)
}

/// The assembled keywords of a sequence, viewed through the model.
pub open spec fn deep_keywords(s: Seq<Keyword>) -> Seq<KeywordModel> {
    s.map_values(|k: Keyword| k@)
}

/// The keyword read from one non-End card: value cards go through the
/// value parser (and may fail on an unsupported literal), commentary
/// passes through unchanged.
pub open spec fn spec_keyword_of(card: CardModel) -> Result<KeywordModel, ()> {
    match card {
        CardModel::End => Err(()),
        CardModel::History(t) => Ok(KeywordModel::History(t)),
        CardModel::Comment(t) => Ok(KeywordModel::Comment(t)),
        CardModel::Commentary(n, t) => Ok(KeywordModel::Commentary(n, t)),
        CardModel::RawValue(n, v) => match spec_parse_value(v) {
            Ok(p) => Ok(KeywordModel::Value(n, p.0, p.1)),
            Err(_) => Err(()),
        },
    }
}

impl HeaderChunk {
    /// Turn one classified non-End card into a keyword. A value card runs
    /// through the value parser; a parenthesized literal in it surfaces as
    /// an unsupported-literal failure.
    pub fn parse(&self) -> (r: Result<Keyword, Error>)
        requires
            !(self@ is End),
        ensures
            match spec_keyword_of(self@) {
                Ok(kw) => r is Ok && r->Ok_0@ == kw,
                Err(_) => r is Err && r->Err_0@ == ErrorModel::UnsupportedLiteral,
            },
    {
        match self {
            HeaderChunk::End => Err(Error::UnsupportedLiteral),
            HeaderChunk::History(v) => Ok(Keyword::History(v.clone())),
            HeaderChunk::Comment(v) => Ok(Keyword::Comment(v.clone())),
            HeaderChunk::Commentary(n, t) => Ok(Keyword::Commentary(n.clone(), t.clone())),
            HeaderChunk::RawValue(kw, value) => match parse_keyword(value.as_str()) {
                Ok(p) => Ok(Keyword::Value(kw.clone(), p.0, p.1)),
                Err(e) => Err(e),
            },
        }
    }
}

/// Whether a keyword can absorb a continuation: a value keyword holding a
/// string that ends with the continuation sentinel `&`.
pub open spec fn merge_candidate(prev: KeywordModel) -> bool {
    match prev {
        KeywordModel::Value(_pn, ValueModel::Str(ps), _pc) => ps.len() > 0 && ps.last() == '&',
        _ => false,
    }
}

/// A comment with its trailing continuation sentinel removed, if present.
pub open spec fn strip_amp(c: Seq<char>) -> Seq<char> {
    if c.len() > 0 && c.last() == '&' {
        c.drop_last()
    } else {
        c
    }
}

/// The qualifying predecessor with the continuation's string and comment
/// appended: the sentinel is stripped from its string (and its comment,
/// when one ends there) before appending.
pub open spec fn spec_merge(prev: KeywordModel, s: Seq<char>, c: Seq<char>) -> KeywordModel {
    match prev {
        KeywordModel::Value(pn, ValueModel::Str(ps), pc) => KeywordModel::Value(
            pn,
            ValueModel::Str(ps.drop_last() + s),
            strip_amp(pc) + c,
        ),
        _ => prev,
    }
}

/// Append one keyword to the assembly. A string-valued `CONTINUE` keyword
/// merges into a qualifying predecessor; without one it stays as a
/// standalone Continue keyword, and parsing goes on.
pub open spec fn spec_push_keyword(acc: Seq<KeywordModel>, kw: KeywordModel) -> Seq<
    KeywordModel,
> {
    match kw {
        KeywordModel::Value(name, ValueModel::Str(s), c) => {
            if name == continue_name() {
                if acc.len() > 0 && merge_candidate(acc.last()) {
                    acc.drop_last().push(spec_merge(acc.last(), s, c))
                } else {
                    acc.push(KeywordModel::Continue(name, ValueModel::Str(s), c))
                }
            } else {
                acc.push(kw)
            }
        },
        _ => acc.push(kw),
    }
}

/// The keyword list assembled from the classified cards before the End
/// card, with continuations merged; an unsupported literal in any value
/// card fails the whole assembly.
pub open spec fn spec_assemble(cards: Seq<CardModel>) -> Result<Seq<KeywordModel>, ()>
    decreases cards.len(),
{
    if cards.len() == 0 {
        Ok(Seq::empty())
    } else {
        match spec_assemble(cards.drop_last()) {
            Err(e) => Err(e),
            Ok(acc) => match spec_keyword_of(cards.last()) {
                Err(e) => Err(e),
                Ok(kw) => Ok(spec_push_keyword(acc, kw)),
            },
        }
    }
}

/// A failed assembly stays failed when more cards follow.
proof fn lemma_assemble_err_extends(cards: Seq<CardModel>, i: int, j: int)
    requires
        0 <= i <= j <= cards.len(),
        spec_assemble(cards.subrange(0, i)) is Err,
    ensures
        spec_assemble(cards.subrange(0, j)) is Err,
    decreases j - i,
{
    if i < j {
        let a = cards.subrange(0, i);
        let b = cards.subrange(0, i + 1);
        assert(b.drop_last() =~= a);
        lemma_assemble_err_extends(cards, i + 1, j);
    }
}

/// The string with its final character removed.
fn string_drop_last(s: &String) -> (r: String)
    requires
        s@.len() > 0,
    ensures
        r@ == s@.drop_last(),
{
    let n = s.as_str().unicode_len();
    let sub = s.as_str().substring_char(0, n - 1);
    proof {
        assert(sub@ =~= s@.drop_last());
    }
    String::from_str(sub)
}

/// Whether the string ends with the continuation sentinel `&`.
fn ends_with_amp(s: &String) -> (r: bool)
    ensures
        r == (s@.len() > 0 && s@.last() == '&'),
{
    let n = s.as_str().unicode_len();
    if n == 0 {
        false
    } else {
        s.as_str().get_char(n - 1) == '&'
    }
}

/// The comment with a trailing sentinel removed, if one is there.
fn strip_amp_exec(c: &String) -> (r: String)
    ensures
        r@ == strip_amp(c@),
{
    if ends_with_amp(c) {
        string_drop_last(c)
    } else {
        c.clone()
    }
}

/// Whether the last assembled keyword qualifies to absorb a continuation.
fn last_qualifies(out: &Vec<Keyword>) -> (r: bool)
    ensures
        r == (out@.len() > 0 && merge_candidate(deep_keywords(out@).last())),
{
    if out.len() == 0 {
        return false;
    }
    proof {
        assert(deep_keywords(out@).last() == out@[out@.len() - 1]@);
    }
    match &out[out.len() - 1] {
        Keyword::Value(_pn, Value::Str(ps), _pc) => ends_with_amp(ps),
        _ => false,
    }
}

/// Append one keyword to the assembled list, merging a string-valued
/// `CONTINUE` keyword into a qualifying predecessor.
fn push_keyword(out: &mut Vec<Keyword>, kw: Keyword)
    ensures
        deep_keywords(final(out)@) == spec_push_keyword(deep_keywords(old(out)@), kw@),
{
    let is_cont = match &kw {
        Keyword::Value(name, Value::Str(_s), _c) => name.eq(&String::from_str("CONTINUE")),
        _ => false,
    };
    if !is_cont {
        out.push(kw);
        proof {
            assert(deep_keywords(out@) =~= spec_push_keyword(
                deep_keywords(old(out)@),
                kw@,
            ));
        }
        return ;
    }
    let qualifies = last_qualifies(out);
    if !qualifies {
        let ghost kwm = kw@;
        match kw {
            Keyword::Value(name, v, c) => {
                out.push(Keyword::Continue(name, v, c));
            },
            _ => {
                proof {
                    assert(false);
                }
            },
        }
        proof {
            assert(deep_keywords(out@) =~= spec_push_keyword(
                deep_keywords(old(out)@),
                kwm,
            ));
        }
        return ;
    }
    let prev = match out.pop() {
        Some(p) => p,
        None => {
            proof {
                assert(false);
            }
            return ;
        },
    };
    match (prev, kw) {
        (Keyword::Value(pn, Value::Str(ps), pc), Keyword::Value(_name, Value::Str(s), c)) => {
            let mut ns = string_drop_last(&ps);
            ns.append(s.as_str());
            let mut nc = strip_amp_exec(&pc);
            nc.append(c.as_str());
            out.push(Keyword::Value(pn, Value::Str(ns), nc));
            proof {
                assert(deep_keywords(out@) =~= spec_push_keyword(
                    deep_keywords(old(out)@),
                    KeywordModel::Value(continue_name(), ValueModel::Str(s@), c@),
                ));
            }
        },
        _ => {
            proof {
                assert(false);
            }
        },
    }
}

/// The 80-byte record at card index `i`.
pub open spec fn card_at(bytes: Seq<u8>, i: int) -> Seq<u8> {
    bytes.subrange(80 * i, 80 * i + 80)
}

/// The index of the first card from `k` on that equals the End literal,
/// scanning only records that lie fully inside the buffer.
pub open spec fn spec_find_end(bytes: Seq<u8>, k: int) -> Option<int>
    decreases bytes.len() - 80 * k,
{
    if k < 0 || 80 * k + 80 > bytes.len() {
        None
    } else if card_at(bytes, k) == spec_end_card() {
        Some(k)
    } else {
        spec_find_end(bytes, k + 1)
    }
}

/// A found End card lies inside the buffer, is the first from `k`, and is
/// the End literal.
pub proof fn lemma_find_end_props(bytes: Seq<u8>, k: int, e: int)
    requires
        0 <= k,
        spec_find_end(bytes, k) == Some(e),
    ensures
        k <= e,
        80 * e + 80 <= bytes.len(),
        card_at(bytes, e) == spec_end_card(),
        forall|j: int| k <= j < e ==> card_at(bytes, j) != spec_end_card(),
    decreases bytes.len() - 80 * k,
{
    if 80 * k + 80 <= bytes.len() && card_at(bytes, k) != spec_end_card() {
        lemma_find_end_props(bytes, k + 1, e);
    }
}

/// Shortening a buffer behind the End card moves neither the End card nor
/// any card before it.
pub proof fn lemma_find_end_prefix(bytes: Seq<u8>, cut: Seq<u8>, k: int, e: int)
    requires
        cut == bytes.subrange(0, cut.len() as int),
        cut.len() <= bytes.len(),
        0 <= k <= e,
        spec_find_end(bytes, k) == Some(e),
        80 * e + 80 <= cut.len(),
    ensures
        spec_find_end(cut, k) == Some(e),
        forall|j: int| k <= j <= e ==> card_at(cut, j) == card_at(bytes, j),
    decreases e - k,
{
    lemma_find_end_props(bytes, k, e);
    assert forall|j: int| k <= j <= e implies card_at(cut, j) == card_at(bytes, j) by {
        assert(card_at(cut, j) =~= card_at(bytes, j));
    };
    if k < e {
        lemma_find_end_prefix(bytes, cut, k + 1, e);
    }
}

/// The classified cards before the End card at index `e`.
pub open spec fn spec_cards(bytes: Seq<u8>, e: int) -> Seq<CardModel> {
    Seq::new(e as nat, |i: int| spec_classify(card_at(bytes, i)))
}

/// The byte offset of the first data byte: the first block boundary after
/// the End card at card index `e`, clamped to the buffer's end.
pub open spec fn spec_data_start(bytes: Seq<u8>, e: int) -> int {
    let boundary = (80 * e / 2880 + 1) * 2880;
    if boundary > bytes.len() {
        bytes.len() as int
    } else {
        boundary
    }
}

/// Scan the buffer card by card for the End record, classifying every
/// record before it. Exhausting the buffer first is a malformed header.
fn scan_header(buffer: &Vec<u8>) -> (r: Result<(Vec<HeaderChunk>, usize), Error>)
    ensures
        match spec_find_end(buffer@, 0) {
            None => r is Err && r->Err_0@ == ErrorModel::MalformedHeader,
            Some(e) => r is Ok && r->Ok_0.1 as int == e && deep_chunks(r->Ok_0.0@)
                == spec_cards(buffer@, e),
        },
{
    let n = buffer.len();
    let mut raw: Vec<HeaderChunk> = Vec::new();
    let mut idx: usize = 0;
    loop
        invariant
            raw@.len() == idx,
            80 * idx <= n,
            n == buffer@.len(),
            deep_chunks(raw@) =~= spec_cards(buffer@, idx as int),
            spec_find_end(buffer@, 0) == spec_find_end(buffer@, idx as int),
        decreases n - 80 * idx,
    {
        if idx >= n / 80 {
            proof {
                assert(80 * (idx as int) + 80 > n);
            }
            return Err(Error::MalformedHeader);
        }
        proof {
            assert(80 * (idx as int) + 80 <= n);
        }
        let off = idx * 80;
        let card = bytes_range(buffer, off, off + 80);
        proof {
            assert(card@ =~= card_at(buffer@, idx as int));
        }
        let chunk = match HeaderChunk::from_bytes(&card) {
            Ok(c) => c,
            Err(_) => {
                proof {
                    assert(false);
                }
                return Err(Error::MalformedHeader);
            },
        };
        let is_end = matches!(chunk, HeaderChunk::End);
        if is_end {
            proof {
                assert(card_at(buffer@, idx as int) == spec_end_card());
            }
            return Ok((raw, idx));
        }
        proof {
            assert(card_at(buffer@, idx as int) != spec_end_card());
        }
        let ghost praw = raw@;
        let ghost cm = chunk@;
        raw.push(chunk);
        idx = idx + 1;
        proof {
            assert(deep_chunks(raw@) =~= deep_chunks(praw).push(cm));
            assert(cm == spec_classify(card_at(buffer@, idx - 1)));
            assert(spec_cards(buffer@, idx as int) =~= spec_cards(buffer@, idx - 1).push(
                spec_classify(card_at(buffer@, idx - 1)),
            ));
        }
    }
}

/// Assemble the keyword list from the classified cards, merging
/// continuations; the first unsupported literal fails the assembly.
fn assemble_keywords(raw: &Vec<HeaderChunk>) -> (r: Result<Vec<Keyword>, Error>)
    requires
        forall|i: int| 0 <= i < raw@.len() ==> !(#[trigger] raw@[i]@ is End),
    ensures
        match spec_assemble(deep_chunks(raw@)) {
            Ok(kws) => r is Ok && deep_keywords(r->Ok_0@) == kws,
            Err(_) => r is Err && r->Err_0@ == ErrorModel::UnsupportedLiteral,
        },
{
    let ghost cards = deep_chunks(raw@);
    let n = raw.len();
    let mut out: Vec<Keyword> = Vec::new();
    let mut i: usize = 0;
    while i < n
        invariant
            0 <= i <= n,
            n == raw@.len(),
            cards == deep_chunks(raw@),
            forall|k: int| 0 <= k < raw@.len() ==> !(#[trigger] raw@[k]@ is End),
            spec_assemble(cards.subrange(0, i as int)) is Ok,
            deep_keywords(out@) == spec_assemble(cards.subrange(0, i as int))->Ok_0,
        decreases n - i,
    {
        let kw = match raw[i].parse() {
            Ok(k) => k,
            Err(e) => {
                proof {
                    let pre = cards.subrange(0, i as int);
                    let ext = cards.subrange(0, i + 1);
                    assert(ext.drop_last() =~= pre);
                    assert(ext.last() == raw@[i as int]@);
                    assert(spec_assemble(ext) is Err);
                    lemma_assemble_err_extends(cards, i + 1, cards.len() as int);
                    assert(cards.subrange(0, cards.len() as int) =~= cards);
                }
                return Err(e);
            },
        };
        push_keyword(&mut out, kw);
        i = i + 1;
        proof {
            let pre = cards.subrange(0, i - 1);
            let ext = cards.subrange(0, i as int);
            assert(ext.drop_last() =~= pre);
            assert(ext.last() == raw@[i - 1]@);
        }
    }
    proof {
        assert(cards.subrange(0, n as int) =~= cards);
    }
    Ok(out)
}

/// Read the header from the buffer: scan cards block by block to the End
/// card, parse and merge them into the keyword list, and return it with
/// the byte offset of the first data byte (the first block boundary after
/// the End card, clamped to the buffer's end).
pub fn parse_header(buffer: &Vec<u8>) -> (r: Result<(Vec<Keyword>, usize), Error>)
    ensures
        match spec_find_end(buffer@, 0) {
            None => r is Err && r->Err_0@ == ErrorModel::MalformedHeader,
            Some(e) => match spec_assemble(spec_cards(buffer@, e)) {
                Ok(kws) => r is Ok && deep_keywords(r->Ok_0.0@) == kws && r->Ok_0.1 as int
                    == spec_data_start(buffer@, e),
                Err(_) => r is Err && r->Err_0@ == ErrorModel::UnsupportedLiteral,
            },
        },
{
    let (raw, e) = match scan_header(buffer) {
        Ok(p) => p,
        Err(err) => {
            return Err(err);
        },
    };
    proof {
        lemma_find_end_props(buffer@, 0, e as int);
        assert forall|i: int| 0 <= i < raw@.len() implies !(#[trigger] raw@[i]@ is End) by {
            assert(raw@[i]@ == spec_cards(buffer@, e as int)[i]);
            assert(card_at(buffer@, i) != spec_end_card());
        };
    }
    let kws = match assemble_keywords(&raw) {
        Ok(k) => k,
        Err(err) => {
            return Err(err);
        },
    };
    let n = buffer.len();
    // 36 cards of 80 bytes fill one 2880-byte block
    let block = e / 36;
    proof {
        assert(80 * (e as int) / 2880 == e as int / 36) by {
            let q = e as int / 36;
            let r0 = e as int % 36;
            assert(e as int == 36 * q + r0);
            assert(80 * (e as int) == 2880 * q + 80 * r0);
            assert(0 <= 80 * r0 < 2880);
        };
    }
    let b128: u128 = (block as u128) * 2880 + 2880;
    let ds: usize = if b128 >= (n as u128) {
        n
    } else {
        b128 as usize
    };
    Ok((kws, ds))
}

/// Relies on `std::io::Stdout::write_fmt`, via `writeln`, to print one
/// name, value and comment line; nothing is promised of the output.
#[verifier::external_body]
fn print_value_line(name: &str, value: &str, comment: &str) {
    let _ = writeln!(std::io::stdout(), "{:8} | {:>30} / {}", name, value, comment);
}

/// Relies on `std::io::Stdout::write_fmt`, via `writeln`, to print one
/// name and text line; nothing is promised of the output.
#[verifier::external_body]
fn print_note_line(name: &str, text: &str) {
    let _ = writeln!(std::io::stdout(), "{:8} {:>30}", name, text);
}

/// Relies on `std::io::Stdout::write_fmt`, via `writeln`, to print one
/// raw name and value line; nothing is promised of the output.
#[verifier::external_body]
fn print_raw_line(name: &str, value: &str) {
    let _ = writeln!(std::io::stdout(), "{:8} | {:>30}", name, value);
}

/// Relies on `std::io::Stdout::write_fmt`, via `writeln`, to print one
/// bare name line; nothing is promised of the output.
#[verifier::external_body]
fn print_name_line(name: &str) {
    let _ = writeln!(std::io::stdout(), "{:8}", name);
}

impl Keyword {
    /// Print this keyword as one line on standard output, for inspection.
    pub fn print(&self) {
        match self {
            Keyword::Value(kw, value, comment) => {
                let text = value.to_text();
                print_value_line(kw.as_str(), text.as_str(), comment.as_str());
            },
            Keyword::Continue(kw, value, comment) => {
                let text = value.to_text();
                print_value_line(kw.as_str(), text.as_str(), comment.as_str());
            },
            Keyword::History(v) => print_note_line("HISTORY", v.as_str()),
            Keyword::Comment(v) => print_note_line("COMMENT", v.as_str()),
            Keyword::Commentary(n, t) => print_note_line(n.as_str(), t.as_str()),
        }
    }
}

impl HeaderChunk {
    /// Print this classified card as one line on standard output.
    pub fn print(&self) {
        match self {
            HeaderChunk::RawValue(kw, value) => print_raw_line(kw.as_str(), value.as_str()),
            HeaderChunk::History(v) => print_note_line("HISTORY", v.as_str()),
            HeaderChunk::Comment(v) => print_note_line("COMMENT", v.as_str()),
            HeaderChunk::Commentary(n, t) => print_note_line(n.as_str(), t.as_str()),
            HeaderChunk::End => print_name_line("END"),
        }
    }
}

/// The value of the first value keyword named `name`, if any; commentary
/// and continuation entries are passed over.
pub open spec fn spec_find_value(kws: Seq<KeywordModel>, name: Seq<char>) -> Option<ValueModel>
    decreases kws.len(),
{
    if kws.len() == 0 {
        None
    } else {
        match kws[0] {
            KeywordModel::Value(k, v, _c) => if k == name {
                Some(v)
            } else {
                spec_find_value(kws.drop_first(), name)
            },
            _ => spec_find_value(kws.drop_first(), name),
        }
    }
}

/// Look up the first value keyword named `key`.
fn find_value<'a>(header: &'a Vec<Keyword>, key: &String) -> (r: Option<&'a Value>)
    ensures
        match spec_find_value(deep_keywords(header@), key@) {
            None => r is None,
            Some(v) => r is Some && r->0@ == v,
        },
{
    let ghost dk = deep_keywords(header@);
    proof {
        assert(dk.skip(0) =~= dk);
    }
    let n = header.len();
    let mut i: usize = 0;
    while i < n
        invariant
            0 <= i <= n,
            n == header@.len(),
            dk == deep_keywords(header@),
            spec_find_value(dk, key@) == spec_find_value(dk.skip(i as int), key@),
        decreases n - i,
    {
        proof {
            assert(dk.skip(i as int)[0] == header@[i as int]@);
            assert(dk.skip(i as int).drop_first() =~= dk.skip(i + 1));
        }
        match &header[i] {
            Keyword::Value(k, v, _c) => {
                if k.eq(key) {
                    return Some(v);
                }
            },
            _ => {},
        }
        i = i + 1;
    }
    proof {
        assert(dk.skip(n as int) =~= Seq::<KeywordModel>::empty());
    }
    None
}

/// The name of the n-th axis keyword: `NAXIS` followed by `n` in decimal.
pub open spec fn naxis_key(n: int) -> Seq<char> {
    "NAXIS"@ + dec_digits(n)
}

/// Build the name of the n-th axis keyword.
fn make_naxis_key(i: usize) -> (r: String)
    requires
        1 <= i <= 999,
    ensures
        r@ == naxis_key(i as int),
{
    let mut v: Vec<char> = Vec::new();
    v.push('N');
    v.push('A');
    v.push('X');
    v.push('I');
    v.push('S');
    proof {
        reveal_strlit("NAXIS");
        assert(v@ =~= "NAXIS"@);
    }
    if i >= 100 {
        v.push(digit_exec(i / 100));
    }
    if i >= 10 {
        v.push(digit_exec((i / 10) % 10));
    }
    v.push(digit_exec(i % 10));
    proof {
        let n = i as int;
        if n < 10 {
            assert(dec_digits(n) == seq![digit_char(n)]);
        } else if n < 100 {
            assert(dec_digits(n) == dec_digits(n / 10).push(digit_char(n % 10)));
            assert(n / 10 < 10);
            assert(dec_digits(n / 10) == seq![digit_char(n / 10)]);
            assert((n / 10) % 10 == n / 10);
        } else {
            assert(dec_digits(n) == dec_digits(n / 10).push(digit_char(n % 10)));
            assert(10 <= n / 10 < 100);
            assert(dec_digits(n / 10) == dec_digits(n / 100).push(digit_char((n / 10) % 10)))
                by {
                assert((n / 10) / 10 == n / 100);
            };
            assert(n / 100 < 10);
            assert(dec_digits(n / 100) == seq![digit_char(n / 100)]);
        }
        assert(v@ =~= "NAXIS"@ + dec_digits(i as int));
    }
    chars_to_string(&v)
}

/// The extents of axes 1 to `n`, each looked up by its `NAXISn` keyword
/// and required to be an integer from 1 to the machine's size limit;
/// failure names the offending key.
pub open spec fn spec_axes(kws: Seq<KeywordModel>, n: int) -> Result<Seq<int>, Seq<char>>
    decreases n,
{
    if n <= 0 {
        Ok(Seq::empty())
    } else {
        match spec_axes(kws, n - 1) {
            Err(k) => Err(k),
            Ok(prefix) => match spec_find_value(kws, naxis_key(n)) {
                Some(ValueModel::Integer(v)) => if 1 <= v <= usize::MAX as int {
                    Ok(prefix.push(v))
                } else {
                    Err(naxis_key(n))
                },
                _ => Err(naxis_key(n)),
            },
        }
    }
}

/// The mandatory scalar fields of an assembled keyword list, by
/// exact-name lookup. `SIMPLE` defaults to false when absent or not a
/// boolean; `NAXIS` must be an integer from 0 to 999; `BITPIX` must be an
/// integer carrying a valid code; each `NAXISn` must be a positive
/// integer. A failure names the offending key.
pub open spec fn spec_extract(kws: Seq<KeywordModel>) -> Result<
    (bool, int, Seq<int>, int),
    ErrorModel,
> {
    let simple = match spec_find_value(kws, "SIMPLE"@) {
        Some(ValueModel::Boolean(b)) => b,
        _ => false,
    };
    match spec_find_value(kws, "NAXIS"@) {
        Some(ValueModel::Integer(n)) => if 0 <= n <= 999 {
            match spec_find_value(kws, "BITPIX"@) {
                Some(ValueModel::Integer(bp)) => if valid_bitpix_code(bp) {
                    match spec_axes(kws, n) {
                        Ok(axes) => Ok((simple, n, axes, bp)),
                        Err(key) => Err(ErrorModel::InvalidMandatoryKeyword(key)),
                    }
                } else {
                    Err(ErrorModel::InvalidMandatoryKeyword("BITPIX"@))
                },
                _ => Err(ErrorModel::InvalidMandatoryKeyword("BITPIX"@)),
            }
        } else {
            Err(ErrorModel::InvalidMandatoryKeyword("NAXIS"@))
        },
        _ => Err(ErrorModel::InvalidMandatoryKeyword("NAXIS"@)),
    }
}

/// A failed axis lookup stays failed, with the same key, for any larger
/// axis count.
proof fn lemma_spec_axes_err_extends(kws: Seq<KeywordModel>, i: int, j: int)
    requires
        0 <= i <= j,
        spec_axes(kws, i) is Err,
    ensures
        spec_axes(kws, j) == spec_axes(kws, i),
    decreases j - i,
{
    if i < j {
        lemma_spec_axes_err_extends(kws, i, j - 1);
    }
}

/// An extraction that succeeds yields exactly `n` axes, each a positive
/// extent no larger than the machine's size limit.
pub proof fn lemma_spec_axes_props(kws: Seq<KeywordModel>, n: int)
    requires
        spec_axes(kws, n) is Ok,
    ensures
        spec_axes(kws, n)->Ok_0.len() == if n <= 0 {
            0
        } else {
            n
        },
        forall|k: int|
            0 <= k < spec_axes(kws, n)->Ok_0.len() ==> 1 <= #[trigger] spec_axes(
                kws,
                n,
            )->Ok_0[k] <= usize::MAX as int,
    decreases n,
{
    if n > 0 {
        lemma_spec_axes_props(kws, n - 1);
    }
}

/// Extract the mandatory scalar fields from an assembled keyword list:
/// `SIMPLE` (defaulting to false), `NAXIS`, the `NAXISn` extents and
/// `BITPIX`, validating each as `spec_extract` says.
pub fn extract_values(header: &Vec<Keyword>) -> (r: Result<(bool, usize, Vec<usize>, i64), Error>)
    ensures
        match spec_extract(deep_keywords(header@)) {
            Ok(t) => r is Ok && r->Ok_0.0 == t.0 && r->Ok_0.1 as int == t.1
                && r->Ok_0.2@.map_values(|x: usize| x as int) == t.2 && r->Ok_0.3 as int == t.3,
            Err(em) => r is Err && r->Err_0@ == em,
        },
{
    let ghost dk = deep_keywords(header@);
    let simple = match find_value(header, &String::from_str("SIMPLE")) {
        Some(Value::Boolean(b)) => *b,
        _ => false,
    };
    let naxis_i = match find_value(header, &String::from_str("NAXIS")) {
        Some(Value::Integer(x)) => *x,
        _ => {
            return Err(Error::InvalidMandatoryKeyword(String::from_str("NAXIS")));
        },
    };
    if naxis_i < 0 || naxis_i > 999 {
        return Err(Error::InvalidMandatoryKeyword(String::from_str("NAXIS")));
    }
    let naxis = naxis_i as usize;
    let bitpix = match find_value(header, &String::from_str("BITPIX")) {
        Some(Value::Integer(x)) => *x,
        _ => {
            return Err(Error::InvalidMandatoryKeyword(String::from_str("BITPIX")));
        },
    };
    if !(bitpix == 8 || bitpix == 16 || bitpix == 32 || bitpix == 64 || bitpix == -32 || bitpix
        == -64) {
        return Err(Error::InvalidMandatoryKeyword(String::from_str("BITPIX")));
    }
    let mut axes: Vec<usize> = Vec::new();
    let mut k: usize = 1;
    while k <= naxis
        invariant
            1 <= k <= naxis + 1,
            naxis <= 999,
            dk == deep_keywords(header@),
            spec_find_value(dk, "NAXIS"@) == Some(ValueModel::Integer(naxis as int)),
            spec_find_value(dk, "BITPIX"@) == Some(ValueModel::Integer(bitpix as int)),
            valid_bitpix_code(bitpix as int),
            simple == (match spec_find_value(dk, "SIMPLE"@) {
                Some(ValueModel::Boolean(b)) => b,
                _ => false,
            }),
            spec_axes(dk, k - 1) is Ok,
            axes@.map_values(|x: usize| x as int) == spec_axes(dk, k - 1)->Ok_0,
        decreases naxis + 1 - k,
    {
        let key = make_naxis_key(k);
        let v = match find_value(header, &key) {
            Some(Value::Integer(x)) => *x,
            _ => {
                proof {
                    assert(spec_axes(dk, k as int) is Err);
                    lemma_spec_axes_err_extends(dk, k as int, naxis as int);
                }
                return Err(Error::InvalidMandatoryKeyword(key));
            },
        };
        if v < 1 || (v as u64) > (usize::MAX as u64) {
            proof {
                assert(spec_axes(dk, k as int) is Err);
                lemma_spec_axes_err_extends(dk, k as int, naxis as int);
            }
            return Err(Error::InvalidMandatoryKeyword(key));
        }
        let ghost paxes = axes@;
        axes.push(v as usize);
        k = k + 1;
        proof {
            assert(axes@.map_values(|x: usize| x as int) =~= paxes.map_values(
                |x: usize| x as int,
            ).push(v as int));
        }
    }
    proof {
        lemma_spec_axes_props(dk, naxis as int);
    }
    Ok((simple, naxis, axes, bitpix))
}

} // verus!
