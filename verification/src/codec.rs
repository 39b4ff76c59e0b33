//! Canonical JSON artifact format.
//!
//! A transcription artifact is a JSON array of word objects
//! `{"text":"...","start":N,"end":N,"confidence":N,"speaker":S}` where `S`
//! is `null` or a string; a diarization artifact is a JSON array of
//! `{"start":N,"end":N,"speaker":"..."}` objects. Numbers are decimal
//! integers of at most fifteen digits; strings escape `"` and `\` with a
//! backslash. Encoding and parsing are exact inverses, which
//! `lemma_words_round_trip` and `lemma_diars_round_trip` state.

use vstd::prelude::*;
use crate::types::{DiarV, DiarizationSegment, Word, WordV, wf_diar, wf_word, MAX_CONFIDENCE_MILLI};

verus! {

pub const QUOTE: u8 = 34;

pub const BACKSLASH: u8 = 92;

/// 10 to the power `k`.
pub open spec fn pow10(k: nat) -> nat
    decreases k,
{
    if k == 0 {
        1
    } else {
        10 * pow10((k - 1) as nat)
    }
}

pub open spec fn is_digit(b: u8) -> bool {
    48 <= b <= 57
}

/// Decimal representation of `n`, most significant digit first, no sign,
/// no leading zeros (a single `0` for zero).
pub open spec fn dec_rep(n: nat) -> Seq<u8>
    decreases n,
{
    if n < 10 {
        seq![(48 + n) as u8]
    } else {
        dec_rep(n / 10) + seq![(48 + n % 10) as u8]
    }
}

pub proof fn lemma_dec_rep_digits(n: nat)
    ensures
        dec_rep(n).len() >= 1,
        forall|i: int| 0 <= i < dec_rep(n).len() ==> is_digit(#[trigger] dec_rep(n)[i]),
    decreases n,
{
    if n >= 10 {
        lemma_dec_rep_digits(n / 10);
        assert forall|i: int| 0 <= i < dec_rep(n).len() implies is_digit(#[trigger] dec_rep(n)[i]) by {
            if i < dec_rep(n / 10).len() {
                assert(dec_rep(n)[i] == dec_rep(n / 10)[i]);
            }
        }
    }
}

pub proof fn lemma_dec_rep_len(n: nat, k: nat)
    requires
        n < pow10(k),
        k >= 1,
    ensures
        dec_rep(n).len() <= k,
    decreases n,
{
    if n >= 10 {
        assert(pow10(k) == 10 * pow10((k - 1) as nat));
        assert(n / 10 < pow10((k - 1) as nat));
        lemma_dec_rep_len(n / 10, (k - 1) as nat);
    }
}

/// Escape of one byte inside a JSON string.
pub open spec fn esc_byte(b: u8) -> Seq<u8> {
    if b == QUOTE || b == BACKSLASH {
        seq![BACKSLASH, b]
    } else {
        seq![b]
    }
}

/// Escape of a whole byte string.
pub open spec fn esc(s: Seq<u8>) -> Seq<u8>
    decreases s.len(),
{
    if s.len() == 0 {
        Seq::empty()
    } else {
        esc_byte(s[0]) + esc(s.skip(1))
    }
}

pub proof fn lemma_esc_push(s: Seq<u8>, b: u8)
    ensures
        esc(s.push(b)) == esc(s) + esc_byte(b),
    decreases s.len(),
{
    if s.len() == 0 {
        assert(s.push(b).skip(1) =~= Seq::<u8>::empty());
        assert(s.push(b)[0] == b);
        assert(esc(s.push(b)) == esc_byte(b) + esc(Seq::<u8>::empty()));
        assert(esc(s.push(b)) =~= esc(s) + esc_byte(b));
    } else {
        assert(s.push(b).skip(1) =~= s.skip(1).push(b));
        lemma_esc_push(s.skip(1), b);
        assert(esc(s.push(b)) =~= esc(s) + esc_byte(b));
    }
}

/// Appends the decimal representation of `n` to `out`.
#[verifier::rlimit(50)]
pub fn push_dec(out: &mut Vec<u8>, n: u64)
    ensures
        final(out)@ == old(out)@ + dec_rep(n as nat),
{
    let mut digits: Vec<u8> = Vec::new();
    let mut m: u64 = n;
    proof {
        assert(digits@.reverse() =~= Seq::<u8>::empty());
        assert(dec_rep(n as nat) =~= dec_rep(n as nat) + digits@.reverse());
    }
    while m >= 10
        invariant
            dec_rep(n as nat) == dec_rep(m as nat) + digits@.reverse(),
        decreases m,
    {
        let d: u8 = (m % 10) as u8 + 48;
        proof {
            assert(dec_rep(m as nat) == dec_rep((m as nat) / 10) + seq![(48 + (m as nat) % 10) as u8]);
            assert(digits@.push(d).reverse() =~= seq![d] + digits@.reverse());
        }
        digits.push(d);
        m = m / 10;
        proof {
            assert(dec_rep(n as nat) =~= dec_rep(m as nat) + digits@.reverse());
        }
    }
    let d_last: u8 = m as u8 + 48;
    proof {
        assert(dec_rep(m as nat) == seq![(48 + (m as nat)) as u8]);
        assert(digits@.push(d_last).reverse() =~= seq![d_last] + digits@.reverse());
    }
    digits.push(d_last);
    proof {
        assert(dec_rep(n as nat) =~= digits@.reverse());
    }
    let ghost pre = out@;
    let mut i: usize = digits.len();
    proof {
        assert(digits@.reverse().take(0) =~= Seq::<u8>::empty());
        assert(out@ =~= pre + digits@.reverse().take(0));
    }
    while i > 0
        invariant
            i <= digits.len(),
            out@ == pre + digits@.reverse().take(digits@.len() - i),
        decreases i,
    {
        let b = digits[i - 1];
        let ghost k = digits@.len() - i;
        proof {
            assert(digits@.reverse()[k] == b);
            assert(digits@.reverse().take(k + 1) =~= digits@.reverse().take(k).push(b));
        }
        out.push(b);
        i = i - 1;
    }
    proof {
        assert(digits@.reverse().take(digits@.len() as int) =~= digits@.reverse());
        assert(out@ =~= pre + dec_rep(n as nat));
    }
}

/// Appends the escaped form of `s` to `out`.
pub fn push_escaped(out: &mut Vec<u8>, s: &Vec<u8>)
    ensures
        final(out)@ == old(out)@ + esc(s@),
{
    let ghost pre = out@;
    let mut i: usize = 0;
    proof {
        assert(esc(s@.take(0)) =~= Seq::<u8>::empty());
        assert(out@ =~= pre + esc(s@.take(0)));
    }
    while i < s.len()
        invariant
            i <= s.len(),
            out@ == pre + esc(s@.take(i as int)),
        decreases s.len() - i,
    {
        let b = s[i];
        proof {
            assert(s@.take(i + 1) =~= s@.take(i as int).push(b));
            lemma_esc_push(s@.take(i as int), b);
        }
        if b == QUOTE || b == BACKSLASH {
            out.push(BACKSLASH);
            out.push(b);
        } else {
            out.push(b);
        }
        proof {
            assert(out@ =~= pre + esc(s@.take(i + 1)));
        }
        i = i + 1;
    }
    proof {
        assert(s@.take(s@.len() as int) =~= s@);
    }
}

pub const LBRACE: u8 = 123;

pub const RBRACE: u8 = 125;

pub const LBRACKET: u8 = 91;

pub const RBRACKET: u8 = 93;

pub const COMMA: u8 = 44;

/// `{"text":"`
pub open spec fn lit_text() -> Seq<u8> {
    seq![123u8, 34, 116, 101, 120, 116, 34, 58, 34]
}

/// `,"start":`
pub open spec fn lit_start() -> Seq<u8> {
    seq![44u8, 34, 115, 116, 97, 114, 116, 34, 58]
}

/// `{"start":`
pub open spec fn lit_obj_start() -> Seq<u8> {
    seq![123u8, 34, 115, 116, 97, 114, 116, 34, 58]
}

/// `,"end":`
pub open spec fn lit_end() -> Seq<u8> {
    seq![44u8, 34, 101, 110, 100, 34, 58]
}

/// `,"confidence":`
pub open spec fn lit_conf() -> Seq<u8> {
    seq![44u8, 34, 99, 111, 110, 102, 105, 100, 101, 110, 99, 101, 34, 58]
}

/// `,"speaker":`
pub open spec fn lit_speaker() -> Seq<u8> {
    seq![44u8, 34, 115, 112, 101, 97, 107, 101, 114, 34, 58]
}

/// `null`
pub open spec fn lit_null() -> Seq<u8> {
    seq![110u8, 117, 108, 108]
}

/// Encoding of an optional speaker label: `null` or a quoted string.
pub open spec fn enc_speaker(s: Option<Seq<u8>>) -> Seq<u8> {
    match s {
        None => lit_null(),
        Some(t) => seq![QUOTE] + esc(t) + seq![QUOTE],
    }
}

/// Encoding of one word object.
pub open spec fn enc_word(w: WordV) -> Seq<u8> {
    lit_text() + esc(w.text) + seq![QUOTE] + lit_start() + dec_rep(w.start_ms as nat) + lit_end()
        + dec_rep(w.end_ms as nat) + lit_conf() + dec_rep(w.confidence_milli as nat)
        + lit_speaker() + enc_speaker(w.speaker) + seq![RBRACE]
}

/// Encoding of one diarization object.
pub open spec fn enc_diar(d: DiarV) -> Seq<u8> {
    lit_obj_start() + dec_rep(d.start_ms as nat) + lit_end() + dec_rep(d.end_ms as nat)
        + lit_speaker() + seq![QUOTE] + esc(d.speaker_label) + seq![QUOTE, RBRACE]
}

/// Comma-joined word objects.
pub open spec fn enc_word_items(ws: Seq<WordV>) -> Seq<u8>
    decreases ws.len(),
{
    if ws.len() == 0 {
        Seq::empty()
    } else if ws.len() == 1 {
        enc_word(ws[0])
    } else {
        enc_word(ws[0]) + seq![COMMA] + enc_word_items(ws.skip(1))
    }
}

/// Comma-joined diarization objects.
pub open spec fn enc_diar_items(ds: Seq<DiarV>) -> Seq<u8>
    decreases ds.len(),
{
    if ds.len() == 0 {
        Seq::empty()
    } else if ds.len() == 1 {
        enc_diar(ds[0])
    } else {
        enc_diar(ds[0]) + seq![COMMA] + enc_diar_items(ds.skip(1))
    }
}

/// The whole transcription artifact: a JSON array of word objects.
pub open spec fn enc_words(ws: Seq<WordV>) -> Seq<u8> {
    seq![LBRACKET] + enc_word_items(ws) + seq![RBRACKET]
}

/// The whole diarization artifact: a JSON array of diarization objects.
pub open spec fn enc_diars(ds: Seq<DiarV>) -> Seq<u8> {
    seq![LBRACKET] + enc_diar_items(ds) + seq![RBRACKET]
}

pub proof fn lemma_word_items_push(ws: Seq<WordV>, w: WordV)
    ensures
        ws.len() == 0 ==> enc_word_items(ws.push(w)) == enc_word(w),
        ws.len() > 0 ==> enc_word_items(ws.push(w)) == enc_word_items(ws) + seq![COMMA] + enc_word(w),
    decreases ws.len(),
{
    if ws.len() == 0 {
        assert(enc_word_items(ws.push(w)) == enc_word(ws.push(w)[0]));
    } else {
        assert(ws.push(w).skip(1) =~= ws.skip(1).push(w));
        lemma_word_items_push(ws.skip(1), w);
        if ws.len() == 1 {
            assert(enc_word_items(ws.push(w)) =~= enc_word_items(ws) + seq![COMMA] + enc_word(w));
        } else {
            assert(enc_word_items(ws.push(w)) =~= enc_word_items(ws) + seq![COMMA] + enc_word(w));
        }
    }
}

pub proof fn lemma_diar_items_push(ds: Seq<DiarV>, d: DiarV)
    ensures
        ds.len() == 0 ==> enc_diar_items(ds.push(d)) == enc_diar(d),
        ds.len() > 0 ==> enc_diar_items(ds.push(d)) == enc_diar_items(ds) + seq![COMMA] + enc_diar(d),
    decreases ds.len(),
{
    if ds.len() == 0 {
        assert(enc_diar_items(ds.push(d)) == enc_diar(ds.push(d)[0]));
    } else {
        assert(ds.push(d).skip(1) =~= ds.skip(1).push(d));
        lemma_diar_items_push(ds.skip(1), d);
        assert(enc_diar_items(ds.push(d)) =~= enc_diar_items(ds) + seq![COMMA] + enc_diar(d));
    }
}

/// Views of a sequence of words.
pub open spec fn word_views(ws: Seq<Word>) -> Seq<WordV> {
    ws.map_values(|w: Word| w@)
}

/// Views of a sequence of diarization records.
pub open spec fn diar_views(ds: Seq<DiarizationSegment>) -> Seq<DiarV> {
    ds.map_values(|d: DiarizationSegment| d@)
}

/// Appends `{"text":"` to `out`.
fn push_lit_text(out: &mut Vec<u8>)
    ensures
        final(out)@ == old(out)@ + lit_text(),
{
    let ghost p0 = out@;
    out.push(LBRACE); out.push(QUOTE); out.push(116); out.push(101); out.push(120);
    out.push(116); out.push(QUOTE); out.push(58); out.push(QUOTE);
    proof {
        assert(out@ =~= p0 + lit_text());
    }
}

/// Appends `,"start":` to `out`.
fn push_lit_start(out: &mut Vec<u8>)
    ensures
        final(out)@ == old(out)@ + lit_start(),
{
    let ghost p0 = out@;
    out.push(COMMA); out.push(QUOTE); out.push(115); out.push(116); out.push(97);
    out.push(114); out.push(116); out.push(QUOTE); out.push(58);
    proof {
        assert(out@ =~= p0 + lit_start());
    }
}

/// Appends `{"start":` to `out`.
fn push_lit_obj_start(out: &mut Vec<u8>)
    ensures
        final(out)@ == old(out)@ + lit_obj_start(),
{
    let ghost p0 = out@;
    out.push(LBRACE); out.push(QUOTE); out.push(115); out.push(116); out.push(97);
    out.push(114); out.push(116); out.push(QUOTE); out.push(58);
    proof {
        assert(out@ =~= p0 + lit_obj_start());
    }
}

/// Appends `,"end":` to `out`.
fn push_lit_end(out: &mut Vec<u8>)
    ensures
        final(out)@ == old(out)@ + lit_end(),
{
    let ghost p0 = out@;
    out.push(COMMA); out.push(QUOTE); out.push(101); out.push(110); out.push(100);
    out.push(QUOTE); out.push(58);
    proof {
        assert(out@ =~= p0 + lit_end());
    }
}

/// Appends `,"confidence":` to `out`.
fn push_lit_conf(out: &mut Vec<u8>)
    ensures
        final(out)@ == old(out)@ + lit_conf(),
{
    let ghost p0 = out@;
    out.push(COMMA); out.push(QUOTE); out.push(99); out.push(111); out.push(110);
    out.push(102); out.push(105); out.push(100); out.push(101); out.push(110);
    out.push(99); out.push(101); out.push(QUOTE); out.push(58);
    proof {
        assert(out@ =~= p0 + lit_conf());
    }
}

/// Appends `,"speaker":` to `out`.
fn push_lit_speaker(out: &mut Vec<u8>)
    ensures
        final(out)@ == old(out)@ + lit_speaker(),
{
    let ghost p0 = out@;
    out.push(COMMA); out.push(QUOTE); out.push(115); out.push(112); out.push(101);
    out.push(97); out.push(107); out.push(101); out.push(114); out.push(QUOTE);
    out.push(58);
    proof {
        assert(out@ =~= p0 + lit_speaker());
    }
}

/// Appends the encoding of an optional speaker label to `out`.
fn push_speaker(out: &mut Vec<u8>, s: &Option<Vec<u8>>)
    ensures
        final(out)@ == old(out)@ + enc_speaker(
            match *s {
                Some(ref l) => Some(l@),
                None => None,
            },
        ),
{
    let ghost p0 = out@;
    match s {
        None => {
            out.push(110); out.push(117); out.push(108); out.push(108);
            proof {
                assert(out@ =~= p0 + lit_null());
            }
        },
        Some(label) => {
            out.push(QUOTE);
            push_escaped(out, label);
            out.push(QUOTE);
            proof {
                assert(out@ =~= p0 + (seq![QUOTE] + esc(label@) + seq![QUOTE]));
            }
        },
    }
}

/// Appends one encoded word object to `out`.
#[verifier::rlimit(100)]
fn push_word(out: &mut Vec<u8>, w: &Word)
    ensures
        final(out)@ == old(out)@ + enc_word(w@),
{
    let ghost p0 = out@;
    push_lit_text(out);
    push_escaped(out, &w.text);
    out.push(QUOTE);
    push_lit_start(out);
    let ghost p1 = p0 + lit_text() + esc(w.text@) + seq![QUOTE] + lit_start();
    proof {
        assert(out@ =~= p1);
    }
    push_dec(out, w.start_ms);
    push_lit_end(out);
    push_dec(out, w.end_ms);
    push_lit_conf(out);
    let ghost p2 = p1 + dec_rep(w.start_ms as nat) + lit_end() + dec_rep(w.end_ms as nat)
        + lit_conf();
    proof {
        assert(out@ =~= p2);
    }
    push_dec(out, w.confidence_milli as u64);
    push_lit_speaker(out);
    push_speaker(out, &w.speaker);
    out.push(RBRACE);
    let ghost p3 = p2 + dec_rep(w.confidence_milli as nat) + lit_speaker() + enc_speaker(
        w@.speaker,
    ) + seq![RBRACE];
    proof {
        assert(out@ =~= p3);
        assert(p3 =~= old(out)@ + enc_word(w@));
    }
}

/// Appends one encoded diarization object to `out`.
#[verifier::rlimit(100)]
fn push_diar(out: &mut Vec<u8>, d: &DiarizationSegment)
    ensures
        final(out)@ == old(out)@ + enc_diar(d@),
{
    let ghost p0 = out@;
    push_lit_obj_start(out);
    push_dec(out, d.start_ms);
    push_lit_end(out);
    push_dec(out, d.end_ms);
    let ghost p1 = p0 + lit_obj_start() + dec_rep(d.start_ms as nat) + lit_end() + dec_rep(
        d.end_ms as nat,
    );
    proof {
        assert(out@ =~= p1);
    }
    push_lit_speaker(out);
    out.push(QUOTE);
    push_escaped(out, &d.speaker_label);
    out.push(QUOTE);
    out.push(RBRACE);
    let ghost p2 = p1 + lit_speaker() + seq![QUOTE] + esc(d.speaker_label@) + seq![QUOTE, RBRACE];
    proof {
        assert(out@ =~= p2);
        assert(p2 =~= old(out)@ + enc_diar(d@));
    }
}

/// Serializes the canonical word sequence as the transcription artifact.
pub fn encode_transcription(words: &Vec<Word>) -> (out: Vec<u8>)
    ensures
        out@ == enc_words(word_views(words@)),
{
    let mut out: Vec<u8> = Vec::new();
    out.push(LBRACKET);
    let mut i: usize = 0;
    proof {
        assert(word_views(words@.take(0)) =~= Seq::<WordV>::empty());
        assert(out@ =~= seq![LBRACKET] + enc_word_items(word_views(words@.take(0))));
    }
    while i < words.len()
        invariant
            i <= words.len(),
            out@ == seq![LBRACKET] + enc_word_items(word_views(words@.take(i as int))),
        decreases words.len() - i,
    {
        if i > 0 {
            out.push(COMMA);
        }
        push_word(&mut out, &words[i]);
        proof {
            assert(word_views(words@.take(i + 1)) =~= word_views(words@.take(i as int)).push(
                words@[i as int]@,
            ));
            lemma_word_items_push(word_views(words@.take(i as int)), words@[i as int]@);
            assert(out@ =~= seq![LBRACKET] + enc_word_items(word_views(words@.take(i + 1))));
        }
        i = i + 1;
    }
    out.push(RBRACKET);
    proof {
        assert(words@.take(words@.len() as int) =~= words@);
        assert(out@ =~= enc_words(word_views(words@)));
    }
    out
}

/// Serializes the canonical diarization sequence as the diarization artifact.
pub fn encode_diarization(diar: &Vec<DiarizationSegment>) -> (out: Vec<u8>)
    ensures
        out@ == enc_diars(diar_views(diar@)),
{
    let mut out: Vec<u8> = Vec::new();
    out.push(LBRACKET);
    let mut i: usize = 0;
    proof {
        assert(diar_views(diar@.take(0)) =~= Seq::<DiarV>::empty());
        assert(out@ =~= seq![LBRACKET] + enc_diar_items(diar_views(diar@.take(0))));
    }
    while i < diar.len()
        invariant
            i <= diar.len(),
            out@ == seq![LBRACKET] + enc_diar_items(diar_views(diar@.take(i as int))),
        decreases diar.len() - i,
    {
        if i > 0 {
            out.push(COMMA);
        }
        push_diar(&mut out, &diar[i]);
        proof {
            assert(diar_views(diar@.take(i + 1)) =~= diar_views(diar@.take(i as int)).push(
                diar@[i as int]@,
            ));
            lemma_diar_items_push(diar_views(diar@.take(i as int)), diar@[i as int]@);
            assert(out@ =~= seq![LBRACKET] + enc_diar_items(diar_views(diar@.take(i + 1))));
        }
        i = i + 1;
    }
    out.push(RBRACKET);
    proof {
        assert(diar@.take(diar@.len() as int) =~= diar@);
        assert(out@ =~= enc_diars(diar_views(diar@)));
    }
    out
}

/// Removes the literal `l` from the front of `s`, if it is there.
pub open spec fn strip(s: Seq<u8>, l: Seq<u8>) -> Option<Seq<u8>> {
    if l.len() <= s.len() && s.take(l.len() as int) == l {
        Some(s.skip(l.len() as int))
    } else {
        None
    }
}

/// Reads an escaped string body up to and including its closing quote;
/// yields the unescaped bytes and the remainder.
pub open spec fn take_string(s: Seq<u8>) -> Option<(Seq<u8>, Seq<u8>)>
    decreases s.len(),
{
    if s.len() == 0 {
        None
    } else if s[0] == QUOTE {
        Some((Seq::empty(), s.skip(1)))
    } else if s[0] == BACKSLASH {
        if s.len() < 2 {
            None
        } else {
            match take_string(s.skip(2)) {
                Some(tr) => Some((seq![s[1]] + tr.0, tr.1)),
                None => None,
            }
        }
    } else {
        match take_string(s.skip(1)) {
            Some(tr) => Some((seq![s[0]] + tr.0, tr.1)),
            None => None,
        }
    }
}

/// Folds leading digits of `s` onto the accumulator `acc`.
pub open spec fn take_digits(s: Seq<u8>, acc: nat) -> (nat, Seq<u8>)
    decreases s.len(),
{
    if s.len() > 0 && is_digit(s[0]) {
        take_digits(s.skip(1), acc * 10 + (s[0] - 48) as nat)
    } else {
        (acc, s)
    }
}

/// Reads a decimal number of at most fifteen digits.
pub open spec fn take_number(s: Seq<u8>) -> Option<(nat, Seq<u8>)> {
    if s.len() > 0 && is_digit(s[0]) {
        let vr = take_digits(s, 0);
        if s.len() - vr.1.len() <= 15 {
            Some(vr)
        } else {
            None
        }
    } else {
        None
    }
}

/// Reads a speaker value: `null` or a quoted string.
pub open spec fn take_speaker(s: Seq<u8>) -> Option<(Option<Seq<u8>>, Seq<u8>)> {
    if s.len() > 0 && s[0] == QUOTE {
        match take_string(s.skip(1)) {
            Some(tr) => Some((Some(tr.0), tr.1)),
            None => None,
        }
    } else {
        match strip(s, lit_null()) {
            Some(r) => Some((None, r)),
            None => None,
        }
    }
}

/// Reads one word object.
pub open spec fn take_word(s: Seq<u8>) -> Option<(WordV, Seq<u8>)> {
    match strip(s, lit_text()) {
        None => None,
        Some(s1) => match take_string(s1) {
            None => None,
            Some((text, s2)) => match strip(s2, lit_start()) {
                None => None,
                Some(s3) => match take_number(s3) {
                    None => None,
                    Some((start, s4)) => match strip(s4, lit_end()) {
                        None => None,
                        Some(s5) => match take_number(s5) {
                            None => None,
                            Some((end, s6)) => match strip(s6, lit_conf()) {
                                None => None,
                                Some(s7) => match take_number(s7) {
                                    None => None,
                                    Some((conf, s8)) => if conf > MAX_CONFIDENCE_MILLI {
                                        None
                                    } else {
                                        match strip(s8, lit_speaker()) {
                                            None => None,
                                            Some(s9) => match take_speaker(s9) {
                                                None => None,
                                                Some((spk, s10)) => match strip(
                                                    s10,
                                                    seq![RBRACE],
                                                ) {
                                                    None => None,
                                                    Some(s11) => Some(
                                                        (
                                                            WordV {
                                                                text,
                                                                start_ms: start as int,
                                                                end_ms: end as int,
                                                                confidence_milli: conf as int,
                                                                speaker: spk,
                                                            },
                                                            s11,
                                                        ),
                                                    ),
                                                },
                                            },
                                        }
                                    },
                                },
                            },
                        },
                    },
                },
            },
        },
    }
}

/// Reads one diarization object.
pub open spec fn take_diar(s: Seq<u8>) -> Option<(DiarV, Seq<u8>)> {
    match strip(s, lit_obj_start()) {
        None => None,
        Some(s1) => match take_number(s1) {
            None => None,
            Some((start, s2)) => match strip(s2, lit_end()) {
                None => None,
                Some(s3) => match take_number(s3) {
                    None => None,
                    Some((end, s4)) => match strip(s4, lit_speaker() + seq![QUOTE]) {
                        None => None,
                        Some(s5) => match take_string(s5) {
                            None => None,
                            Some((label, s6)) => match strip(s6, seq![RBRACE]) {
                                None => None,
                                Some(s7) => Some(
                                    (
                                        DiarV {
                                            start_ms: start as int,
                                            end_ms: end as int,
                                            speaker_label: label,
                                        },
                                        s7,
                                    ),
                                ),
                            },
                        },
                    },
                },
            },
        },
    }
}

/// Reads the comma-separated continuation of an array of word objects, up
/// to and including the closing bracket.
pub open spec fn take_word_items(s: Seq<u8>) -> Option<(Seq<WordV>, Seq<u8>)>
    decreases s.len(),
{
    if s.len() == 0 {
        None
    } else if s[0] == RBRACKET {
        Some((Seq::empty(), s.skip(1)))
    } else if s[0] == COMMA {
        match take_word(s.skip(1)) {
            None => None,
            Some((w, r)) => if r.len() < s.len() {
                match take_word_items(r) {
                    None => None,
                    Some((ws, r2)) => Some((seq![w] + ws, r2)),
                }
            } else {
                None
            },
        }
    } else {
        None
    }
}

/// Reads the comma-separated continuation of an array of diarization
/// objects, up to and including the closing bracket.
pub open spec fn take_diar_items(s: Seq<u8>) -> Option<(Seq<DiarV>, Seq<u8>)>
    decreases s.len(),
{
    if s.len() == 0 {
        None
    } else if s[0] == RBRACKET {
        Some((Seq::empty(), s.skip(1)))
    } else if s[0] == COMMA {
        match take_diar(s.skip(1)) {
            None => None,
            Some((d, r)) => if r.len() < s.len() {
                match take_diar_items(r) {
                    None => None,
                    Some((ds, r2)) => Some((seq![d] + ds, r2)),
                }
            } else {
                None
            },
        }
    } else {
        None
    }
}

/// Mathematical meaning of parsing a whole transcription artifact.
pub open spec fn parse_words(s: Seq<u8>) -> Option<Seq<WordV>> {
    match strip(s, seq![LBRACKET]) {
        None => None,
        Some(s1) => if s1.len() > 0 && s1[0] == RBRACKET {
            if s1.len() == 1 {
                Some(Seq::empty())
            } else {
                None
            }
        } else {
            match take_word(s1) {
                None => None,
                Some((w, r)) => match take_word_items(r) {
                    None => None,
                    Some((ws, r2)) => if r2.len() == 0 {
                        Some(seq![w] + ws)
                    } else {
                        None
                    },
                },
            }
        },
    }
}

/// Mathematical meaning of parsing a whole diarization artifact.
pub open spec fn parse_diars(s: Seq<u8>) -> Option<Seq<DiarV>> {
    match strip(s, seq![LBRACKET]) {
        None => None,
        Some(s1) => if s1.len() > 0 && s1[0] == RBRACKET {
            if s1.len() == 1 {
                Some(Seq::empty())
            } else {
                None
            }
        } else {
            match take_diar(s1) {
                None => None,
                Some((d, r)) => match take_diar_items(r) {
                    None => None,
                    Some((ds, r2)) => if r2.len() == 0 {
                        Some(seq![d] + ds)
                    } else {
                        None
                    },
                },
            }
        },
    }
}

pub proof fn lemma_pow10_mono(a: nat, b: nat)
    requires
        a <= b,
    ensures
        pow10(a) <= pow10(b),
    decreases b,
{
    if a < b {
        lemma_pow10_mono(a, (b - 1) as nat);
    }
}

/// Joins an already-unescaped prefix onto the outcome of reading the rest
/// of a string body.
pub open spec fn glue_str(pre: Seq<u8>, o: Option<(Seq<u8>, Seq<u8>)>) -> Option<
    (Seq<u8>, Seq<u8>),
> {
    match o {
        None => None,
        Some(tr) => Some((pre + tr.0, tr.1)),
    }
}

/// The bytes of `{"text":"` as a value.
fn lit_text_v() -> (v: Vec<u8>)
    ensures
        v@ == lit_text(),
{
    let mut v: Vec<u8> = Vec::new();
    push_lit_text(&mut v);
    proof {
        assert(v@ =~= lit_text());
    }
    v
}

/// The bytes of `,"start":` as a value.
fn lit_start_v() -> (v: Vec<u8>)
    ensures
        v@ == lit_start(),
{
    let mut v: Vec<u8> = Vec::new();
    push_lit_start(&mut v);
    proof {
        assert(v@ =~= lit_start());
    }
    v
}

/// The bytes of `{"start":` as a value.
fn lit_obj_start_v() -> (v: Vec<u8>)
    ensures
        v@ == lit_obj_start(),
{
    let mut v: Vec<u8> = Vec::new();
    push_lit_obj_start(&mut v);
    proof {
        assert(v@ =~= lit_obj_start());
    }
    v
}

/// The bytes of `,"end":` as a value.
fn lit_end_v() -> (v: Vec<u8>)
    ensures
        v@ == lit_end(),
{
    let mut v: Vec<u8> = Vec::new();
    push_lit_end(&mut v);
    proof {
        assert(v@ =~= lit_end());
    }
    v
}

/// The bytes of `,"confidence":` as a value.
fn lit_conf_v() -> (v: Vec<u8>)
    ensures
        v@ == lit_conf(),
{
    let mut v: Vec<u8> = Vec::new();
    push_lit_conf(&mut v);
    proof {
        assert(v@ =~= lit_conf());
    }
    v
}

/// The bytes of `,"speaker":` as a value.
fn lit_speaker_v() -> (v: Vec<u8>)
    ensures
        v@ == lit_speaker(),
{
    let mut v: Vec<u8> = Vec::new();
    push_lit_speaker(&mut v);
    proof {
        assert(v@ =~= lit_speaker());
    }
    v
}

/// The bytes of `null` as a value.
fn lit_null_v() -> (v: Vec<u8>)
    ensures
        v@ == lit_null(),
{
    let mut v: Vec<u8> = Vec::new();
    v.push(110);
    v.push(117);
    v.push(108);
    v.push(108);
    proof {
        assert(v@ =~= lit_null());
    }
    v
}

/// Consumes the literal `lit` at position `i`, if it is there.
fn eat_lit(s: &Vec<u8>, i: usize, lit: &Vec<u8>) -> (r: Option<usize>)
    requires
        i <= s@.len(),
    ensures
        match r {
            Some(j) => strip(s@.skip(i as int), lit@) == Some(s@.skip(j as int)) && j == i
                + lit@.len() && i <= j <= s@.len(),
            None => strip(s@.skip(i as int), lit@) is None,
        },
{
    if lit.len() > s.len() - i {
        return None;
    }
    let mut k: usize = 0;
    while k < lit.len()
        invariant
            i + lit@.len() <= s@.len(),
            s@.len() <= usize::MAX,
            k <= lit@.len(),
            forall|t: int| 0 <= t < k ==> s@[i + t] == lit@[t],
        decreases lit@.len() - k,
    {
        proof {
            assert(i + k < s@.len());
        }
        if s[i + k] != lit[k] {
            proof {
                assert(s@.skip(i as int).take(lit@.len() as int)[k as int] == s@[i + k]);
                assert(s@.skip(i as int).take(lit@.len() as int) != lit@);
            }
            return None;
        }
        k = k + 1;
    }
    proof {
        assert(s@.skip(i as int).take(lit@.len() as int) =~= lit@);
        assert(s@.skip(i as int).skip(lit@.len() as int) =~= s@.skip(i + lit@.len()));
    }
    Some(i + lit.len())
}

/// Consumes a string body from position `i` up to its closing quote,
/// undoing the escapes.
fn eat_string(s: &Vec<u8>, i: usize) -> (r: Option<(Vec<u8>, usize)>)
    requires
        i <= s@.len(),
    ensures
        match r {
            Some((t, j)) => take_string(s@.skip(i as int)) == Some((t@, s@.skip(j as int))) && i < j
                <= s@.len(),
            None => take_string(s@.skip(i as int)) is None,
        },
{
    let mut acc: Vec<u8> = Vec::new();
    let mut j: usize = i;
    proof {
        assert(acc@ + Seq::<u8>::empty() =~= acc@);
    }
    while j < s.len()
        invariant
            i <= j <= s@.len(),
            take_string(s@.skip(i as int)) == glue_str(acc@, take_string(s@.skip(j as int))),
        decreases s@.len() - j,
    {
        let b = s[j];
        proof {
            assert(s@.skip(j as int)[0] == b);
        }
        if b == QUOTE {
            proof {
                assert(take_string(s@.skip(j as int)) == Some(
                    (Seq::<u8>::empty(), s@.skip(j + 1)),
                ));
                assert(acc@ + Seq::<u8>::empty() =~= acc@);
            }
            return Some((acc, j + 1));
        } else if b == BACKSLASH {
            if j + 1 >= s.len() {
                proof {
                    assert(s@.skip(j as int).len() == 1);
                    assert(take_string(s@.skip(j as int)) is None);
                }
                return None;
            }
            let c = s[j + 1];
            proof {
                assert(s@.skip(j as int)[1] == c);
                assert(s@.skip(j as int).skip(2) =~= s@.skip(j + 2));
                match take_string(s@.skip(j + 2)) {
                    Some(tr) => {
                        assert(take_string(s@.skip(j as int)) == Some((seq![c] + tr.0, tr.1)));
                        assert(acc@ + (seq![c] + tr.0) =~= acc@.push(c) + tr.0);
                    },
                    None => {},
                }
            }
            acc.push(c);
            j = j + 2;
        } else {
            proof {
                assert(s@.skip(j as int).skip(1) =~= s@.skip(j + 1));
                match take_string(s@.skip(j + 1)) {
                    Some(tr) => {
                        assert(take_string(s@.skip(j as int)) == Some((seq![b] + tr.0, tr.1)));
                        assert(acc@ + (seq![b] + tr.0) =~= acc@.push(b) + tr.0);
                    },
                    None => {},
                }
            }
            acc.push(b);
            j = j + 1;
        }
    }
    proof {
        assert(s@.skip(j as int).len() == 0);
        assert(take_string(s@.skip(j as int)) is None);
    }
    None
}

/// Consumes a decimal number of at most fifteen digits at position `i`.
#[verifier::rlimit(100)]
fn eat_number(s: &Vec<u8>, i: usize) -> (r: Option<(u64, usize)>)
    requires
        i <= s@.len(),
    ensures
        match r {
            Some((v, j)) => take_number(s@.skip(i as int)) == Some((v as nat, s@.skip(j as int)))
                && i < j <= s@.len() && (v as nat) < pow10(15),
            None => take_number(s@.skip(i as int)) is None,
        },
{
    if i >= s.len() || s[i] < 48 || s[i] > 57 {
        proof {
            if i < s@.len() {
                assert(s@.skip(i as int)[0] == s@[i as int]);
            }
        }
        return None;
    }
    proof {
        assert(s@.skip(i as int)[0] == s@[i as int]);
        lemma_pow10_15();
    }
    let mut j: usize = i;
    let mut m: u64 = 0;
    let ghost mut acc: nat = 0;
    while j < s.len() && 48 <= s[j] && s[j] <= 57
        invariant
            i <= j <= s@.len(),
            take_digits(s@.skip(i as int), 0) == take_digits(s@.skip(j as int), acc),
            acc < pow10((j - i) as nat),
            j - i <= 15 ==> acc == m as nat,
            pow10(15) == 1_000_000_000_000_000,
        decreases s@.len() - j,
    {
        let d: u8 = s[j] - 48;
        proof {
            assert(s@.skip(j as int)[0] == s@[j as int]);
            assert(s@.skip(j as int).skip(1) =~= s@.skip(j + 1));
            assert(take_digits(s@.skip(j as int), acc) == take_digits(
                s@.skip(j + 1),
                acc * 10 + d as nat,
            ));
            assert(pow10((j + 1 - i) as nat) == 10 * pow10((j - i) as nat));
            assert(acc * 10 + (d as nat) < pow10((j + 1 - i) as nat));
        }
        if j - i < 15 {
            proof {
                lemma_pow10_mono((j - i) as nat, 14);
                assert(pow10(14) * 10 == pow10(15));
                assert(m < 100_000_000_000_000);
            }
            m = m * 10 + (d as u64);
        }
        proof {
            acc = acc * 10 + d as nat;
        }
        j = j + 1;
    }
    proof {
        if j < s@.len() {
            assert(s@.skip(j as int)[0] == s@[j as int]);
        }
        assert(take_digits(s@.skip(j as int), acc) == (acc, s@.skip(j as int)));
    }
    if j - i <= 15 {
        proof {
            assert(s@.skip(i as int).len() - s@.skip(j as int).len() == j - i);
            assert(take_number(s@.skip(i as int)) == Some((acc, s@.skip(j as int))));
            lemma_pow10_mono((j - i) as nat, 15);
        }
        Some((m, j))
    } else {
        proof {
            assert(s@.skip(i as int).len() - s@.skip(j as int).len() == j - i);
            assert(take_number(s@.skip(i as int)) is None);
        }
        None
    }
}

/// Consumes a speaker value — `null` or a quoted string — at position `i`.
fn eat_speaker(s: &Vec<u8>, i: usize) -> (r: Option<(Option<Vec<u8>>, usize)>)
    requires
        i <= s@.len(),
    ensures
        match r {
            Some((sp, j)) => take_speaker(s@.skip(i as int)) == Some(
                (
                    match sp {
                        Some(ref l) => Some(l@),
                        None => None,
                    },
                    s@.skip(j as int),
                ),
            ) && i < j <= s@.len(),
            None => take_speaker(s@.skip(i as int)) is None,
        },
{
    if i < s.len() && s[i] == QUOTE {
        proof {
            assert(s@.skip(i as int)[0] == QUOTE);
            assert(s@.skip(i as int).skip(1) =~= s@.skip(i + 1));
        }
        match eat_string(s, i + 1) {
            Some((t, j)) => Some((Some(t), j)),
            None => None,
        }
    } else {
        proof {
            if i < s@.len() {
                assert(s@.skip(i as int)[0] == s@[i as int]);
            }
        }
        let nl = lit_null_v();
        match eat_lit(s, i, &nl) {
            Some(j) => Some((None, j)),
            None => None,
        }
    }
}

/// Consumes one word object at position `i`.
#[verifier::rlimit(100)]
fn eat_word(s: &Vec<u8>, i: usize) -> (r: Option<(Word, usize)>)
    requires
        i <= s@.len(),
    ensures
        match r {
            Some((w, j)) => take_word(s@.skip(i as int)) == Some((w@, s@.skip(j as int))) && i < j
                <= s@.len(),
            None => take_word(s@.skip(i as int)) is None,
        },
{
    let lt = lit_text_v();
    let i1 = match eat_lit(s, i, &lt) {
        Some(j) => j,
        None => {
            return None;
        },
    };
    let (text, i2) = match eat_string(s, i1) {
        Some(x) => x,
        None => {
            return None;
        },
    };
    let ls = lit_start_v();
    let i3 = match eat_lit(s, i2, &ls) {
        Some(j) => j,
        None => {
            return None;
        },
    };
    let (start, i4) = match eat_number(s, i3) {
        Some(x) => x,
        None => {
            return None;
        },
    };
    let le = lit_end_v();
    let i5 = match eat_lit(s, i4, &le) {
        Some(j) => j,
        None => {
            return None;
        },
    };
    let (end, i6) = match eat_number(s, i5) {
        Some(x) => x,
        None => {
            return None;
        },
    };
    let lc = lit_conf_v();
    let i7 = match eat_lit(s, i6, &lc) {
        Some(j) => j,
        None => {
            return None;
        },
    };
    let (conf, i8) = match eat_number(s, i7) {
        Some(x) => x,
        None => {
            return None;
        },
    };
    if conf > MAX_CONFIDENCE_MILLI as u64 {
        return None;
    }
    let lk = lit_speaker_v();
    let i9 = match eat_lit(s, i8, &lk) {
        Some(j) => j,
        None => {
            return None;
        },
    };
    let (speaker, i10) = match eat_speaker(s, i9) {
        Some(x) => x,
        None => {
            return None;
        },
    };
    let mut rb: Vec<u8> = Vec::new();
    rb.push(RBRACE);
    proof {
        assert(rb@ =~= seq![RBRACE]);
    }
    let i11 = match eat_lit(s, i10, &rb) {
        Some(j) => j,
        None => {
            return None;
        },
    };
    let w = Word {
        text,
        start_ms: start,
        end_ms: end,
        confidence_milli: conf as u32,
        speaker,
    };
    Some((w, i11))
}

/// Consumes one diarization object at position `i`.
#[verifier::rlimit(100)]
fn eat_diar(s: &Vec<u8>, i: usize) -> (r: Option<(DiarizationSegment, usize)>)
    requires
        i <= s@.len(),
    ensures
        match r {
            Some((d, j)) => take_diar(s@.skip(i as int)) == Some((d@, s@.skip(j as int))) && i < j
                <= s@.len(),
            None => take_diar(s@.skip(i as int)) is None,
        },
{
    let lo = lit_obj_start_v();
    let i1 = match eat_lit(s, i, &lo) {
        Some(j) => j,
        None => {
            return None;
        },
    };
    let (start, i2) = match eat_number(s, i1) {
        Some(x) => x,
        None => {
            return None;
        },
    };
    let le = lit_end_v();
    let i3 = match eat_lit(s, i2, &le) {
        Some(j) => j,
        None => {
            return None;
        },
    };
    let (end, i4) = match eat_number(s, i3) {
        Some(x) => x,
        None => {
            return None;
        },
    };
    let mut lk = lit_speaker_v();
    lk.push(QUOTE);
    proof {
        assert(lk@ =~= lit_speaker() + seq![QUOTE]);
    }
    let i5 = match eat_lit(s, i4, &lk) {
        Some(j) => j,
        None => {
            return None;
        },
    };
    let (label, i6) = match eat_string(s, i5) {
        Some(x) => x,
        None => {
            return None;
        },
    };
    let mut rb: Vec<u8> = Vec::new();
    rb.push(RBRACE);
    proof {
        assert(rb@ =~= seq![RBRACE]);
    }
    let i7 = match eat_lit(s, i6, &rb) {
        Some(j) => j,
        None => {
            return None;
        },
    };
    let d = DiarizationSegment { start_ms: start, end_ms: end, speaker_label: label };
    Some((d, i7))
}

/// Joins already-parsed words onto the outcome of reading the rest of an
/// array.
pub open spec fn glue_words(pre: Seq<WordV>, o: Option<(Seq<WordV>, Seq<u8>)>) -> Option<
    Seq<WordV>,
> {
    match o {
        None => None,
        Some((ws, r2)) => if r2.len() == 0 {
            Some(pre + ws)
        } else {
            None
        },
    }
}

/// Joins already-parsed diarization records onto the outcome of reading
/// the rest of an array.
pub open spec fn glue_diars(pre: Seq<DiarV>, o: Option<(Seq<DiarV>, Seq<u8>)>) -> Option<
    Seq<DiarV>,
> {
    match o {
        None => None,
        Some((ds, r2)) => if r2.len() == 0 {
            Some(pre + ds)
        } else {
            None
        },
    }
}

/// Parses a transcription artifact back into its word sequence; yields
/// nothing on a malformed artifact.
#[verifier::rlimit(100)]
pub fn parse_transcription(bytes: &Vec<u8>) -> (r: Option<Vec<Word>>)
    ensures
        match r {
            Some(ws) => parse_words(bytes@) == Some(word_views(ws@)),
            None => parse_words(bytes@) is None,
        },
{
    let n = bytes.len();
    if n == 0 || bytes[0] != LBRACKET {
        proof {
            if bytes@.len() > 0 {
                assert(bytes@.take(1)[0] == bytes@[0]);
                assert(bytes@.take(1) != seq![LBRACKET]);
            }
        }
        return None;
    }
    proof {
        assert(bytes@.take(1) =~= seq![LBRACKET]);
        assert(strip(bytes@, seq![LBRACKET]) == Some(bytes@.skip(1)));
    }
    let mut out: Vec<Word> = Vec::new();
    if 1 < n && bytes[1] == RBRACKET {
        proof {
            assert(bytes@.skip(1)[0] == bytes@[1]);
        }
        if n == 2 {
            proof {
                assert(word_views(out@) =~= Seq::<WordV>::empty());
            }
            return Some(out);
        } else {
            return None;
        }
    }
    proof {
        if bytes@.skip(1).len() > 0 {
            assert(bytes@.skip(1)[0] == bytes@[1]);
        }
    }
    let (w0, first_end) = match eat_word(bytes, 1) {
        Some(x) => x,
        None => {
            return None;
        },
    };
    let mut i: usize = first_end;
    proof {
        assert(word_views(out@.push(w0)) =~= word_views(out@).push(w0@));
        assert(word_views(out@).push(w0@) =~= seq![w0@]);
    }
    out.push(w0);
    proof {
        assert(parse_words(bytes@) == glue_words(
            word_views(out@),
            take_word_items(bytes@.skip(i as int)),
        )) by {
            match take_word_items(bytes@.skip(i as int)) {
                None => {},
                Some((ws, r2)) => {
                    assert(seq![w0@] + ws =~= word_views(out@) + ws);
                },
            }
        }
    }
    while i < n
        invariant
            1 <= i <= bytes@.len(),
            n == bytes@.len(),
            parse_words(bytes@) == glue_words(
                word_views(out@),
                take_word_items(bytes@.skip(i as int)),
            ),
        decreases bytes@.len() - i,
    {
        let b = bytes[i];
        proof {
            assert(bytes@.skip(i as int)[0] == b);
        }
        if b == RBRACKET {
            proof {
                assert(take_word_items(bytes@.skip(i as int)) == Some(
                    (Seq::<WordV>::empty(), bytes@.skip(i + 1)),
                ));
            }
            if i + 1 == n {
                proof {
                    assert(word_views(out@) + Seq::<WordV>::empty() =~= word_views(out@));
                }
                return Some(out);
            } else {
                return None;
            }
        }
        if b != COMMA {
            return None;
        }
        proof {
            assert(bytes@.skip(i as int).skip(1) =~= bytes@.skip(i + 1));
        }
        match eat_word(bytes, i + 1) {
            None => {
                return None;
            },
            Some((w2, j)) => {
                proof {
                    assert(bytes@.skip(j as int).len() < bytes@.skip(i as int).len());
                    assert(take_word_items(bytes@.skip(i as int)) == (
                    match take_word_items(bytes@.skip(j as int)) {
                        None => None::<(Seq<WordV>, Seq<u8>)>,
                        Some((ws, r2)) => Some((seq![w2@] + ws, r2)),
                    }));
                    assert(word_views(out@.push(w2)) =~= word_views(out@).push(w2@));
                    match take_word_items(bytes@.skip(j as int)) {
                        None => {},
                        Some((ws, r2)) => {
                            assert(word_views(out@) + (seq![w2@] + ws) =~= word_views(out@).push(
                                w2@,
                            ) + ws);
                        },
                    }
                }
                out.push(w2);
                i = j;
            },
        }
    }
    proof {
        assert(bytes@.skip(i as int).len() == 0);
    }
    None
}

/// Parses a diarization artifact back into its record sequence; yields
/// nothing on a malformed artifact.
#[verifier::rlimit(100)]
pub fn parse_diarization(bytes: &Vec<u8>) -> (r: Option<Vec<DiarizationSegment>>)
    ensures
        match r {
            Some(ds) => parse_diars(bytes@) == Some(diar_views(ds@)),
            None => parse_diars(bytes@) is None,
        },
{
    let n = bytes.len();
    if n == 0 || bytes[0] != LBRACKET {
        proof {
            if bytes@.len() > 0 {
                assert(bytes@.take(1)[0] == bytes@[0]);
                assert(bytes@.take(1) != seq![LBRACKET]);
            }
        }
        return None;
    }
    proof {
        assert(bytes@.take(1) =~= seq![LBRACKET]);
        assert(strip(bytes@, seq![LBRACKET]) == Some(bytes@.skip(1)));
    }
    let mut out: Vec<DiarizationSegment> = Vec::new();
    if 1 < n && bytes[1] == RBRACKET {
        proof {
            assert(bytes@.skip(1)[0] == bytes@[1]);
        }
        if n == 2 {
            proof {
                assert(diar_views(out@) =~= Seq::<DiarV>::empty());
            }
            return Some(out);
        } else {
            return None;
        }
    }
    proof {
        if bytes@.skip(1).len() > 0 {
            assert(bytes@.skip(1)[0] == bytes@[1]);
        }
    }
    let (d0, first_end) = match eat_diar(bytes, 1) {
        Some(x) => x,
        None => {
            return None;
        },
    };
    let mut i: usize = first_end;
    proof {
        assert(diar_views(out@.push(d0)) =~= diar_views(out@).push(d0@));
        assert(diar_views(out@).push(d0@) =~= seq![d0@]);
    }
    out.push(d0);
    proof {
        assert(parse_diars(bytes@) == glue_diars(
            diar_views(out@),
            take_diar_items(bytes@.skip(i as int)),
        )) by {
            match take_diar_items(bytes@.skip(i as int)) {
                None => {},
                Some((ds, r2)) => {
                    assert(seq![d0@] + ds =~= diar_views(out@) + ds);
                },
            }
        }
    }
    while i < n
        invariant
            1 <= i <= bytes@.len(),
            n == bytes@.len(),
            parse_diars(bytes@) == glue_diars(
                diar_views(out@),
                take_diar_items(bytes@.skip(i as int)),
            ),
        decreases bytes@.len() - i,
    {
        let b = bytes[i];
        proof {
            assert(bytes@.skip(i as int)[0] == b);
        }
        if b == RBRACKET {
            proof {
                assert(take_diar_items(bytes@.skip(i as int)) == Some(
                    (Seq::<DiarV>::empty(), bytes@.skip(i + 1)),
                ));
            }
            if i + 1 == n {
                proof {
                    assert(diar_views(out@) + Seq::<DiarV>::empty() =~= diar_views(out@));
                }
                return Some(out);
            } else {
                return None;
            }
        }
        if b != COMMA {
            return None;
        }
        proof {
            assert(bytes@.skip(i as int).skip(1) =~= bytes@.skip(i + 1));
        }
        match eat_diar(bytes, i + 1) {
            None => {
                return None;
            },
            Some((d2, j)) => {
                proof {
                    assert(bytes@.skip(j as int).len() < bytes@.skip(i as int).len());
                    assert(take_diar_items(bytes@.skip(i as int)) == (
                    match take_diar_items(bytes@.skip(j as int)) {
                        None => None::<(Seq<DiarV>, Seq<u8>)>,
                        Some((ds, r2)) => Some((seq![d2@] + ds, r2)),
                    }));
                    assert(diar_views(out@.push(d2)) =~= diar_views(out@).push(d2@));
                    match take_diar_items(bytes@.skip(j as int)) {
                        None => {},
                        Some((ds, r2)) => {
                            assert(diar_views(out@) + (seq![d2@] + ds) =~= diar_views(out@).push(
                                d2@,
                            ) + ds);
                        },
                    }
                }
                out.push(d2);
                i = j;
            },
        }
    }
    proof {
        assert(bytes@.skip(i as int).len() == 0);
    }
    None
}

pub proof fn lemma_strip_prepend(l: Seq<u8>, r: Seq<u8>)
    ensures
        strip(l + r, l) == Some(r),
{
    assert((l + r).take(l.len() as int) =~= l);
    assert((l + r).skip(l.len() as int) =~= r);
}

pub proof fn lemma_take_string_esc(t: Seq<u8>, rest: Seq<u8>)
    ensures
        take_string(esc(t) + seq![QUOTE] + rest) == Some((t, rest)),
    decreases t.len(),
{
    let s = esc(t) + seq![QUOTE] + rest;
    if t.len() == 0 {
        assert(s =~= seq![QUOTE] + rest);
        assert(s[0] == QUOTE);
        assert(s.skip(1) =~= rest);
        assert(t =~= Seq::<u8>::empty());
    } else {
        let c = t[0];
        if c == QUOTE || c == BACKSLASH {
            assert(s =~= seq![BACKSLASH, c] + (esc(t.skip(1)) + seq![QUOTE] + rest));
            assert(s[0] == BACKSLASH);
            assert(s[1] == c);
            assert(s.len() >= 2);
            assert(s.skip(2) =~= esc(t.skip(1)) + seq![QUOTE] + rest);
            lemma_take_string_esc(t.skip(1), rest);
            assert(seq![c] + t.skip(1) =~= t);
        } else {
            assert(s =~= seq![c] + (esc(t.skip(1)) + seq![QUOTE] + rest));
            assert(s[0] == c);
            assert(s.skip(1) =~= esc(t.skip(1)) + seq![QUOTE] + rest);
            lemma_take_string_esc(t.skip(1), rest);
            assert(seq![c] + t.skip(1) =~= t);
        }
    }
}

pub proof fn lemma_pow10_15()
    ensures
        pow10(15) == 1_000_000_000_000_000,
{
    assert(pow10(0) == 1);
    assert(pow10(1) == 10);
    assert(pow10(2) == 100);
    assert(pow10(3) == 1000);
    assert(pow10(4) == 10000);
    assert(pow10(5) == 100000);
    assert(pow10(6) == 1000000);
    assert(pow10(7) == 10000000);
    assert(pow10(8) == 100000000);
    assert(pow10(9) == 1000000000);
    assert(pow10(10) == 10000000000);
    assert(pow10(11) == 100000000000);
    assert(pow10(12) == 1000000000000);
    assert(pow10(13) == 10000000000000);
    assert(pow10(14) == 100000000000000);
    assert(pow10(15) == 1000000000000000);
}

pub proof fn lemma_take_digits_dec(n: nat, acc: nat, rest: Seq<u8>)
    ensures
        take_digits(dec_rep(n) + rest, acc) == take_digits(rest, acc * pow10(dec_rep(n).len()) + n),
    decreases n,
{
    let s = dec_rep(n) + rest;
    if n < 10 {
        assert(s[0] == (48 + n) as u8);
        assert(is_digit(s[0]));
        assert(s.skip(1) =~= rest);
        assert((s[0] - 48) as nat == n);
        assert(pow10(0) == 1);
        assert(pow10(1) == 10);
        assert(take_digits(s, acc) == take_digits(rest, acc * 10 + n));
    } else {
        let d = (48 + n % 10) as u8;
        let lp = dec_rep(n / 10).len();
        assert(s =~= dec_rep(n / 10) + (seq![d] + rest));
        lemma_take_digits_dec(n / 10, acc, seq![d] + rest);
        let mid = acc * pow10(lp) + n / 10;
        assert(take_digits(s, acc) == take_digits(seq![d] + rest, mid));
        assert((seq![d] + rest)[0] == d);
        assert(is_digit(d));
        assert((seq![d] + rest).skip(1) =~= rest);
        assert(((seq![d] + rest)[0] - 48) as nat == n % 10);
        assert(take_digits(seq![d] + rest, mid) == take_digits(rest, mid * 10 + n % 10));
        assert(dec_rep(n).len() == lp + 1);
        assert(pow10(lp + 1) == 10 * pow10(lp));
        assert((acc * pow10(lp) + n / 10) * 10 + n % 10 == acc * (10 * pow10(lp)) + ((n / 10) * 10
            + n % 10)) by (nonlinear_arith);
        assert((n / 10) * 10 + n % 10 == n) by (nonlinear_arith);
    }
}

pub proof fn lemma_take_number_dec(n: nat, rest: Seq<u8>)
    requires
        n < pow10(15),
        rest.len() == 0 || !is_digit(rest[0]),
    ensures
        take_number(dec_rep(n) + rest) == Some((n, rest)),
{
    let s = dec_rep(n) + rest;
    lemma_dec_rep_digits(n);
    assert(s[0] == dec_rep(n)[0]);
    assert(is_digit(s[0]));
    lemma_take_digits_dec(n, 0, rest);
    assert(0 * pow10(dec_rep(n).len()) + n == n) by (nonlinear_arith);
    assert(take_digits(rest, n) == (n, rest));
    assert(take_digits(s, 0) == (n, rest));
    lemma_dec_rep_len(n, 15);
    assert(s.len() - rest.len() == dec_rep(n).len());
}

pub proof fn lemma_take_speaker_enc(spk: Option<Seq<u8>>, rest: Seq<u8>)
    ensures
        take_speaker(enc_speaker(spk) + rest) == Some((spk, rest)),
{
    let s = enc_speaker(spk) + rest;
    match spk {
        None => {
            assert(s =~= lit_null() + rest);
            assert(s[0] == 110u8);
            assert(s[0] != QUOTE);
            lemma_strip_prepend(lit_null(), rest);
        },
        Some(t) => {
            assert(s =~= seq![QUOTE] + (esc(t) + seq![QUOTE] + rest));
            assert(s[0] == QUOTE);
            assert(s.skip(1) =~= esc(t) + seq![QUOTE] + rest);
            lemma_take_string_esc(t, rest);
        },
    }
}

#[verifier::rlimit(100)]
pub proof fn lemma_take_word_enc(w: WordV, rest: Seq<u8>)
    requires
        wf_word(w),
    ensures
        take_word(enc_word(w) + rest) == Some((w, rest)),
{
    lemma_pow10_15();
    let s = enc_word(w) + rest;
    let r1 = esc(w.text) + seq![QUOTE] + (lit_start() + dec_rep(w.start_ms as nat) + lit_end()
        + dec_rep(w.end_ms as nat) + lit_conf() + dec_rep(w.confidence_milli as nat)
        + lit_speaker() + enc_speaker(w.speaker) + seq![RBRACE] + rest);
    assert(s =~= lit_text() + r1);
    lemma_strip_prepend(lit_text(), r1);
    let r2 = lit_start() + dec_rep(w.start_ms as nat) + lit_end() + dec_rep(w.end_ms as nat)
        + lit_conf() + dec_rep(w.confidence_milli as nat) + lit_speaker() + enc_speaker(w.speaker)
        + seq![RBRACE] + rest;
    assert(r1 =~= esc(w.text) + seq![QUOTE] + r2);
    lemma_take_string_esc(w.text, r2);
    let r3 = dec_rep(w.start_ms as nat) + (lit_end() + dec_rep(w.end_ms as nat) + lit_conf()
        + dec_rep(w.confidence_milli as nat) + lit_speaker() + enc_speaker(w.speaker)
        + seq![RBRACE] + rest);
    assert(r2 =~= lit_start() + r3);
    lemma_strip_prepend(lit_start(), r3);
    let r4 = lit_end() + dec_rep(w.end_ms as nat) + lit_conf() + dec_rep(w.confidence_milli as nat)
        + lit_speaker() + enc_speaker(w.speaker) + seq![RBRACE] + rest;
    assert(r3 =~= dec_rep(w.start_ms as nat) + r4);
    assert(r4[0] == 44u8);
    lemma_take_number_dec(w.start_ms as nat, r4);
    let r5 = dec_rep(w.end_ms as nat) + (lit_conf() + dec_rep(w.confidence_milli as nat)
        + lit_speaker() + enc_speaker(w.speaker) + seq![RBRACE] + rest);
    assert(r4 =~= lit_end() + r5);
    lemma_strip_prepend(lit_end(), r5);
    let r6 = lit_conf() + dec_rep(w.confidence_milli as nat) + lit_speaker() + enc_speaker(
        w.speaker,
    ) + seq![RBRACE] + rest;
    assert(r5 =~= dec_rep(w.end_ms as nat) + r6);
    assert(r6[0] == 44u8);
    lemma_take_number_dec(w.end_ms as nat, r6);
    let r7 = dec_rep(w.confidence_milli as nat) + (lit_speaker() + enc_speaker(w.speaker)
        + seq![RBRACE] + rest);
    assert(r6 =~= lit_conf() + r7);
    lemma_strip_prepend(lit_conf(), r7);
    let r8 = lit_speaker() + enc_speaker(w.speaker) + seq![RBRACE] + rest;
    assert(r7 =~= dec_rep(w.confidence_milli as nat) + r8);
    assert(r8[0] == 44u8);
    lemma_take_number_dec(w.confidence_milli as nat, r8);
    let r9 = enc_speaker(w.speaker) + (seq![RBRACE] + rest);
    assert(r8 =~= lit_speaker() + r9);
    lemma_strip_prepend(lit_speaker(), r9);
    lemma_take_speaker_enc(w.speaker, seq![RBRACE] + rest);
    lemma_strip_prepend(seq![RBRACE], rest);
    assert(take_word(s) == Some(
        (
            WordV {
                text: w.text,
                start_ms: (w.start_ms as nat) as int,
                end_ms: (w.end_ms as nat) as int,
                confidence_milli: (w.confidence_milli as nat) as int,
                speaker: w.speaker,
            },
            rest,
        ),
    ));
}

#[verifier::rlimit(100)]
pub proof fn lemma_take_diar_enc(d: DiarV, rest: Seq<u8>)
    requires
        wf_diar(d),
    ensures
        take_diar(enc_diar(d) + rest) == Some((d, rest)),
{
    lemma_pow10_15();
    let s = enc_diar(d) + rest;
    let r1 = dec_rep(d.start_ms as nat) + (lit_end() + dec_rep(d.end_ms as nat) + lit_speaker()
        + seq![QUOTE] + esc(d.speaker_label) + seq![QUOTE, RBRACE] + rest);
    assert(s =~= lit_obj_start() + r1);
    lemma_strip_prepend(lit_obj_start(), r1);
    let r2 = lit_end() + dec_rep(d.end_ms as nat) + lit_speaker() + seq![QUOTE] + esc(
        d.speaker_label,
    ) + seq![QUOTE, RBRACE] + rest;
    assert(r1 =~= dec_rep(d.start_ms as nat) + r2);
    assert(r2[0] == 44u8);
    lemma_take_number_dec(d.start_ms as nat, r2);
    let r3 = dec_rep(d.end_ms as nat) + (lit_speaker() + seq![QUOTE] + esc(d.speaker_label)
        + seq![QUOTE, RBRACE] + rest);
    assert(r2 =~= lit_end() + r3);
    lemma_strip_prepend(lit_end(), r3);
    let r4 = lit_speaker() + seq![QUOTE] + esc(d.speaker_label) + seq![QUOTE, RBRACE] + rest;
    assert(r3 =~= dec_rep(d.end_ms as nat) + r4);
    assert(r4[0] == 44u8);
    lemma_take_number_dec(d.end_ms as nat, r4);
    let r5 = esc(d.speaker_label) + (seq![QUOTE] + (seq![RBRACE] + rest));
    assert(r4 =~= (lit_speaker() + seq![QUOTE]) + r5);
    lemma_strip_prepend(lit_speaker() + seq![QUOTE], r5);
    assert(r5 =~= esc(d.speaker_label) + seq![QUOTE] + (seq![RBRACE] + rest));
    lemma_take_string_esc(d.speaker_label, seq![RBRACE] + rest);
    lemma_strip_prepend(seq![RBRACE], rest);
    assert(take_diar(s) == Some(
        (
            DiarV {
                start_ms: (d.start_ms as nat) as int,
                end_ms: (d.end_ms as nat) as int,
                speaker_label: d.speaker_label,
            },
            rest,
        ),
    ));
}

/// Comma-prefixed encodings of the words after the first of an array.
pub open spec fn enc_word_tail(ws: Seq<WordV>) -> Seq<u8>
    decreases ws.len(),
{
    if ws.len() == 0 {
        Seq::empty()
    } else {
        seq![COMMA] + enc_word(ws[0]) + enc_word_tail(ws.skip(1))
    }
}

/// Comma-prefixed encodings of the diarization records after the first.
pub open spec fn enc_diar_tail(ds: Seq<DiarV>) -> Seq<u8>
    decreases ds.len(),
{
    if ds.len() == 0 {
        Seq::empty()
    } else {
        seq![COMMA] + enc_diar(ds[0]) + enc_diar_tail(ds.skip(1))
    }
}

#[verifier::rlimit(100)]
pub proof fn lemma_enc_word_items_split(ws: Seq<WordV>)
    requires
        ws.len() >= 1,
    ensures
        enc_word_items(ws) == enc_word(ws[0]) + enc_word_tail(ws.skip(1)),
    decreases ws.len(),
{
    if ws.len() == 1 {
        assert(ws.skip(1).len() == 0);
        assert(enc_word_items(ws) =~= enc_word(ws[0]) + enc_word_tail(ws.skip(1)));
    } else {
        lemma_enc_word_items_split(ws.skip(1));
        assert(ws.skip(1)[0] == ws[1]);
        assert(ws.skip(1).skip(1) =~= ws.skip(2));
        assert(enc_word_items(ws) =~= enc_word(ws[0]) + enc_word_tail(ws.skip(1)));
    }
}

#[verifier::rlimit(100)]
pub proof fn lemma_enc_diar_items_split(ds: Seq<DiarV>)
    requires
        ds.len() >= 1,
    ensures
        enc_diar_items(ds) == enc_diar(ds[0]) + enc_diar_tail(ds.skip(1)),
    decreases ds.len(),
{
    if ds.len() == 1 {
        assert(ds.skip(1).len() == 0);
        assert(enc_diar_items(ds) =~= enc_diar(ds[0]) + enc_diar_tail(ds.skip(1)));
    } else {
        lemma_enc_diar_items_split(ds.skip(1));
        assert(ds.skip(1)[0] == ds[1]);
        assert(ds.skip(1).skip(1) =~= ds.skip(2));
        assert(enc_diar_items(ds) =~= enc_diar(ds[0]) + enc_diar_tail(ds.skip(1)));
    }
}

#[verifier::rlimit(100)]
pub proof fn lemma_take_word_tail(ws: Seq<WordV>, rest: Seq<u8>)
    requires
        forall|i: int| 0 <= i < ws.len() ==> wf_word(#[trigger] ws[i]),
    ensures
        take_word_items(enc_word_tail(ws) + seq![RBRACKET] + rest) == Some((ws, rest)),
    decreases ws.len(),
{
    let s = enc_word_tail(ws) + seq![RBRACKET] + rest;
    if ws.len() == 0 {
        assert(s =~= seq![RBRACKET] + rest);
        assert(s[0] == RBRACKET);
        assert(s.skip(1) =~= rest);
        assert(ws =~= Seq::<WordV>::empty());
    } else {
        let r = enc_word_tail(ws.skip(1)) + seq![RBRACKET] + rest;
        assert(s =~= seq![COMMA] + (enc_word(ws[0]) + r));
        assert(s[0] == COMMA);
        assert(s[0] != RBRACKET);
        assert(s.skip(1) =~= enc_word(ws[0]) + r);
        assert(wf_word(ws[0]));
        lemma_take_word_enc(ws[0], r);
        assert(s.len() == 1 + enc_word(ws[0]).len() + r.len());
        assert(r.len() < s.len());
        lemma_take_word_tail(ws.skip(1), rest);
        assert(seq![ws[0]] + ws.skip(1) =~= ws);
    }
}

#[verifier::rlimit(100)]
pub proof fn lemma_take_diar_tail(ds: Seq<DiarV>, rest: Seq<u8>)
    requires
        forall|i: int| 0 <= i < ds.len() ==> wf_diar(#[trigger] ds[i]),
    ensures
        take_diar_items(enc_diar_tail(ds) + seq![RBRACKET] + rest) == Some((ds, rest)),
    decreases ds.len(),
{
    let s = enc_diar_tail(ds) + seq![RBRACKET] + rest;
    if ds.len() == 0 {
        assert(s =~= seq![RBRACKET] + rest);
        assert(s[0] == RBRACKET);
        assert(s.skip(1) =~= rest);
        assert(ds =~= Seq::<DiarV>::empty());
    } else {
        let r = enc_diar_tail(ds.skip(1)) + seq![RBRACKET] + rest;
        assert(s =~= seq![COMMA] + (enc_diar(ds[0]) + r));
        assert(s[0] == COMMA);
        assert(s[0] != RBRACKET);
        assert(s.skip(1) =~= enc_diar(ds[0]) + r);
        assert(wf_diar(ds[0]));
        lemma_take_diar_enc(ds[0], r);
        assert(s.len() == 1 + enc_diar(ds[0]).len() + r.len());
        assert(r.len() < s.len());
        lemma_take_diar_tail(ds.skip(1), rest);
        assert(seq![ds[0]] + ds.skip(1) =~= ds);
    }
}

/// Round trip: parsing a serialized word sequence yields that sequence
/// again, field for field, for every well-formed sequence.
#[verifier::rlimit(100)]
pub proof fn lemma_words_round_trip(ws: Seq<WordV>)
    requires
        forall|i: int| 0 <= i < ws.len() ==> wf_word(#[trigger] ws[i]),
    ensures
        parse_words(enc_words(ws)) == Some(ws),
{
    let s = enc_words(ws);
    if ws.len() == 0 {
        assert(s =~= seq![LBRACKET] + seq![RBRACKET]);
        lemma_strip_prepend(seq![LBRACKET], seq![RBRACKET]);
        assert(s =~= seq![LBRACKET] + (Seq::<u8>::empty() + seq![RBRACKET]));
        assert(strip(s, seq![LBRACKET]) == Some(seq![RBRACKET]));
        assert(ws =~= Seq::<WordV>::empty());
    } else {
        lemma_enc_word_items_split(ws);
        let r = enc_word(ws[0]) + (enc_word_tail(ws.skip(1)) + seq![RBRACKET]);
        assert(s =~= seq![LBRACKET] + r);
        lemma_strip_prepend(seq![LBRACKET], r);
        assert(r[0] == enc_word(ws[0])[0]);
        assert(enc_word(ws[0])[0] == lit_text()[0]);
        assert(r[0] != RBRACKET);
        lemma_take_word_enc(ws[0], enc_word_tail(ws.skip(1)) + seq![RBRACKET]);
        assert(enc_word_tail(ws.skip(1)) + seq![RBRACKET] =~= enc_word_tail(ws.skip(1))
            + seq![RBRACKET] + Seq::<u8>::empty());
        lemma_take_word_tail(ws.skip(1), Seq::empty());
        assert(seq![ws[0]] + ws.skip(1) =~= ws);
    }
}

/// Round trip: parsing a serialized diarization sequence yields that
/// sequence again, field for field, for every well-formed sequence.
#[verifier::rlimit(100)]
pub proof fn lemma_diars_round_trip(ds: Seq<DiarV>)
    requires
        forall|i: int| 0 <= i < ds.len() ==> wf_diar(#[trigger] ds[i]),
    ensures
        parse_diars(enc_diars(ds)) == Some(ds),
{
    let s = enc_diars(ds);
    if ds.len() == 0 {
        assert(s =~= seq![LBRACKET] + seq![RBRACKET]);
        lemma_strip_prepend(seq![LBRACKET], seq![RBRACKET]);
        assert(s =~= seq![LBRACKET] + (Seq::<u8>::empty() + seq![RBRACKET]));
        assert(strip(s, seq![LBRACKET]) == Some(seq![RBRACKET]));
        assert(ds =~= Seq::<DiarV>::empty());
    } else {
        lemma_enc_diar_items_split(ds);
        let r = enc_diar(ds[0]) + (enc_diar_tail(ds.skip(1)) + seq![RBRACKET]);
        assert(s =~= seq![LBRACKET] + r);
        lemma_strip_prepend(seq![LBRACKET], r);
        assert(r[0] == enc_diar(ds[0])[0]);
        assert(enc_diar(ds[0])[0] == lit_obj_start()[0]);
        assert(r[0] != RBRACKET);
        lemma_take_diar_enc(ds[0], enc_diar_tail(ds.skip(1)) + seq![RBRACKET]);
        assert(enc_diar_tail(ds.skip(1)) + seq![RBRACKET] =~= enc_diar_tail(ds.skip(1))
            + seq![RBRACKET] + Seq::<u8>::empty());
        lemma_take_diar_tail(ds.skip(1), Seq::empty());
        assert(seq![ds[0]] + ds.skip(1) =~= ds);
    }
}

} // verus!
