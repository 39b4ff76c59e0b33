//! Segment normalizer: reshapes backend-native segments into the canonical
//! word and diarization sequences.
//!
//! Every word of a segment becomes one `Word` inheriting the segment's time
//! bounds and speaker reference; every segment that carries a speaker
//! identity becomes exactly one `DiarizationSegment`; segments without one
//! are omitted from the diarization output but still contribute their
//! words. Nothing is re-sorted or deduplicated.

use vstd::prelude::*;
use crate::types::{
    DiarV, DiarizationSegment, Segment, SegmentWord, SpeakerIdentity, Word, WordV,
};
use crate::codec::{dec_rep, diar_views, word_views};

verus! {

broadcast use vstd::seq::group_seq_axioms;

/// The bytes of `speaker`.
pub open spec fn speaker_prefix() -> Seq<u8> {
    seq![115u8, 112, 101, 97, 107, 101, 114]
}

/// The canonical label of a speaker identity: `"speaker" + index` for an
/// unassigned cluster, the resolved `id` (never the display `label`) for an
/// assigned one.
pub open spec fn spec_label(s: SpeakerIdentity) -> Seq<u8> {
    match s {
        SpeakerIdentity::Unassigned { index } => speaker_prefix() + dec_rep(index as nat),
        SpeakerIdentity::Assigned { id, label } => id@,
    }
}

/// The label an optional speaker identity resolves to.
pub open spec fn spec_speaker_ref(s: Option<SpeakerIdentity>) -> Option<Seq<u8>> {
    match s {
        Some(sp) => Some(spec_label(sp)),
        None => None,
    }
}

/// The words one segment contributes to the transcription output.
pub open spec fn seg_words(seg: Segment) -> Seq<WordV> {
    seg.words@.map_values(
        |sw: SegmentWord|
            WordV {
                text: sw.text@,
                start_ms: seg.start_ms as int,
                end_ms: seg.end_ms as int,
                confidence_milli: sw.confidence_milli as int,
                speaker: spec_speaker_ref(seg.speaker),
            },
    )
}

/// The diarization records one segment contributes: one if it carries a
/// speaker identity, none otherwise.
pub open spec fn seg_diar(seg: Segment) -> Seq<DiarV> {
    match seg.speaker {
        Some(sp) => seq![
            DiarV {
                start_ms: seg.start_ms as int,
                end_ms: seg.end_ms as int,
                speaker_label: spec_label(sp),
            },
        ],
        None => Seq::empty(),
    }
}

/// The whole transcription output of a segment sequence, in order.
pub open spec fn words_of(segs: Seq<Segment>) -> Seq<WordV>
    decreases segs.len(),
{
    if segs.len() == 0 {
        Seq::empty()
    } else {
        words_of(segs.drop_last()) + seg_words(segs.last())
    }
}

/// The whole diarization output of a segment sequence, in order.
pub open spec fn diar_of(segs: Seq<Segment>) -> Seq<DiarV>
    decreases segs.len(),
{
    if segs.len() == 0 {
        Seq::empty()
    } else {
        diar_of(segs.drop_last()) + seg_diar(segs.last())
    }
}

/// Byte-for-byte copy of a byte string.
pub fn clone_bytes(v: &Vec<u8>) -> (r: Vec<u8>)
    ensures
        r@ == v@,
{
    let mut r: Vec<u8> = Vec::new();
    let mut i: usize = 0;
    while i < v.len()
        invariant
            i <= v@.len(),
            r@ == v@.take(i as int),
        decreases v@.len() - i,
    {
        let b = v[i];
        proof {
            assert(v@.take(i + 1) =~= v@.take(i as int).push(b));
        }
        r.push(b);
        i = i + 1;
    }
    proof {
        assert(v@.take(v@.len() as int) =~= v@);
    }
    r
}

/// Renders the canonical label of a speaker identity.
pub fn speaker_label(s: &SpeakerIdentity) -> (r: Vec<u8>)
    ensures
        r@ == spec_label(*s),
{
    match s {
        SpeakerIdentity::Unassigned { index } => {
            let mut r: Vec<u8> = Vec::new();
            r.push(115); r.push(112); r.push(101); r.push(97); r.push(107);
            r.push(101); r.push(114);
            proof {
                assert(r@ =~= speaker_prefix());
            }
            crate::codec::push_dec(&mut r, *index as u64);
            r
        },
        SpeakerIdentity::Assigned { id, label } => clone_bytes(id),
    }
}

/// Resolves an optional speaker identity to an optional label.
pub fn speaker_ref(s: &Option<SpeakerIdentity>) -> (r: Option<Vec<u8>>)
    ensures
        match r {
            Some(ref l) => spec_speaker_ref(*s) == Some(l@),
            None => spec_speaker_ref(*s) is None,
        },
{
    match s {
        Some(sp) => Some(speaker_label(sp)),
        None => None,
    }
}

/// Copies an optional byte string.
pub fn clone_opt_bytes(v: &Option<Vec<u8>>) -> (r: Option<Vec<u8>>)
    ensures
        match (v, &r) {
            (Some(a), Some(b)) => a@ == b@,
            (None, None) => true,
            _ => false,
        },
{
    match v {
        Some(a) => Some(clone_bytes(a)),
        None => None,
    }
}

/// Normalizes backend segments into the canonical word sequence and the
/// canonical diarization sequence, preserving order.
pub fn normalize(segments: &Vec<Segment>) -> (r: (Vec<Word>, Vec<DiarizationSegment>))
    ensures
        word_views(r.0@) == words_of(segments@),
        diar_views(r.1@) == diar_of(segments@),
{
    let mut words: Vec<Word> = Vec::new();
    let mut diars: Vec<DiarizationSegment> = Vec::new();
    let mut i: usize = 0;
    proof {
        assert(word_views(words@) =~= words_of(segments@.take(0)));
        assert(diar_views(diars@) =~= diar_of(segments@.take(0)));
    }
    while i < segments.len()
        invariant
            i <= segments@.len(),
            word_views(words@) == words_of(segments@.take(i as int)),
            diar_views(diars@) == diar_of(segments@.take(i as int)),
        decreases segments@.len() - i,
    {
        let seg = &segments[i];
        let spk = speaker_ref(&seg.speaker);
        let mut j: usize = 0;
        proof {
            assert(word_views(words@) + seg_words(*seg).take(0) =~= word_views(words@));
        }
        let ghost words_pre = word_views(words@);
        while j < seg.words.len()
            invariant
                j <= seg.words@.len(),
                word_views(words@) == words_pre + seg_words(*seg).take(j as int),
                match spk {
                    Some(ref l) => spec_speaker_ref(seg.speaker) == Some(l@),
                    None => spec_speaker_ref(seg.speaker) is None,
                },
                seg == &segments[i as int],
                i < segments@.len(),
            decreases seg.words@.len() - j,
        {
            let sw = &seg.words[j];
            let w = Word {
                text: clone_bytes(&sw.text),
                start_ms: seg.start_ms,
                end_ms: seg.end_ms,
                confidence_milli: sw.confidence_milli,
                speaker: clone_opt_bytes(&spk),
            };
            proof {
                assert(seg_words(*seg)[j as int] == w@);
                assert(seg_words(*seg).take(j + 1) =~= seg_words(*seg).take(j as int).push(w@));
                assert(word_views(words@.push(w)) =~= word_views(words@).push(w@));
            }
            words.push(w);
            j = j + 1;
        }
        proof {
            assert(seg_words(*seg).take(seg.words@.len() as int) =~= seg_words(*seg));
        }
        match &seg.speaker {
            Some(sp) => {
                let d = DiarizationSegment {
                    start_ms: seg.start_ms,
                    end_ms: seg.end_ms,
                    speaker_label: speaker_label(sp),
                };
                proof {
                    assert(seg_diar(*seg) =~= seq![d@]);
                    assert(diar_views(diars@.push(d)) =~= diar_views(diars@).push(d@));
                }
                diars.push(d);
            },
            None => {
                proof {
                    assert(seg_diar(*seg) =~= Seq::<DiarV>::empty());
                }
            },
        }
        proof {
            assert(segments@.take(i + 1).drop_last() =~= segments@.take(i as int));
            assert(segments@.take(i + 1).last() == segments@[i as int]);
            assert(word_views(words@) =~= words_of(segments@.take(i + 1)));
            assert(diar_views(diars@) =~= diar_of(segments@.take(i + 1)));
        }
        i = i + 1;
    }
    proof {
        assert(segments@.take(segments@.len() as int) =~= segments@);
    }
    (words, diars)
}

/// Segments in ascending order of start time.
pub open spec fn segs_sorted(segs: Seq<Segment>) -> bool {
    forall|k: int| 0 <= k && k + 1 < segs.len() ==> (#[trigger] segs[k]).start_ms <= segs[k + 1].start_ms
}

/// Words in ascending order of start time.
pub open spec fn words_sorted(ws: Seq<WordV>) -> bool {
    forall|k: int| 0 <= k && k + 1 < ws.len() ==> (#[trigger] ws[k]).start_ms <= ws[k + 1].start_ms
}

/// Diarization records in ascending order of start time.
pub open spec fn diars_sorted(ds: Seq<DiarV>) -> bool {
    forall|k: int| 0 <= k && k + 1 < ds.len() ==> (#[trigger] ds[k]).start_ms <= ds[k + 1].start_ms
}

/// Checks that a backend's segments are in ascending order of start time.
#[verifier::rlimit(100)]
pub fn segments_sorted(segs: &Vec<Segment>) -> (r: bool)
    ensures
        r == segs_sorted(segs@),
{
    let mut k: usize = 1;
    if segs.len() == 0 {
        return true;
    }
    while k < segs.len()
        invariant
            1 <= k <= segs@.len(),
            forall|t: int| 0 <= t && t + 1 < k ==> (#[trigger] segs@[t]).start_ms <= segs@[t
                + 1].start_ms,
        decreases segs@.len() - k,
    {
        if segs[k - 1].start_ms > segs[k].start_ms {
            assert(!segs_sorted(segs@));
            return false;
        }
        k = k + 1;
    }
    true
}

pub proof fn lemma_sorted_pair(segs: Seq<Segment>, i: int, j: int)
    requires
        segs_sorted(segs),
        0 <= i <= j < segs.len(),
    ensures
        segs[i].start_ms <= segs[j].start_ms,
    decreases j - i,
{
    if i < j {
        lemma_sorted_pair(segs, i, j - 1);
    }
}

pub proof fn lemma_words_of_last_bound(segs: Seq<Segment>, b: int)
    requires
        forall|k: int| 0 <= k < segs.len() ==> (#[trigger] segs[k]).start_ms <= b,
        words_of(segs).len() > 0,
    ensures
        words_of(segs).last().start_ms <= b,
    decreases segs.len(),
{
    let pre = segs.drop_last();
    let blk = seg_words(segs.last());
    if blk.len() > 0 {
        assert(words_of(segs).last() == blk.last());
        assert(segs.last() == segs[segs.len() - 1]);
    } else {
        assert(words_of(segs).last() == words_of(pre).last());
        assert forall|k: int| 0 <= k < pre.len() implies (#[trigger] pre[k]).start_ms <= b by {
            assert(pre[k] == segs.subrange(0, segs.len() - 1)[k]);
        }
        lemma_words_of_last_bound(pre, b);
    }
}

pub proof fn lemma_diar_of_last_bound(segs: Seq<Segment>, b: int)
    requires
        forall|k: int| 0 <= k < segs.len() ==> (#[trigger] segs[k]).start_ms <= b,
        diar_of(segs).len() > 0,
    ensures
        diar_of(segs).last().start_ms <= b,
    decreases segs.len(),
{
    let pre = segs.drop_last();
    let blk = seg_diar(segs.last());
    if blk.len() > 0 {
        assert(diar_of(segs).last() == blk.last());
        assert(segs.last() == segs[segs.len() - 1]);
    } else {
        assert(diar_of(segs).last() == diar_of(pre).last());
        assert forall|k: int| 0 <= k < pre.len() implies (#[trigger] pre[k]).start_ms <= b by {
            assert(pre[k] == segs.subrange(0, segs.len() - 1)[k]);
        }
        lemma_diar_of_last_bound(pre, b);
    }
}

pub proof fn lemma_words_sorted_concat(a: Seq<WordV>, b: Seq<WordV>)
    requires
        words_sorted(a),
        words_sorted(b),
        a.len() > 0 && b.len() > 0 ==> a.last().start_ms <= b[0].start_ms,
    ensures
        words_sorted(a + b),
{
    assert forall|k: int| 0 <= k && k + 1 < (a + b).len() implies (#[trigger] (a + b)[k]).start_ms <= (a
        + b)[k + 1].start_ms by {
        if k + 1 < a.len() {
            assert((a + b)[k] == a[k]);
            assert((a + b)[k + 1] == a[k + 1]);
        } else if k + 1 == a.len() {
            assert((a + b)[k] == a.last());
            assert((a + b)[k + 1] == b[0]);
        } else {
            assert((a + b)[k] == b[k - a.len()]);
            assert((a + b)[k + 1] == b[k + 1 - a.len()]);
        }
    }
}

pub proof fn lemma_diars_sorted_concat(a: Seq<DiarV>, b: Seq<DiarV>)
    requires
        diars_sorted(a),
        diars_sorted(b),
        a.len() > 0 && b.len() > 0 ==> a.last().start_ms <= b[0].start_ms,
    ensures
        diars_sorted(a + b),
{
    assert forall|k: int| 0 <= k && k + 1 < (a + b).len() implies (#[trigger] (a + b)[k]).start_ms <= (a
        + b)[k + 1].start_ms by {
        if k + 1 < a.len() {
            assert((a + b)[k] == a[k]);
            assert((a + b)[k + 1] == a[k + 1]);
        } else if k + 1 == a.len() {
            assert((a + b)[k] == a.last());
            assert((a + b)[k + 1] == b[0]);
        } else {
            assert((a + b)[k] == b[k - a.len()]);
            assert((a + b)[k + 1] == b[k + 1 - a.len()]);
        }
    }
}

pub proof fn lemma_drop_last_sorted(segs: Seq<Segment>)
    requires
        segs_sorted(segs),
        segs.len() > 0,
    ensures
        segs_sorted(segs.drop_last()),
{
    let pre = segs.drop_last();
    assert forall|k: int| 0 <= k && k + 1 < pre.len() implies (#[trigger] pre[k]).start_ms <= pre[k
        + 1].start_ms by {
        assert(pre[k] == segs.subrange(0, segs.len() - 1)[k]);
        assert(pre[k + 1] == segs.subrange(0, segs.len() - 1)[k + 1]);
    }
}

pub proof fn lemma_words_of_sorted(segs: Seq<Segment>)
    requires
        segs_sorted(segs),
    ensures
        words_sorted(words_of(segs)),
    decreases segs.len(),
{
    if segs.len() > 0 {
        let pre = segs.drop_last();
        let blk = seg_words(segs.last());
        lemma_drop_last_sorted(segs);
        lemma_words_of_sorted(pre);
        let b = segs.last().start_ms as int;
        assert forall|k: int| 0 <= k && k + 1 < blk.len() implies (#[trigger] blk[k]).start_ms <= blk[k
            + 1].start_ms by {
            assert(blk[k].start_ms == segs.last().start_ms as int);
            assert(blk[k + 1].start_ms == segs.last().start_ms as int);
        }
        if words_of(pre).len() > 0 && blk.len() > 0 {
            assert forall|k: int| 0 <= k < pre.len() implies (#[trigger] pre[k]).start_ms
                <= b by {
                assert(pre[k] == segs.subrange(0, segs.len() - 1)[k]);
                lemma_sorted_pair(segs, k, segs.len() - 1);
            }
            lemma_words_of_last_bound(pre, b);
            assert(blk[0].start_ms == b);
        }
        lemma_words_sorted_concat(words_of(pre), blk);
    }
}

pub proof fn lemma_diar_of_sorted(segs: Seq<Segment>)
    requires
        segs_sorted(segs),
    ensures
        diars_sorted(diar_of(segs)),
    decreases segs.len(),
{
    if segs.len() > 0 {
        let pre = segs.drop_last();
        let blk = seg_diar(segs.last());
        lemma_drop_last_sorted(segs);
        lemma_diar_of_sorted(pre);
        let b = segs.last().start_ms as int;
        assert(diars_sorted(blk));
        if diar_of(pre).len() > 0 && blk.len() > 0 {
            assert forall|k: int| 0 <= k < pre.len() implies (#[trigger] pre[k]).start_ms
                <= b by {
                assert(pre[k] == segs.subrange(0, segs.len() - 1)[k]);
                lemma_sorted_pair(segs, k, segs.len() - 1);
            }
            lemma_diar_of_last_bound(pre, b);
            assert(blk[0].start_ms == b);
        }
        lemma_diars_sorted_concat(diar_of(pre), blk);
    }
}

/// Order preservation: for segments in ascending start order, both
/// normalizer outputs are in ascending start order as well; the normalizer
/// never re-sorts what a backend hands it.
pub proof fn lemma_normalize_preserves_order(segs: Seq<Segment>)
    requires
        segs_sorted(segs),
    ensures
        words_sorted(words_of(segs)),
        diars_sorted(diar_of(segs)),
{
    lemma_words_of_sorted(segs);
    lemma_diar_of_sorted(segs);
}

/// Label mapping: a segment whose speaker is an unassigned cluster `N`
/// yields exactly one diarization record labeled `"speaker" + N`; one whose
/// speaker is an assigned identity yields one record labeled with its `id`,
/// never its display `label`.
pub proof fn lemma_label_mapping(seg: Segment)
    ensures
        seg.speaker matches Some(sp) ==> seg_diar(seg).len() == 1 && seg_diar(seg)[0]
            == (DiarV {
            start_ms: seg.start_ms as int,
            end_ms: seg.end_ms as int,
            speaker_label: spec_label(sp),
        }),
        (seg.speaker matches Some(SpeakerIdentity::Unassigned { index }) ==> seg_diar(
            seg,
        )[0].speaker_label == speaker_prefix() + dec_rep(index as nat)),
        (seg.speaker matches Some(SpeakerIdentity::Assigned { id, label }) ==> seg_diar(
            seg,
        )[0].speaker_label == id@),
        seg.speaker is None ==> seg_diar(seg).len() == 0,
{
}

} // verus!
