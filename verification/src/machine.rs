//! Retranscription orchestrator.
//!
//! The orchestration is a state machine over plain values: the driver
//! performs one side effect per step (a file check, a load, a backend
//! call, a write, a store update), feeds the outcome back as an `Event`,
//! and receives the next `Action` to perform. Normalization and
//! serialization happen inside the machine and are fully verified; every
//! failure moves the machine to its terminal failed phase, from which it
//! never leaves, and no step retries anything.

use vstd::prelude::*;
use crate::types::{FailureReason, Segment, Session, MAX_CONFIDENCE_MILLI, MAX_TIME_MS};
use crate::normalize::{diar_of, normalize, words_of};
use crate::codec::{enc_diars, enc_words, encode_diarization, encode_transcription};

verus! {

broadcast use vstd::seq::group_seq_axioms;

/// Where the orchestration stands. The persisting phase is split in two
/// because the artifacts are written in a fixed order: transcription first,
/// diarization second.
pub enum Phase {
    Validating,
    MetadataLoading,
    BackendConstructing,
    Transcribing,
    PersistingTranscription { diarization: Vec<u8> },
    PersistingDiarization,
    SessionUpdating,
    Done,
    Failed { reason: FailureReason },
}

/// The outcome of the side effect the driver was asked to perform.
pub enum Event {
    AudioChecked { exists: bool },
    SessionLoaded { session: Option<Session> },
    BackendConstructed { ok: bool },
    TranscriptionDone { segments: Option<Vec<Segment>> },
    ArtifactWritten { ok: bool },
    SessionUpdated { ok: bool },
}

/// The next side effect the driver must perform, or the final outcome.
pub enum Action {
    LoadSession,
    ConstructBackend { use_local: bool, language: String },
    RunTranscription { use_local: bool },
    WriteTranscription { content: Vec<u8> },
    WriteDiarization { content: Vec<u8> },
    UpdateSession,
    Report { failure: Option<FailureReason> },
    Ignore,
}

/// The orchestrator: the chosen backend is a caller-supplied flag fixed at
/// the start, not state that can change mid-run.
pub struct Machine {
    pub use_local: bool,
    pub phase: Phase,
}

/// A segment the artifact format can carry faithfully: interval ordered
/// and within range, confidences within range.
pub open spec fn seg_encodable(seg: Segment) -> bool {
    &&& seg.start_ms <= seg.end_ms <= MAX_TIME_MS
    &&& forall|j: int| 0 <= j < seg.words@.len() ==> (#[trigger] seg.words@[j]).confidence_milli
        <= MAX_CONFIDENCE_MILLI
}

pub open spec fn segs_encodable(segs: Seq<Segment>) -> bool {
    forall|k: int| 0 <= k < segs.len() ==> seg_encodable(#[trigger] segs[k])
}

/// Checks that every segment fits the artifact format.
pub fn segments_encodable(segs: &Vec<Segment>) -> (r: bool)
    ensures
        r == segs_encodable(segs@),
{
    let mut i: usize = 0;
    while i < segs.len()
        invariant
            i <= segs@.len(),
            forall|k: int| 0 <= k < i ==> seg_encodable(#[trigger] segs@[k]),
        decreases segs@.len() - i,
    {
        let seg = &segs[i];
        if !(seg.start_ms <= seg.end_ms && seg.end_ms <= MAX_TIME_MS) {
            assert(!seg_encodable(segs@[i as int]));
            return false;
        }
        let mut j: usize = 0;
        while j < seg.words.len()
            invariant
                j <= seg.words@.len(),
                seg == &segs[i as int],
                i < segs@.len(),
                forall|t: int| 0 <= t < j ==> (#[trigger] seg.words@[t]).confidence_milli
                    <= MAX_CONFIDENCE_MILLI,
            decreases seg.words@.len() - j,
        {
            if seg.words[j].confidence_milli > MAX_CONFIDENCE_MILLI {
                assert(!seg_encodable(segs@[i as int]));
                return false;
            }
            j = j + 1;
        }
        assert(seg_encodable(segs@[i as int]));
        i = i + 1;
    }
    true
}

/// Whether an event is the answer to what the phase is waiting for; the
/// two terminal phases absorb everything.
pub open spec fn event_fits(phase: Phase, ev: Event) -> bool {
    ||| phase is Validating && ev is AudioChecked
    ||| phase is MetadataLoading && ev is SessionLoaded
    ||| phase is BackendConstructing && ev is BackendConstructed
    ||| phase is Transcribing && ev is TranscriptionDone
    ||| phase is PersistingTranscription && ev is ArtifactWritten
    ||| phase is PersistingDiarization && ev is ArtifactWritten
    ||| phase is SessionUpdating && ev is SessionUpdated
    ||| phase is Done
    ||| phase is Failed
}

impl Machine {
    /// A fresh orchestration: the driver's first duty is to check that the
    /// session's audio artifact exists, and to feed the answer back.
    pub fn new(use_local: bool) -> (m: Machine)
        ensures
            m.use_local == use_local,
            m.phase is Validating,
    {
        Machine { use_local, phase: Phase::Validating }
    }

    /// One transition. Every clause below pins the successor state and the
    /// action for one phase/event pair; an event that does not belong to
    /// the current phase changes nothing. Once failed, the machine stays
    /// failed with the same reason and only ever asks the driver to report
    /// it: there is no retry.
    pub fn step(self, ev: Event) -> (r: (Machine, Action))
        ensures
            r.0.use_local == self.use_local,
            // Validation: a missing audio artifact is fatal before anything else.
            self.phase is Validating && (ev matches Event::AudioChecked { exists: true })
                ==> r.0.phase is MetadataLoading && r.1 is LoadSession,
            self.phase is Validating && (ev matches Event::AudioChecked { exists: false }) ==> (
            r.0.phase matches Phase::Failed { reason: FailureReason::AudioMissing }) && (
            r.1 matches Action::Report { failure: Some(FailureReason::AudioMissing) }),
            // Metadata: the session provides the language for the backend.
            self.phase is MetadataLoading ==> (ev matches Event::SessionLoaded {
                session: Some(sess),
            } ==> r.0.phase is BackendConstructing && (
            r.1 matches Action::ConstructBackend { use_local, language } && use_local
                == self.use_local && language@ == sess.language@)),
            self.phase is MetadataLoading && (ev matches Event::SessionLoaded { session: None })
                ==> (r.0.phase matches Phase::Failed { reason: FailureReason::SessionUnknown }) && (
            r.1 matches Action::Report { failure: Some(FailureReason::SessionUnknown) }),
            // Backend construction.
            self.phase is BackendConstructing && (ev matches Event::BackendConstructed {
                ok: true,
            }) ==> r.0.phase is Transcribing && (r.1 matches Action::RunTranscription { use_local }
                && use_local == self.use_local),
            self.phase is BackendConstructing && (ev matches Event::BackendConstructed {
                ok: false,
            }) ==> (r.0.phase matches Phase::Failed { reason: FailureReason::BackendInit }) && (
            r.1 matches Action::Report { failure: Some(FailureReason::BackendInit) }),
            // Transcription, normalization, serialization: the artifacts
            // the driver is asked to write are exactly the encodings of
            // the normalized backend output, transcription first.
            self.phase is Transcribing ==> (ev matches Event::TranscriptionDone {
                segments: Some(segs),
            } ==> if segs_encodable(segs@) {
                (r.0.phase matches Phase::PersistingTranscription { diarization } && diarization@
                    == enc_diars(diar_of(segs@))) && (r.1 matches Action::WriteTranscription {
                    content,
                } && content@ == enc_words(words_of(segs@)))
            } else {
                (r.0.phase matches Phase::Failed { reason: FailureReason::Serialization }) && (
                r.1 matches Action::Report { failure: Some(FailureReason::Serialization) })
            }),
            self.phase is Transcribing && (ev matches Event::TranscriptionDone { segments: None })
                ==> (r.0.phase matches Phase::Failed { reason: FailureReason::Transcription }) && (
            r.1 matches Action::Report { failure: Some(FailureReason::Transcription) }),
            // Persistence, in fixed order; a failed write is fatal and the
            // already-written transcription artifact is left as it is.
            self.phase matches Phase::PersistingTranscription { diarization } ==> ((
            ev matches Event::ArtifactWritten { ok: true }) ==> r.0.phase is PersistingDiarization
                && (r.1 matches Action::WriteDiarization { content } && content@ == diarization@)),
            self.phase is PersistingTranscription && (ev matches Event::ArtifactWritten {
                ok: false,
            }) ==> (r.0.phase matches Phase::Failed { reason: FailureReason::Persistence }) && (
            r.1 matches Action::Report { failure: Some(FailureReason::Persistence) }),
            self.phase is PersistingDiarization && (ev matches Event::ArtifactWritten { ok: true })
                ==> r.0.phase is SessionUpdating && r.1 is UpdateSession,
            self.phase is PersistingDiarization && (ev matches Event::ArtifactWritten {
                ok: false,
            }) ==> (r.0.phase matches Phase::Failed { reason: FailureReason::Persistence }) && (
            r.1 matches Action::Report { failure: Some(FailureReason::Persistence) }),
            // The store update is last: before it commits, the session
            // still points at the previous, still-valid artifacts.
            self.phase is SessionUpdating && (ev matches Event::SessionUpdated { ok: true })
                ==> r.0.phase is Done && (r.1 matches Action::Report { failure: None }),
            self.phase is SessionUpdating && (ev matches Event::SessionUpdated { ok: false }) ==> (
            r.0.phase matches Phase::Failed { reason: FailureReason::SessionUpdate }) && (
            r.1 matches Action::Report { failure: Some(FailureReason::SessionUpdate) }),
            // Terminal phases absorb every event.
            self.phase is Done ==> r.0.phase is Done && (r.1 matches Action::Report {
                failure: None,
            }),
            self.phase matches Phase::Failed { reason } ==> ((r.0.phase matches Phase::Failed {
                reason: r2,
            } && r2 == reason) && (r.1 matches Action::Report { failure: f } && f == Some(
            reason,
            ))),
            // An event that does not answer the current phase changes nothing.
            !event_fits(self.phase, ev) ==> r.0.phase == self.phase && r.1 is Ignore,
    {
        let use_local = self.use_local;
        match (self.phase, ev) {
            (Phase::Validating, Event::AudioChecked { exists }) => {
                if exists {
                    (
                        Machine { use_local, phase: Phase::MetadataLoading },
                        Action::LoadSession,
                    )
                } else {
                    Self::fail(use_local, FailureReason::AudioMissing)
                }
            },
            (Phase::MetadataLoading, Event::SessionLoaded { session }) => {
                match session {
                    Some(sess) => (
                        Machine { use_local, phase: Phase::BackendConstructing },
                        Action::ConstructBackend { use_local, language: sess.language },
                    ),
                    None => Self::fail(use_local, FailureReason::SessionUnknown),
                }
            },
            (Phase::BackendConstructing, Event::BackendConstructed { ok }) => {
                if ok {
                    (
                        Machine { use_local, phase: Phase::Transcribing },
                        Action::RunTranscription { use_local },
                    )
                } else {
                    Self::fail(use_local, FailureReason::BackendInit)
                }
            },
            (Phase::Transcribing, Event::TranscriptionDone { segments }) => {
                match segments {
                    Some(segs) => {
                        if segments_encodable(&segs) {
                            let (words, diars) = normalize(&segs);
                            let transcription = encode_transcription(&words);
                            let diarization = encode_diarization(&diars);
                            (
                                Machine {
                                    use_local,
                                    phase: Phase::PersistingTranscription { diarization },
                                },
                                Action::WriteTranscription { content: transcription },
                            )
                        } else {
                            Self::fail(use_local, FailureReason::Serialization)
                        }
                    },
                    None => Self::fail(use_local, FailureReason::Transcription),
                }
            },
            (Phase::PersistingTranscription { diarization }, Event::ArtifactWritten { ok }) => {
                if ok {
                    (
                        Machine { use_local, phase: Phase::PersistingDiarization },
                        Action::WriteDiarization { content: diarization },
                    )
                } else {
                    Self::fail(use_local, FailureReason::Persistence)
                }
            },
            (Phase::PersistingDiarization, Event::ArtifactWritten { ok }) => {
                if ok {
                    (
                        Machine { use_local, phase: Phase::SessionUpdating },
                        Action::UpdateSession,
                    )
                } else {
                    Self::fail(use_local, FailureReason::Persistence)
                }
            },
            (Phase::SessionUpdating, Event::SessionUpdated { ok }) => {
                if ok {
                    (
                        Machine { use_local, phase: Phase::Done },
                        Action::Report { failure: None },
                    )
                } else {
                    Self::fail(use_local, FailureReason::SessionUpdate)
                }
            },
            (Phase::Done, _) => (
                Machine { use_local, phase: Phase::Done },
                Action::Report { failure: None },
            ),
            (Phase::Failed { reason }, _) => (
                Machine { use_local, phase: Phase::Failed { reason } },
                Action::Report { failure: Some(reason) },
            ),
            (phase, _) => (Machine { use_local, phase }, Action::Ignore),
        }
    }

    fn fail(use_local: bool, reason: FailureReason) -> (r: (Machine, Action))
        ensures
            r.0.use_local == use_local,
            (r.0.phase matches Phase::Failed { reason: r2 } && r2 == reason),
            (r.1 matches Action::Report { failure: f } && f == Some(reason)),
    {
        (
            Machine { use_local, phase: Phase::Failed { reason } },
            Action::Report { failure: Some(reason) },
        )
    }
}

#[verifier::rlimit(100)]
pub proof fn lemma_words_of_wf(segs: Seq<Segment>)
    requires
        segs_encodable(segs),
    ensures
        forall|t: int| 0 <= t < words_of(segs).len() ==> crate::types::wf_word(
            #[trigger] words_of(segs)[t],
        ),
    decreases segs.len(),
{
    if segs.len() > 0 {
        let pre = segs.drop_last();
        assert forall|k: int| 0 <= k < pre.len() implies seg_encodable(#[trigger] pre[k]) by {
            assert(pre[k] == segs.subrange(0, segs.len() - 1)[k]);
        }
        lemma_words_of_wf(pre);
        assert(seg_encodable(segs[segs.len() - 1]));
        assert forall|t: int| 0 <= t < words_of(segs).len() implies crate::types::wf_word(
            #[trigger] words_of(segs)[t],
        ) by {
            let wpre = words_of(pre);
            if t < wpre.len() {
                assert(words_of(segs)[t] == wpre[t]);
            } else {
                let blk = crate::normalize::seg_words(segs.last());
                assert(words_of(segs)[t] == blk[t - wpre.len()]);
                assert(segs.last() == segs[segs.len() - 1]);
                assert(blk[t - wpre.len()].text == segs.last().words@[t - wpre.len()].text@);
            }
        }
    }
}

#[verifier::rlimit(100)]
pub proof fn lemma_diar_of_wf(segs: Seq<Segment>)
    requires
        segs_encodable(segs),
    ensures
        forall|t: int| 0 <= t < diar_of(segs).len() ==> crate::types::wf_diar(
            #[trigger] diar_of(segs)[t],
        ),
    decreases segs.len(),
{
    if segs.len() > 0 {
        let pre = segs.drop_last();
        assert forall|k: int| 0 <= k < pre.len() implies seg_encodable(#[trigger] pre[k]) by {
            assert(pre[k] == segs.subrange(0, segs.len() - 1)[k]);
        }
        lemma_diar_of_wf(pre);
        assert(seg_encodable(segs[segs.len() - 1]));
        assert forall|t: int| 0 <= t < diar_of(segs).len() implies crate::types::wf_diar(
            #[trigger] diar_of(segs)[t],
        ) by {
            let dpre = diar_of(pre);
            if t < dpre.len() {
                assert(diar_of(segs)[t] == dpre[t]);
            } else {
                let blk = crate::normalize::seg_diar(segs.last());
                assert(diar_of(segs)[t] == blk[t - dpre.len()]);
                assert(segs.last() == segs[segs.len() - 1]);
            }
        }
    }
}

/// What a completed run leaves on disk is recoverable: for every segment
/// sequence the machine accepts for persistence, parsing the transcription
/// artifact it writes yields the normalized word sequence, and parsing the
/// diarization artifact yields the normalized diarization sequence.
pub proof fn lemma_persisted_artifacts_recoverable(segs: Seq<Segment>)
    requires
        segs_encodable(segs),
    ensures
        crate::codec::parse_words(enc_words(words_of(segs))) == Some(words_of(segs)),
        crate::codec::parse_diars(enc_diars(diar_of(segs))) == Some(diar_of(segs)),
{
    lemma_words_of_wf(segs);
    lemma_diar_of_wf(segs);
    crate::codec::lemma_words_round_trip(words_of(segs));
    crate::codec::lemma_diars_round_trip(diar_of(segs));
}

/// Determinism downstream of the backend: two runs over identical segment
/// sequences produce byte-identical transcription and diarization
/// artifacts, so retranscribing twice with a deterministic backend writes
/// the same files twice.
pub proof fn lemma_artifacts_deterministic(s1: Seq<Segment>, s2: Seq<Segment>)
    requires
        s1 == s2,
    ensures
        enc_words(words_of(s1)) == enc_words(words_of(s2)),
        enc_diars(diar_of(s1)) == enc_diars(diar_of(s2)),
{
}

} // verus!
