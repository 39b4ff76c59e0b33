//! Canonical data model for retranscription results.
//!
//! Time is measured in whole milliseconds from the start of the audio, and a
//! word's confidence in thousandths (0 = no confidence, 1000 = certain), so
//! that every field is a plain integer or a byte string. Text fields hold
//! UTF-8 bytes.

use vstd::prelude::*;

verus! {

/// Largest timestamp (in milliseconds) an artifact may carry: fifteen
/// decimal digits, far beyond any real recording.
pub const MAX_TIME_MS: u64 = 999_999_999_999_999;

/// Largest confidence value: thousandths of certainty.
pub const MAX_CONFIDENCE_MILLI: u32 = 1000;

/// A speaker identity as a backend reports it: either only a 0-based
/// cluster index discovered during diarization, or an identity resolved
/// against known speakers.
pub enum SpeakerIdentity {
    Unassigned { index: u32 },
    Assigned { id: Vec<u8>, label: Vec<u8> },
}

/// One word of a backend-native segment: its text and its confidence in
/// thousandths.
pub struct SegmentWord {
    pub text: Vec<u8>,
    pub confidence_milli: u32,
}

/// A backend-native time interval with its words and an optional speaker
/// identity, prior to normalization.
pub struct Segment {
    pub start_ms: u64,
    pub end_ms: u64,
    pub words: Vec<SegmentWord>,
    pub speaker: Option<SpeakerIdentity>,
}

/// One canonical transcription record: a word with the time bounds,
/// confidence and resolved speaker label inherited from its segment.
pub struct Word {
    pub text: Vec<u8>,
    pub start_ms: u64,
    pub end_ms: u64,
    pub confidence_milli: u32,
    pub speaker: Option<Vec<u8>>,
}

/// One canonical diarization record: a speaker-attributed interval.
pub struct DiarizationSegment {
    pub start_ms: u64,
    pub end_ms: u64,
    pub speaker_label: Vec<u8>,
}

/// Mathematical value of a `Word`.
pub ghost struct WordV {
    pub text: Seq<u8>,
    pub start_ms: int,
    pub end_ms: int,
    pub confidence_milli: int,
    pub speaker: Option<Seq<u8>>,
}

/// Mathematical value of a `DiarizationSegment`.
pub ghost struct DiarV {
    pub start_ms: int,
    pub end_ms: int,
    pub speaker_label: Seq<u8>,
}

impl View for Word {
    type V = WordV;

    open spec fn view(&self) -> WordV {
        WordV {
            text: self.text@,
            start_ms: self.start_ms as int,
            end_ms: self.end_ms as int,
            confidence_milli: self.confidence_milli as int,
            speaker: match self.speaker {
                Some(ref s) => Some(s@),
                None => None,
            },
        }
    }
}

impl View for DiarizationSegment {
    type V = DiarV;

    open spec fn view(&self) -> DiarV {
        DiarV {
            start_ms: self.start_ms as int,
            end_ms: self.end_ms as int,
            speaker_label: self.speaker_label@,
        }
    }
}

/// A word is well formed when its interval is ordered and every numeric
/// field fits the artifact format's range.
pub open spec fn wf_word(w: WordV) -> bool {
    &&& 0 <= w.start_ms <= w.end_ms <= MAX_TIME_MS
    &&& 0 <= w.confidence_milli <= MAX_CONFIDENCE_MILLI
}

/// A diarization record is well formed when its interval is ordered and in
/// range.
pub open spec fn wf_diar(d: DiarV) -> bool {
    0 <= d.start_ms <= d.end_ms <= MAX_TIME_MS
}

/// The session metadata the orchestrator reads: its identifier and the
/// language the backend should transcribe in.
pub struct Session {
    pub id: String,
    pub language: String,
}

/// Error taxonomy of the retranscription operation.
#[derive(Clone, Copy, PartialEq, Eq, Structural, Debug)]
pub enum ErrorKind {
    ValidationError,
    BackendInitError,
    BackendTranscriptionError,
    SerializationError,
    PersistenceError,
    SessionUpdateError,
}

/// The precise failure that moved the state machine to its terminal failed
/// state; each maps to one `ErrorKind`.
#[derive(Clone, Copy, PartialEq, Eq, Structural, Debug)]
pub enum FailureReason {
    AudioMissing,
    SessionUnknown,
    BackendInit,
    Transcription,
    Serialization,
    Persistence,
    SessionUpdate,
}

/// Classification of a failure reason into the public error taxonomy.
pub open spec fn spec_kind_of(r: FailureReason) -> ErrorKind {
    match r {
        FailureReason::AudioMissing => ErrorKind::ValidationError,
        FailureReason::SessionUnknown => ErrorKind::ValidationError,
        FailureReason::BackendInit => ErrorKind::BackendInitError,
        FailureReason::Transcription => ErrorKind::BackendTranscriptionError,
        FailureReason::Serialization => ErrorKind::SerializationError,
        FailureReason::Persistence => ErrorKind::PersistenceError,
        FailureReason::SessionUpdate => ErrorKind::SessionUpdateError,
    }
}

impl FailureReason {
    /// The error class this failure is surfaced as.
    pub fn kind(&self) -> (r: ErrorKind)
        ensures
            r == spec_kind_of(*self),
    {
        match self {
            FailureReason::AudioMissing => ErrorKind::ValidationError,
            FailureReason::SessionUnknown => ErrorKind::ValidationError,
            FailureReason::BackendInit => ErrorKind::BackendInitError,
            FailureReason::Transcription => ErrorKind::BackendTranscriptionError,
            FailureReason::Serialization => ErrorKind::SerializationError,
            FailureReason::Persistence => ErrorKind::PersistenceError,
            FailureReason::SessionUpdate => ErrorKind::SessionUpdateError,
        }
    }

    /// The message surfaced to the caller for this failure.
    pub fn message(&self) -> (r: &'static str)
        ensures
            *self == FailureReason::AudioMissing ==> r@ == "Audio file does not exist"@,
            *self == FailureReason::SessionUnknown ==> r@ == "Session does not exist"@,
            *self == FailureReason::BackendInit ==> r@
                == "Transcription backend could not be constructed"@,
            *self == FailureReason::Transcription ==> r@ == "Transcription failed"@,
            *self == FailureReason::Serialization ==> r@ == "Result could not be serialized"@,
            *self == FailureReason::Persistence ==> r@ == "Artifact could not be written"@,
            *self == FailureReason::SessionUpdate ==> r@
                == "Session record could not be updated"@,
    {
        match self {
            FailureReason::AudioMissing => "Audio file does not exist",
            FailureReason::SessionUnknown => "Session does not exist",
            FailureReason::BackendInit => "Transcription backend could not be constructed",
            FailureReason::Transcription => "Transcription failed",
            FailureReason::Serialization => "Result could not be serialized",
            FailureReason::Persistence => "Artifact could not be written",
            FailureReason::SessionUpdate => "Session record could not be updated",
        }
    }
}

} // verus!
