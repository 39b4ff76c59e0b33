use retranscribe::codec::{encode_diarization, encode_transcription};
use retranscribe::machine::{Action, Event, Machine, Phase};
use retranscribe::normalize::{normalize, speaker_label};
use retranscribe::types::{
    DiarizationSegment, ErrorKind, FailureReason, Segment, SegmentWord, Session, SpeakerIdentity,
    Word,
};
use retranscribe::writer::staging_path;

fn seg_word(text: &str, confidence_milli: u32) -> SegmentWord {
    SegmentWord { text: text.as_bytes().to_vec(), confidence_milli }
}

fn assigned(id: &str, label: &str) -> SpeakerIdentity {
    SpeakerIdentity::Assigned { id: id.as_bytes().to_vec(), label: label.as_bytes().to_vec() }
}

fn session(id: &str, language: &str) -> Session {
    Session { id: id.to_string(), language: language.to_string() }
}

#[test]
fn label_for_unassigned_indexes() {
    assert_eq!(speaker_label(&SpeakerIdentity::Unassigned { index: 0 }), b"speaker0".to_vec());
    assert_eq!(speaker_label(&SpeakerIdentity::Unassigned { index: 7 }), b"speaker7".to_vec());
    assert_eq!(speaker_label(&SpeakerIdentity::Unassigned { index: 10 }), b"speaker10".to_vec());
    assert_eq!(
        speaker_label(&SpeakerIdentity::Unassigned { index: 4294967295 }),
        b"speaker4294967295".to_vec()
    );
}

#[test]
fn label_for_assigned_is_id_never_label() {
    let lbl = speaker_label(&assigned("spk_1", "Alice"));
    assert_eq!(lbl, b"spk_1".to_vec());
    assert_ne!(lbl, b"Alice".to_vec());
}

#[test]
fn normalize_mixed_speakers() {
    // One unassigned cluster and one resolved identity: the diarization
    // labels are "speaker0" and "spk_1", and the display name is dropped.
    let segs = vec![
        Segment {
            start_ms: 0,
            end_ms: 1000,
            words: vec![seg_word("hello", 900)],
            speaker: Some(SpeakerIdentity::Unassigned { index: 0 }),
        },
        Segment {
            start_ms: 1000,
            end_ms: 2000,
            words: vec![seg_word("world", 800)],
            speaker: Some(assigned("spk_1", "Alice")),
        },
    ];
    let (words, diars) = normalize(&segs);
    assert_eq!(words.len(), 2);
    assert_eq!(diars.len(), 2);
    assert_eq!(diars[0].speaker_label, b"speaker0".to_vec());
    assert_eq!(diars[1].speaker_label, b"spk_1".to_vec());
    assert_ne!(diars[1].speaker_label, b"Alice".to_vec());
    assert_eq!(words[0].speaker, Some(b"speaker0".to_vec()));
    assert_eq!(words[1].speaker, Some(b"spk_1".to_vec()));
}

#[test]
fn normalize_expands_words_and_keeps_order() {
    let segs = vec![
        Segment {
            start_ms: 0,
            end_ms: 1500,
            words: vec![seg_word("a", 500), seg_word("b", 600)],
            speaker: None,
        },
        Segment {
            start_ms: 1500,
            end_ms: 3000,
            words: vec![seg_word("c", 700)],
            speaker: Some(assigned("spk_2", "Bob")),
        },
    ];
    let (words, diars) = normalize(&segs);
    assert_eq!(words.len(), 3);
    // Words inherit their segment's bounds and keep backend order.
    assert_eq!(words[0].text, b"a".to_vec());
    assert_eq!(words[0].start_ms, 0);
    assert_eq!(words[0].end_ms, 1500);
    assert_eq!(words[1].text, b"b".to_vec());
    assert_eq!(words[1].confidence_milli, 600);
    assert_eq!(words[2].text, b"c".to_vec());
    assert_eq!(words[2].start_ms, 1500);
    assert!(words.windows(2).all(|p| p[0].start_ms <= p[1].start_ms));
    // The speakerless segment is omitted from diarization but kept above.
    assert_eq!(diars.len(), 1);
    assert_eq!(diars[0].start_ms, 1500);
    assert_eq!(diars[0].speaker_label, b"spk_2".to_vec());
}

#[test]
fn retranscription_is_deterministic() {
    let make = || {
        vec![Segment {
            start_ms: 0,
            end_ms: 4200,
            words: vec![seg_word("one", 900), seg_word("two", 910)],
            speaker: Some(SpeakerIdentity::Unassigned { index: 1 }),
        }]
    };
    let (w1, d1) = normalize(&make());
    let (w2, d2) = normalize(&make());
    assert_eq!(encode_transcription(&w1), encode_transcription(&w2));
    assert_eq!(encode_diarization(&d1), encode_diarization(&d2));
}

#[test]
fn local_runs_twice_write_identical_artifacts() {
    // Drives the whole orchestration twice over identical backend output;
    // both runs ask for byte-identical artifact writes.
    let run = || {
        let m = Machine::new(true);
        let (m, _) = m.step(Event::AudioChecked { exists: true });
        let (m, _) = m.step(Event::SessionLoaded { session: Some(session("s1", "en")) });
        let (m, _) = m.step(Event::BackendConstructed { ok: true });
        let segs = vec![Segment {
            start_ms: 120,
            end_ms: 980,
            words: vec![seg_word("again", 640)],
            speaker: Some(SpeakerIdentity::Unassigned { index: 2 }),
        }];
        let (m, act) = m.step(Event::TranscriptionDone { segments: Some(segs) });
        let t = match act {
            Action::WriteTranscription { content } => content,
            _ => panic!("expected the transcription write"),
        };
        let (_, act) = m.step(Event::ArtifactWritten { ok: true });
        let d = match act {
            Action::WriteDiarization { content } => content,
            _ => panic!("expected the diarization write"),
        };
        (t, d)
    };
    let (t1, d1) = run();
    let (t2, d2) = run();
    assert_eq!(t1, t2);
    assert_eq!(d1, d2);
    assert_eq!(d1, br#"[{"start":120,"end":980,"speaker":"speaker2"}]"#.to_vec());
}

#[test]
fn error_kinds_cover_the_taxonomy() {
    assert_eq!(FailureReason::AudioMissing.kind(), ErrorKind::ValidationError);
    assert_eq!(FailureReason::SessionUnknown.kind(), ErrorKind::ValidationError);
    assert_eq!(FailureReason::BackendInit.kind(), ErrorKind::BackendInitError);
    assert_eq!(FailureReason::Transcription.kind(), ErrorKind::BackendTranscriptionError);
    assert_eq!(FailureReason::Serialization.kind(), ErrorKind::SerializationError);
    assert_eq!(FailureReason::Persistence.kind(), ErrorKind::PersistenceError);
    assert_eq!(FailureReason::SessionUpdate.kind(), ErrorKind::SessionUpdateError);
}

#[test]
fn missing_audio_is_a_validation_error() {
    // Scenario: the audio file is absent. The machine fails at once with a
    // validation error and never asks for a backend, a write or a store
    // update afterwards.
    let m = Machine::new(true);
    let (m, act) = m.step(Event::AudioChecked { exists: false });
    match &act {
        Action::Report { failure: Some(r) } => {
            assert_eq!(*r, FailureReason::AudioMissing);
            assert_eq!(r.kind(), ErrorKind::ValidationError);
            assert_eq!(r.message(), "Audio file does not exist");
        },
        other => panic!("expected a failure report, got {:?}", action_name(other)),
    }
    // Whatever events arrive later, the machine only reports the failure.
    let (m, act) = m.step(Event::SessionLoaded { session: Some(session("s1", "en")) });
    assert!(matches!(act, Action::Report { failure: Some(FailureReason::AudioMissing) }));
    let (_, act) = m.step(Event::ArtifactWritten { ok: true });
    assert!(matches!(act, Action::Report { failure: Some(FailureReason::AudioMissing) }));
}

#[test]
fn unknown_session_is_a_validation_error() {
    let m = Machine::new(false);
    let (m, _) = m.step(Event::AudioChecked { exists: true });
    let (m, act) = m.step(Event::SessionLoaded { session: None });
    assert!(matches!(act, Action::Report { failure: Some(FailureReason::SessionUnknown) }));
    assert!(matches!(m.phase, Phase::Failed { reason: FailureReason::SessionUnknown }));
    assert_eq!(FailureReason::SessionUnknown.kind(), ErrorKind::ValidationError);
}

#[test]
fn backend_construction_failure_is_fatal() {
    let m = Machine::new(true);
    let (m, _) = m.step(Event::AudioChecked { exists: true });
    let (m, _) = m.step(Event::SessionLoaded { session: Some(session("s1", "en")) });
    let (m, act) = m.step(Event::BackendConstructed { ok: false });
    assert!(matches!(act, Action::Report { failure: Some(FailureReason::BackendInit) }));
    assert!(matches!(m.phase, Phase::Failed { reason: FailureReason::BackendInit }));
}

#[test]
fn backend_failure_is_fatal() {
    let m = Machine::new(false);
    let (m, _) = m.step(Event::AudioChecked { exists: true });
    let (m, _) = m.step(Event::SessionLoaded { session: Some(session("s1", "en")) });
    let (m, _) = m.step(Event::BackendConstructed { ok: true });
    let (m, act) = m.step(Event::TranscriptionDone { segments: None });
    assert!(matches!(act, Action::Report { failure: Some(FailureReason::Transcription) }));
    assert!(matches!(m.phase, Phase::Failed { reason: FailureReason::Transcription }));
}

#[test]
fn unencodable_result_is_a_serialization_error() {
    let m = Machine::new(true);
    let (m, _) = m.step(Event::AudioChecked { exists: true });
    let (m, _) = m.step(Event::SessionLoaded { session: Some(session("s1", "en")) });
    let (m, _) = m.step(Event::BackendConstructed { ok: true });
    // A segment whose interval is inverted cannot be carried faithfully.
    let bad = vec![Segment { start_ms: 10, end_ms: 5, words: vec![], speaker: None }];
    let (m, act) = m.step(Event::TranscriptionDone { segments: Some(bad) });
    assert!(matches!(act, Action::Report { failure: Some(FailureReason::Serialization) }));
    assert!(matches!(m.phase, Phase::Failed { reason: FailureReason::Serialization }));
}

#[test]
fn cloud_run_writes_both_artifacts_then_updates_session() {
    // Scenario: the cloud backend returns three words spanning 0.0 to 4.2
    // seconds with one diarization interval labeled spk_1. The machine asks
    // for the transcription write, then the diarization write, then the
    // session update, and only then reports success.
    let m = Machine::new(false);
    let (m, act) = m.step(Event::AudioChecked { exists: true });
    assert!(matches!(act, Action::LoadSession));
    let (m, act) = m.step(Event::SessionLoaded { session: Some(session("s1", "en")) });
    match &act {
        Action::ConstructBackend { use_local, language } => {
            assert!(!use_local);
            assert_eq!(language, "en");
        },
        other => panic!("expected backend construction, got {:?}", action_name(other)),
    }
    let (m, act) = m.step(Event::BackendConstructed { ok: true });
    assert!(matches!(act, Action::RunTranscription { use_local: false }));
    let segs = vec![Segment {
        start_ms: 0,
        end_ms: 4200,
        words: vec![seg_word("good", 980), seg_word("morning", 970), seg_word("all", 960)],
        speaker: Some(assigned("spk_1", "Alice")),
    }];
    let (m, act) = m.step(Event::TranscriptionDone { segments: Some(segs) });
    let transcription = match act {
        Action::WriteTranscription { content } => content,
        other => panic!("expected the transcription write, got {:?}", action_name(&other)),
    };
    let expected_words: Vec<Word> = ["good", "morning", "all"]
        .iter()
        .zip([980u32, 970, 960])
        .map(|(t, c)| Word {
            text: t.as_bytes().to_vec(),
            start_ms: 0,
            end_ms: 4200,
            confidence_milli: c,
            speaker: Some(b"spk_1".to_vec()),
        })
        .collect();
    assert_eq!(transcription, encode_transcription(&expected_words));
    let (m, act) = m.step(Event::ArtifactWritten { ok: true });
    let diarization = match act {
        Action::WriteDiarization { content } => content,
        other => panic!("expected the diarization write, got {:?}", action_name(&other)),
    };
    let expected_diars = vec![DiarizationSegment {
        start_ms: 0,
        end_ms: 4200,
        speaker_label: b"spk_1".to_vec(),
    }];
    assert_eq!(diarization, encode_diarization(&expected_diars));
    assert_eq!(diarization, br#"[{"start":0,"end":4200,"speaker":"spk_1"}]"#.to_vec());
    let (m, act) = m.step(Event::ArtifactWritten { ok: true });
    assert!(matches!(act, Action::UpdateSession));
    let (m, act) = m.step(Event::SessionUpdated { ok: true });
    assert!(matches!(act, Action::Report { failure: None }));
    assert!(matches!(m.phase, Phase::Done));
}

#[test]
fn failed_diarization_write_leaves_machine_failed() {
    // The transcription artifact was already committed in full; a failure
    // on the second write is fatal, reported as a persistence error, and
    // the machine never asks to rewrite or undo anything.
    let m = Machine::new(true);
    let (m, _) = m.step(Event::AudioChecked { exists: true });
    let (m, _) = m.step(Event::SessionLoaded { session: Some(session("s1", "ko")) });
    let (m, _) = m.step(Event::BackendConstructed { ok: true });
    let segs = vec![Segment {
        start_ms: 0,
        end_ms: 900,
        words: vec![seg_word("ok", 500)],
        speaker: Some(SpeakerIdentity::Unassigned { index: 0 }),
    }];
    let (m, act) = m.step(Event::TranscriptionDone { segments: Some(segs) });
    assert!(matches!(act, Action::WriteTranscription { .. }));
    let (m, act) = m.step(Event::ArtifactWritten { ok: true });
    assert!(matches!(act, Action::WriteDiarization { .. }));
    let (m, act) = m.step(Event::ArtifactWritten { ok: false });
    assert!(matches!(act, Action::Report { failure: Some(FailureReason::Persistence) }));
    let (_, act) = m.step(Event::SessionUpdated { ok: true });
    assert!(matches!(act, Action::Report { failure: Some(FailureReason::Persistence) }));
}

#[test]
fn session_update_failure_is_reported() {
    let m = Machine::new(false);
    let (m, _) = m.step(Event::AudioChecked { exists: true });
    let (m, _) = m.step(Event::SessionLoaded { session: Some(session("s1", "en")) });
    let (m, _) = m.step(Event::BackendConstructed { ok: true });
    let segs = vec![Segment { start_ms: 0, end_ms: 1, words: vec![seg_word("x", 1)], speaker: None }];
    let (m, _) = m.step(Event::TranscriptionDone { segments: Some(segs) });
    let (m, _) = m.step(Event::ArtifactWritten { ok: true });
    let (m, _) = m.step(Event::ArtifactWritten { ok: true });
    let (m, act) = m.step(Event::SessionUpdated { ok: false });
    assert!(matches!(act, Action::Report { failure: Some(FailureReason::SessionUpdate) }));
    assert!(matches!(m.phase, Phase::Failed { reason: FailureReason::SessionUpdate }));
}

#[test]
fn backend_order_is_checkable() {
    let ordered = vec![
        Segment { start_ms: 0, end_ms: 10, words: vec![], speaker: None },
        Segment { start_ms: 10, end_ms: 20, words: vec![], speaker: None },
    ];
    assert!(retranscribe::normalize::segments_sorted(&ordered));
    let unordered = vec![
        Segment { start_ms: 10, end_ms: 20, words: vec![], speaker: None },
        Segment { start_ms: 0, end_ms: 10, words: vec![], speaker: None },
    ];
    assert!(!retranscribe::normalize::segments_sorted(&unordered));
    assert!(retranscribe::normalize::segments_sorted(&Vec::new()));
}

#[test]
fn event_out_of_phase_changes_nothing() {
    let m = Machine::new(false);
    let (m, act) = m.step(Event::ArtifactWritten { ok: true });
    assert!(matches!(act, Action::Ignore));
    assert!(matches!(m.phase, Phase::Validating));
    let (_, act) = m.step(Event::AudioChecked { exists: true });
    assert!(matches!(act, Action::LoadSession));
}

#[test]
fn staging_path_appends_tmp_suffix() {
    assert_eq!(staging_path(&b"transcription.json".to_vec()), b"transcription.json.tmp".to_vec());
}

#[test]
fn failure_messages() {
    assert_eq!(FailureReason::AudioMissing.message(), "Audio file does not exist");
    assert_eq!(FailureReason::SessionUnknown.message(), "Session does not exist");
}

fn action_name(a: &Action) -> &'static str {
    match a {
        Action::LoadSession => "LoadSession",
        Action::ConstructBackend { .. } => "ConstructBackend",
        Action::RunTranscription { .. } => "RunTranscription",
        Action::WriteTranscription { .. } => "WriteTranscription",
        Action::WriteDiarization { .. } => "WriteDiarization",
        Action::UpdateSession => "UpdateSession",
        Action::Report { .. } => "Report",
        Action::Ignore => "Ignore",
    }
}
