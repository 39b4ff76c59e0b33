use retranscribe::codec::{
    encode_diarization, encode_transcription, parse_diarization, parse_transcription,
};
use retranscribe::types::{DiarizationSegment, Word};

fn word(
    text: &str,
    start_ms: u64,
    end_ms: u64,
    confidence_milli: u32,
    speaker: Option<&str>,
) -> Word {
    Word {
        text: text.as_bytes().to_vec(),
        start_ms,
        end_ms,
        confidence_milli,
        speaker: speaker.map(|s| s.as_bytes().to_vec()),
    }
}

fn diar(start_ms: u64, end_ms: u64, label: &str) -> DiarizationSegment {
    DiarizationSegment {
        start_ms,
        end_ms,
        speaker_label: label.as_bytes().to_vec(),
    }
}

#[test]
fn encode_one_word_exact() {
    let words = vec![word("hi", 0, 1000, 950, None)];
    let out = encode_transcription(&words);
    assert_eq!(
        out,
        br#"[{"text":"hi","start":0,"end":1000,"confidence":950,"speaker":null}]"#.to_vec()
    );
}

#[test]
fn encode_word_with_speaker_exact() {
    let words = vec![word("ok", 4200, 5000, 1000, Some("spk_1"))];
    let out = encode_transcription(&words);
    assert_eq!(
        out,
        br#"[{"text":"ok","start":4200,"end":5000,"confidence":1000,"speaker":"spk_1"}]"#.to_vec()
    );
}

#[test]
fn encode_empty_arrays_exact() {
    let out = encode_transcription(&Vec::new());
    assert_eq!(out, b"[]".to_vec());
    let out = encode_diarization(&Vec::new());
    assert_eq!(out, b"[]".to_vec());
}

#[test]
fn encode_one_diar_exact() {
    let ds = vec![diar(0, 4200, "spk_1")];
    let out = encode_diarization(&ds);
    assert_eq!(out, br#"[{"start":0,"end":4200,"speaker":"spk_1"}]"#.to_vec());
}

#[test]
fn words_round_trip_concrete() {
    let words = vec![
        word("he said \"no\"", 0, 500, 900, None),
        word("back\\slash", 500, 900, 10, Some("speaker0")),
        word("", 900, 999_999_999_999_999, 0, Some("with \"quote\"")),
    ];
    let bytes = encode_transcription(&words);
    let parsed = parse_transcription(&bytes).expect("round trip must parse");
    assert_eq!(parsed.len(), 3);
    assert_eq!(parsed[0].text, b"he said \"no\"".to_vec());
    assert_eq!(parsed[0].speaker, None);
    assert_eq!(parsed[1].text, b"back\\slash".to_vec());
    assert_eq!(parsed[1].speaker, Some(b"speaker0".to_vec()));
    assert_eq!(parsed[2].start_ms, 900);
    assert_eq!(parsed[2].end_ms, 999_999_999_999_999);
    assert_eq!(parsed[2].speaker, Some(b"with \"quote\"".to_vec()));
    let again = encode_transcription(&parsed);
    assert_eq!(again, bytes);
}

#[test]
fn diars_round_trip_concrete() {
    let ds = vec![diar(0, 4200, "spk_1"), diar(4200, 9000, "speaker0")];
    let bytes = encode_diarization(&ds);
    let parsed = parse_diarization(&bytes).expect("round trip must parse");
    assert_eq!(parsed.len(), 2);
    assert_eq!(parsed[0].start_ms, 0);
    assert_eq!(parsed[0].end_ms, 4200);
    assert_eq!(parsed[0].speaker_label, b"spk_1".to_vec());
    assert_eq!(parsed[1].speaker_label, b"speaker0".to_vec());
    let again = encode_diarization(&parsed);
    assert_eq!(again, bytes);
}

#[test]
fn parse_rejects_garbage() {
    assert!(parse_transcription(&b"".to_vec()).is_none());
    assert!(parse_transcription(&b"{}".to_vec()).is_none());
    assert!(parse_transcription(&b"[".to_vec()).is_none());
    assert!(parse_transcription(&b"[]x".to_vec()).is_none());
    assert!(parse_transcription(&b"[{\"text\":\"hi\"}]".to_vec()).is_none());
    assert!(parse_diarization(&b"nonsense".to_vec()).is_none());
    assert!(parse_diarization(&b"[{\"start\":1,\"end\":2,\"speaker\":\"a\"}".to_vec()).is_none());
}

#[test]
fn parse_rejects_truncated_artifact() {
    let ds = vec![diar(0, 4200, "spk_1")];
    let bytes = encode_diarization(&ds);
    for cut in 1..bytes.len() {
        let truncated = bytes[..cut].to_vec();
        assert!(parse_diarization(&truncated).is_none());
    }
}

#[test]
fn parse_rejects_oversized_numbers() {
    assert!(
        parse_diarization(&b"[{\"start\":1234567890123456,\"end\":2,\"speaker\":\"a\"}]".to_vec())
            .is_none()
    );
}

#[test]
fn parse_rejects_out_of_range_confidence() {
    let bytes =
        b"[{\"text\":\"hi\",\"start\":0,\"end\":1,\"confidence\":1001,\"speaker\":null}]".to_vec();
    assert!(parse_transcription(&bytes).is_none());
}

#[test]
fn parse_empty_arrays() {
    assert_eq!(parse_transcription(&b"[]".to_vec()).unwrap().len(), 0);
    assert_eq!(parse_diarization(&b"[]".to_vec()).unwrap().len(), 0);
}
