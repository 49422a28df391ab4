use voicetyper::text::{is_white_space, trim};
use voicetyper::transcribe::{transcribe_bytes, transcript};

#[test]
fn white_space_is_that_of_unicode() {
    for c in '\0'..=char::MAX {
        assert_eq!(is_white_space(c), c.is_whitespace(), "{c:?}");
    }
}

#[test]
fn text_is_trimmed_at_both_ends() {
    for s in ["", " ", "a", " a b ", "\u{3000}ch\u{e0}o\n\r\n", "\t\u{85}\u{a0}x", "y\u{2028}"] {
        assert_eq!(trim(s), s.trim());
        assert_eq!(trim(&trim(s)), trim(s));
    }
}

#[test]
fn a_request_holds_the_file_and_the_fields() {
    let request = transcribe_bytes(vec![1, 2, 3], "gsk_key", "whisper-large-v3", "vi");
    assert_eq!(request.url, "https://api.groq.com/openai/v1/audio/transcriptions");
    assert_eq!(request.bearer, "gsk_key");
    assert_eq!(request.file_field, "file");
    assert_eq!(request.file_name, "audio.wav");
    assert_eq!(request.mime, "audio/wav");
    assert_eq!(request.audio, vec![1, 2, 3]);
    let fields: Vec<(&str, &str)> =
        request.fields.iter().map(|(k, v)| (k.as_str(), v.as_str())).collect();
    assert_eq!(
        fields,
        vec![
            ("model", "whisper-large-v3"),
            ("response_format", "text"),
            ("language", "vi"),
            ("temperature", "0"),
        ]
    );
}

#[test]
fn an_answer_is_a_transcript_without_white_space_around_it() {
    assert_eq!(transcript(200, "200 OK", " Hello there.\n"), Ok("Hello there.".to_string()));
    assert_eq!(transcript(299, "299", "x"), Ok("x".to_string()));
    assert_eq!(transcript(204, "204 No Content", ""), Ok(String::new()));
}

#[test]
fn an_answer_without_success_is_an_error() {
    for status in [100, 199, 300, 404, 500] {
        assert!(transcript(status, "reason", "body").is_err());
    }
    assert_eq!(
        transcript(401, "401 Unauthorized", " {\"error\":\"no\"} "),
        Err("Groq API 401 Unauthorized:  {\"error\":\"no\"} ".to_string())
    );
}
