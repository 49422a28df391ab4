//! Transcription by Groq's Whisper endpoint: what is posted, and what its answer
//! means.

use vstd::prelude::*;
use vstd::string::*;

use crate::text;

verus! {

/// A form that is posted to the endpoint: a file, and fields of text.
pub struct TranscriptionRequest {
    /// Where it is posted.
    pub url: String,
    /// The token that authorizes it.
    pub bearer: String,
    /// The field of the file.
    pub file_field: String,
    /// The name of the file.
    pub file_name: String,
    /// The media type of the file.
    pub mime: String,
    /// The bytes of the file.
    pub audio: Vec<u8>,
    /// The other fields, in order, each with its value.
    pub fields: Vec<(String, String)>,
}

impl TranscriptionRequest {
    /// The fields of text.
    pub open spec fn field_texts(self) -> Seq<(Seq<char>, Seq<char>)> {
        self.fields@.map_values(|f: (String, String)| (f.0@, f.1@))
    }

    /// The request asks for a transcript of `audio`.
    pub open spec fn asks(
        self,
        audio: Seq<u8>,
        api_key: Seq<char>,
        model: Seq<char>,
        language: Seq<char>,
    ) -> bool {
        &&& self.url@ == "https://api.groq.com/openai/v1/audio/transcriptions"@
        &&& self.bearer@ == api_key
        &&& self.file_field@ == "file"@
        &&& self.file_name@ == "audio.wav"@
        &&& self.mime@ == "audio/wav"@
        &&& self.audio@ == audio
        &&& self.field_texts() == seq![
            ("model"@, model),
            ("response_format"@, "text"@),
            ("language"@, language),
            ("temperature"@, "0"@),
        ]
    }
}

/// The request for a transcript of a WAV file. `language` is an ISO 639-1 code.
pub fn transcribe_bytes(audio: Vec<u8>, api_key: &str, model: &str, language: &str) -> (r:
    TranscriptionRequest)
    ensures
        r.asks(audio@, api_key@, model@, language@),
{
    let mut fields: Vec<(String, String)> = Vec::new();
    fields.push(("model".to_owned(), model.to_owned()));
    fields.push(("response_format".to_owned(), "text".to_owned()));
    fields.push(("language".to_owned(), language.to_owned()));
    fields.push(("temperature".to_owned(), "0".to_owned()));
    let request = TranscriptionRequest {
        url: "https://api.groq.com/openai/v1/audio/transcriptions".to_owned(),
        bearer: api_key.to_owned(),
        file_field: "file".to_owned(),
        file_name: "audio.wav".to_owned(),
        mime: "audio/wav".to_owned(),
        audio,
        fields,
    };
    assert(request.field_texts() =~= seq![
        ("model"@, model@),
        ("response_format"@, "text"@),
        ("language"@, language@),
        ("temperature"@, "0"@),
    ]);
    request
}

/// A status that stands for success.
pub open spec fn is_success(status: u16) -> bool {
    200 <= status < 300
}

/// The answer to a request: the transcript without the white space around it
/// if the status is one of success, else what the endpoint said. `reason` is the
/// status in words.
pub fn transcript(status: u16, reason: &str, body: &str) -> (r: Result<String, String>)
    ensures
        match r {
            Ok(transcript) => is_success(status) && transcript@ == text::trimmed(body@),
            Err(message) => !is_success(status) && message@ == "Groq API "@ + reason@ + ": "@
                + body@,
        },
{
    if 200 <= status && status < 300 {
        Ok(text::trim(body))
    } else {
        let mut message = "Groq API ".to_owned();
        message.append(reason);
        message.append(": ");
        message.append(body);
        Err(message)
    }
}

/// A request carries what it is given, whole and unchanged: the file byte by byte, the
/// key, the model and the language. It asks for plain text, at temperature 0.
pub proof fn requests_carry_what_they_are_given(
    request: TranscriptionRequest,
    audio: Seq<u8>,
    api_key: Seq<char>,
    model: Seq<char>,
    language: Seq<char>,
)
    requires
        request.asks(audio, api_key, model, language),
    ensures
        request.audio@ == audio,
        request.bearer@ == api_key,
        request.field_texts().len() == 4,
        request.field_texts().contains(("model"@, model)),
        request.field_texts().contains(("language"@, language)),
        request.field_texts().contains(("response_format"@, "text"@)),
        request.field_texts().contains(("temperature"@, "0"@)),
{
    let fields = request.field_texts();
    assert(fields[0] == ("model"@, model));
    assert(fields[1] == ("response_format"@, "text"@));
    assert(fields[2] == ("language"@, language));
    assert(fields[3] == ("temperature"@, "0"@));
}

/// The statuses of success are those from 200 to 299, and no others.
pub proof fn success_is_in_the_two_hundreds(status: u16)
    ensures
        is_success(status) <==> status / 100 == 2,
{
}

} // verus!
