//! The configuration: how the file and the environment make up the settings that
//! are in force, and how settings go back into the file.

use vstd::prelude::*;
use vstd::string::*;

verus! {

/// The shortest pause that can end a phrase.
pub const MIN_SILENCE_MS: u64 = 500;

/// The longest pause that can end a phrase.
pub const MAX_SILENCE_MS: u64 = 5_000;

/// The pause that ends a phrase unless the file says otherwise.
pub const DEFAULT_SILENCE_MS: u64 = 1_500;

/// The language that is spoken.
#[derive(Clone, Copy, Debug, PartialEq, Eq, Structural)]
pub enum Language {
    English,
    Vietnamese,
}

impl Language {
    /// The ISO 639-1 code.
    pub open spec fn iso(self) -> Seq<char> {
        match self {
            Language::English => "en"@,
            Language::Vietnamese => "vi"@,
        }
    }

    /// The language of a code; English unless the code says otherwise.
    pub open spec fn of_iso(code: Option<Seq<char>>) -> Language {
        if code == Some("vi"@) {
            Language::Vietnamese
        } else {
            Language::English
        }
    }

    /// The ISO 639-1 code.
    pub fn code(self) -> (r: String)
        ensures
            r@ == self.iso(),
    {
        match self {
            Language::English => "en".to_owned(),
            Language::Vietnamese => "vi".to_owned(),
        }
    }
}

/// What the configuration file holds. Each entry may be missing.
#[derive(Clone, Debug)]
pub struct FileConfig {
    pub groq_api_key: Option<String>,
    pub model: Option<String>,
    /// "handsfree" or "toggle".
    pub mode: Option<String>,
    /// The pause that ends a phrase, in milliseconds.
    pub silence_ms: Option<u64>,
    /// An ISO 639-1 code.
    pub language: Option<String>,
}

/// The settings in force.
#[derive(Clone, Debug)]
pub struct Config {
    pub api_key: Option<String>,
    pub model: String,
    /// Hands-free, or else toggle.
    pub handsfree: bool,
    /// The pause that ends a phrase, in milliseconds.
    pub silence_ms: u64,
    pub language: Language,
}

/// The text of an entry.
pub open spec fn entry(text: Option<String>) -> Option<Seq<char>> {
    match text {
        Some(text) => Some(text@),
        None => None,
    }
}

/// A pause, moved into the range that is allowed.
pub open spec fn clamped(silence_ms: int) -> int {
    if silence_ms < MIN_SILENCE_MS {
        MIN_SILENCE_MS as int
    } else if silence_ms > MAX_SILENCE_MS {
        MAX_SILENCE_MS as int
    } else {
        silence_ms
    }
}

impl Config {
    /// The settings that a file and the key from the environment make up: what
    /// the file has, else the key from the environment and the defaults.
    pub open spec fn made_of(self, file: Option<FileConfig>, env_key: Option<Seq<char>>) -> bool {
        match file {
            Some(f) => {
                &&& entry(self.api_key) == if f.groq_api_key is Some {
                    entry(f.groq_api_key)
                } else {
                    env_key
                }
                &&& self.model@ == if f.model is Some {
                    f.model->0@
                } else {
                    default_model()
                }
                &&& self.handsfree == (entry(f.mode) != Some("toggle"@))
                &&& self.silence_ms == if f.silence_ms is Some {
                    clamped(f.silence_ms->0 as int)
                } else {
                    DEFAULT_SILENCE_MS as int
                }
                &&& self.language == Language::of_iso(entry(f.language))
            },
            None => {
                &&& entry(self.api_key) == env_key
                &&& self.model@ == default_model()
                &&& self.handsfree
                &&& self.silence_ms == DEFAULT_SILENCE_MS
                &&& self.language == Language::English
            },
        }
    }
}

/// The model that is used unless the file names one.
pub open spec fn default_model() -> Seq<char> {
    "whisper-large-v3-turbo"@
}

/// A pause, moved into the range that is allowed.
pub fn clamp_silence(silence_ms: u64) -> (r: u64)
    ensures
        r == clamped(silence_ms as int),
{
    if silence_ms < MIN_SILENCE_MS {
        MIN_SILENCE_MS
    } else if silence_ms > MAX_SILENCE_MS {
        MAX_SILENCE_MS
    } else {
        silence_ms
    }
}

/// The settings in force. `file` is what the configuration file holds, if there
/// is one and it could be read; `env_key` is the key from the environment.
pub fn load_config(file: Option<FileConfig>, env_key: Option<String>) -> (config: Config)
    ensures
        config.made_of(file, entry(env_key)),
{
    let model = "whisper-large-v3-turbo".to_owned();
    match file {
        Some(f) => Config {
            api_key: match f.groq_api_key {
                Some(key) => Some(key),
                None => env_key,
            },
            model: match f.model {
                Some(name) => name,
                None => model,
            },
            handsfree: match f.mode {
                Some(mode) => mode != "toggle".to_owned(),
                None => true,
            },
            silence_ms: match f.silence_ms {
                Some(silence_ms) => clamp_silence(silence_ms),
                None => DEFAULT_SILENCE_MS,
            },
            language: match f.language {
                Some(code) => if code == "vi".to_owned() {
                    Language::Vietnamese
                } else {
                    Language::English
                },
                None => Language::English,
            },
        },
        None => Config {
            api_key: env_key,
            model,
            handsfree: true,
            silence_ms: DEFAULT_SILENCE_MS,
            language: Language::English,
        },
    }
}

impl FileConfig {
    /// The file as it is after the settings were saved over `before`. Only the
    /// settings that can be edited change.
    pub open spec fn saved_over(
        self,
        before: Option<FileConfig>,
        api_key: Seq<char>,
        mode: Seq<char>,
        silence_ms: u64,
        language: Language,
    ) -> bool {
        &&& entry(self.groq_api_key) == Some(api_key)
        &&& entry(self.model) == match before {
            Some(f) => entry(f.model),
            None => None,
        }
        &&& entry(self.mode) == Some(mode)
        &&& self.silence_ms == Some(clamped(silence_ms as int) as u64)
        &&& entry(self.language) == Some(language.iso())
    }
}

/// What is to be written to the configuration file when settings are saved.
/// `before` is what it holds now.
pub fn save_config(
    before: Option<FileConfig>,
    api_key: &str,
    mode: &str,
    silence_ms: u64,
    language: Language,
) -> (file: FileConfig)
    ensures
        file.saved_over(before, api_key@, mode@, silence_ms, language),
{
    FileConfig {
        groq_api_key: Some(api_key.to_owned()),
        model: match before {
            Some(f) => f.model,
            None => None,
        },
        mode: Some(mode.to_owned()),
        silence_ms: Some(clamp_silence(silence_ms)),
        language: Some(language.code()),
    }
}

/// What was saved is what is loaded: the key, the mode, the pause moved into its
/// range and the language, and the model as it was before.
pub proof fn saved_settings_load(
    before: Option<FileConfig>,
    api_key: Seq<char>,
    mode: Seq<char>,
    silence_ms: u64,
    language: Language,
    file: FileConfig,
    env_key: Option<Seq<char>>,
    config: Config,
    earlier: Config,
)
    requires
        file.saved_over(before, api_key, mode, silence_ms, language),
        config.made_of(Some(file), env_key),
        earlier.made_of(before, env_key),
    ensures
        entry(config.api_key) == Some(api_key),
        config.handsfree == (mode != "toggle"@),
        config.silence_ms == clamped(silence_ms as int),
        config.language == language,
        config.model@ == earlier.model@,
{
    reveal_strlit("en");
    reveal_strlit("vi");
    assert("en"@[0] != "vi"@[0]);
}

/// What the file says is in force: its key, whatever the environment has, its model, its
/// mode, its language, and its pause if that is between half a second and five seconds.
pub proof fn the_file_is_in_force(file: FileConfig, env_key: Option<Seq<char>>, config: Config)
    requires
        config.made_of(Some(file), env_key),
    ensures
        file.groq_api_key is Some ==> config.api_key is Some && config.api_key->0@
            == file.groq_api_key->0@,
        file.model is Some ==> config.model@ == file.model->0@,
        file.mode is Some && file.mode->0@ == "toggle"@ ==> !config.handsfree,
        file.mode is Some && file.mode->0@ != "toggle"@ ==> config.handsfree,
        file.silence_ms is Some && 500 <= file.silence_ms->0 <= 5_000 ==> config.silence_ms
            == file.silence_ms->0,
        file.silence_ms is Some && file.silence_ms->0 < 500 ==> config.silence_ms == 500,
        file.silence_ms is Some && file.silence_ms->0 > 5_000 ==> config.silence_ms == 5_000,
        file.language is Some && file.language->0@ == "vi"@ ==> config.language
            == Language::Vietnamese,
        file.language is Some && file.language->0@ != "vi"@ ==> config.language
            == Language::English,
{
}

/// What the file does not say is as if there were no file: the key is that from the
/// environment, if there is one there, the model is the default one, the session is
/// hands-free, the pause lasts one and a half seconds, and the language is English.
pub proof fn the_rest_is_by_default(
    file: Option<FileConfig>,
    env_key: Option<Seq<char>>,
    config: Config,
)
    requires
        config.made_of(file, env_key),
    ensures
        file is None || file->0.groq_api_key is None ==> entry(config.api_key) == env_key,
        file is None || file->0.model is None ==> config.model@ == "whisper-large-v3-turbo"@,
        file is None || file->0.mode is None ==> config.handsfree,
        file is None || file->0.silence_ms is None ==> config.silence_ms == 1_500,
        file is None || file->0.language is None ==> config.language == Language::English,
{
}

/// A pause is moved by no more than it must be: one from half a second to five seconds
/// stays as it is, and any other becomes the one of these two that is nearest to it.
pub proof fn pauses_are_moved_no_more_than_needed(silence_ms: int)
    ensures
        500 <= clamped(silence_ms) <= 5_000,
        500 <= silence_ms <= 5_000 ==> clamped(silence_ms) == silence_ms,
        silence_ms < 500 ==> clamped(silence_ms) == 500,
        silence_ms > 5_000 ==> clamped(silence_ms) == 5_000,
{
}

/// Languages are told apart by their codes.
pub proof fn codes_tell_languages(language: Language)
    ensures
        Language::of_iso(Some(language.iso())) == language,
{
    reveal_strlit("en");
    reveal_strlit("vi");
    assert("en"@[0] != "vi"@[0]);
}

/// The pause is always in its range.
pub proof fn silence_is_in_range(
    file: Option<FileConfig>,
    env_key: Option<Seq<char>>,
    config: Config,
)
    requires
        config.made_of(file, env_key),
    ensures
        MIN_SILENCE_MS <= config.silence_ms <= MAX_SILENCE_MS,
{
}

} // verus!
