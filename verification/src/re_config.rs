//! Static settings of the remote execution client, read from one section of a
//! configuration file: every setting is optional, and most have a default.

use vstd::prelude::*;
use vstd::string::StringExecFns;

verus! {

/// What `str::parse::<i32>` makes of a text: the number, or `None` where the text is
/// no decimal number of 32 bits.
pub uninterp spec fn parsed_i32(text: Seq<char>) -> Option<i32>;

/// Calls `str::parse::<i32>` of std on `text`. The result is a function of the text
/// alone, which the contract names; an error becomes `None`.
#[verifier::external_body]
fn parse_i32(text: &str) -> (r: Option<i32>)
    ensures
        r == parsed_i32(text@),
{
    text.parse::<i32>().ok()
}

/// What a text says as a truth value: `true` and `false` are the only two that say
/// anything.
pub open spec fn parsed_bool(text: Seq<char>) -> Option<bool> {
    if text == "true"@ {
        Some(true)
    } else if text == "false"@ {
        Some(false)
    } else {
        None
    }
}

/// Reads a text as a truth value.
pub fn parse_bool(text: &String) -> (r: Option<bool>)
    ensures
        r == parsed_bool(text@),
{
    let yes: String = String::from_str("true");
    let no: String = String::from_str("false");
    if *text == yes {
        Some(true)
    } else if *text == no {
        Some(false)
    } else {
        None
    }
}

/// The pairs of a section as mathematical values: names and raw values.
pub open spec fn section_view(entries: Seq<(String, String)>) -> Seq<(Seq<char>, Seq<char>)> {
    Seq::new(entries.len(), |i: int| (entries[i].0@, entries[i].1@))
}

/// Whether the section has a setting of the name `name`.
pub open spec fn has_setting(section: Seq<(Seq<char>, Seq<char>)>, name: Seq<char>) -> bool {
    exists|i: int| 0 <= i < section.len() && (#[trigger] section[i]).0 == name
}

/// Whether `i` is the first position of the section with a setting of the name `name`.
pub open spec fn is_first_setting(
    section: Seq<(Seq<char>, Seq<char>)>,
    name: Seq<char>,
    i: int,
) -> bool {
    &&& 0 <= i < section.len()
    &&& section[i].0 == name
    &&& forall|j: int| 0 <= j < i ==> (#[trigger] section[j]).0 != name
}

/// The raw value of the first setting of the name `name`, if the section has one.
pub open spec fn raw_setting(section: Seq<(Seq<char>, Seq<char>)>, name: Seq<char>) -> Option<
    Seq<char>,
> {
    if has_setting(section, name) {
        Some(section[choose|i: int| is_first_setting(section, name, i)].1)
    } else {
        None
    }
}

/// A setting whose raw value could not be read as what the setting holds.
#[derive(Debug, PartialEq, Eq)]
pub struct ConfigParseError {
    pub name: String,
    pub value: String,
}

/// The position of the first setting of the name `name`, if the section has one.
pub fn find_setting(entries: &Vec<(String, String)>, name: &str) -> (r: Option<usize>)
    ensures
        r.is_some() == has_setting(section_view(entries@), name@),
        r matches Some(i) ==> i < entries@.len() && raw_setting(section_view(entries@), name@)
            == Some(entries@[i as int].1@),
{
    let ghost section = section_view(entries@);
    let wanted: String = String::from_str(name);
    let n: usize = entries.len();
    let mut i: usize = 0;
    while i < n
        invariant
            i <= n,
            n == entries@.len(),
            section == section_view(entries@),
            wanted@ == name@,
            forall|j: int| 0 <= j < i ==> (#[trigger] section[j]).0 != name@,
        decreases n - i,
    {
        if entries[i].0 == wanted {
            proof {
                assert(section[i as int].0 == name@);
                assert(is_first_setting(section, name@, i as int));
                let c = choose|c: int| is_first_setting(section, name@, c);
                assert(is_first_setting(section, name@, c));
                assert(c == i);
            }
            return Some(i);
        }
        i = i + 1;
    }
    None
}

/// The setting as a text, if the section has it.
pub fn text_setting(entries: &Vec<(String, String)>, name: &str) -> (r: Option<String>)
    ensures
        r is Some == has_setting(section_view(entries@), name@),
        r matches Some(s) ==> raw_setting(section_view(entries@), name@) == Some(s@),
{
    match find_setting(entries, name) {
        Some(i) => Some(entries[i].1.clone()),
        None => None,
    }
}

/// The number that the section gives the setting of the name `name`, if it gives one.
pub open spec fn number_value(section: Seq<(Seq<char>, Seq<char>)>, name: Seq<char>) -> Option<
    i32,
> {
    match raw_setting(section, name) {
        None => None,
        Some(raw) => parsed_i32(raw),
    }
}

/// The truth value that the section gives the setting of the name `name`, if it
/// gives one.
pub open spec fn flag_value(section: Seq<(Seq<char>, Seq<char>)>, name: Seq<char>) -> Option<
    bool,
> {
    match raw_setting(section, name) {
        None => None,
        Some(raw) => parsed_bool(raw),
    }
}

/// The complaint about the setting of the name `name`: its name and raw value, where
/// the section has the setting and the raw value cannot be read as a number (or, for
/// a flag, as a truth value).
pub open spec fn complaint(
    section: Seq<(Seq<char>, Seq<char>)>,
    name: Seq<char>,
    number: bool,
) -> Option<(Seq<char>, Seq<char>)> {
    match raw_setting(section, name) {
        None => None,
        Some(raw) => if number && parsed_i32(raw) is None || !number && parsed_bool(raw) is None {
            Some((name, raw))
        } else {
            None
        },
    }
}

/// The setting as a number, if the section has it.
pub fn number_setting(entries: &Vec<(String, String)>, name: &str) -> (r: Result<
    Option<i32>,
    ConfigParseError,
>)
    ensures
        r matches Ok(n) ==> complaint(section_view(entries@), name@, true) is None && n
            == number_value(section_view(entries@), name@),
        r matches Err(e) ==> complaint(section_view(entries@), name@, true) == Some(
            (e.name@, e.value@),
        ),
{
    match find_setting(entries, name) {
        None => Ok(None),
        Some(i) => match parse_i32(entries[i].1.as_str()) {
            Some(n) => Ok(Some(n)),
            None => Err(
                ConfigParseError { name: String::from_str(name), value: entries[i].1.clone() },
            ),
        },
    }
}

/// The setting as a truth value, if the section has it.
pub fn flag_setting(entries: &Vec<(String, String)>, name: &str) -> (r: Result<
    Option<bool>,
    ConfigParseError,
>)
    ensures
        r matches Ok(b) ==> complaint(section_view(entries@), name@, false) is None && b
            == flag_value(section_view(entries@), name@),
        r matches Err(e) ==> complaint(section_view(entries@), name@, false) == Some(
            (e.name@, e.value@),
        ),
{
    match find_setting(entries, name) {
        None => Ok(None),
        Some(i) => match parse_bool(&entries[i].1) {
            Some(b) => Ok(Some(b)),
            None => Err(
                ConfigParseError { name: String::from_str(name), value: entries[i].1.clone() },
            ),
        },
    }
}

/// The settings as the section gives them, before any default is applied.
#[derive(Debug, PartialEq, Eq)]
pub struct ParsedSettings {
    pub cas_address: Option<String>,
    pub cas_connection_count: Option<i32>,
    pub action_cache_address: Option<String>,
    pub action_cache_connection_count: Option<i32>,
    pub engine_address: Option<String>,
    pub engine_connection_count: Option<i32>,
    pub verbose_logging: Option<bool>,
    pub cas_thread_count: Option<i32>,
    pub use_manifold_rich_client: Option<bool>,
    pub use_zippy_rich_client: Option<bool>,
    pub use_p2p: Option<bool>,
    pub rich_client_channels_per_blob: Option<i32>,
    pub rich_client_attempt_timeout_ms: Option<i32>,
    pub rich_client_retries_count: Option<i32>,
    pub force_enable_deduplicate_find_missing: Option<bool>,
    pub features_config_path: Option<String>,
}

/// The mathematical content of `ParsedSettings`.
pub struct ParsedView {
    pub cas_address: Option<Seq<char>>,
    pub cas_connection_count: Option<i32>,
    pub action_cache_address: Option<Seq<char>>,
    pub action_cache_connection_count: Option<i32>,
    pub engine_address: Option<Seq<char>>,
    pub engine_connection_count: Option<i32>,
    pub verbose_logging: Option<bool>,
    pub cas_thread_count: Option<i32>,
    pub use_manifold_rich_client: Option<bool>,
    pub use_zippy_rich_client: Option<bool>,
    pub use_p2p: Option<bool>,
    pub rich_client_channels_per_blob: Option<i32>,
    pub rich_client_attempt_timeout_ms: Option<i32>,
    pub rich_client_retries_count: Option<i32>,
    pub force_enable_deduplicate_find_missing: Option<bool>,
    pub features_config_path: Option<Seq<char>>,
}

/// The text of an optional string.
pub open spec fn text_of(s: Option<String>) -> Option<Seq<char>> {
    match s {
        Some(t) => Some(t@),
        None => None,
    }
}

impl View for ParsedSettings {
    type V = ParsedView;

    open spec fn view(&self) -> ParsedView {
        ParsedView {
            cas_address: text_of(self.cas_address),
            cas_connection_count: self.cas_connection_count,
            action_cache_address: text_of(self.action_cache_address),
            action_cache_connection_count: self.action_cache_connection_count,
            engine_address: text_of(self.engine_address),
            engine_connection_count: self.engine_connection_count,
            verbose_logging: self.verbose_logging,
            cas_thread_count: self.cas_thread_count,
            use_manifold_rich_client: self.use_manifold_rich_client,
            use_zippy_rich_client: self.use_zippy_rich_client,
            use_p2p: self.use_p2p,
            rich_client_channels_per_blob: self.rich_client_channels_per_blob,
            rich_client_attempt_timeout_ms: self.rich_client_attempt_timeout_ms,
            rich_client_retries_count: self.rich_client_retries_count,
            force_enable_deduplicate_find_missing: self.force_enable_deduplicate_find_missing,
            features_config_path: text_of(self.features_config_path),
        }
    }
}

/// Metadata that doesn't change between executions.
#[derive(Clone, Debug, PartialEq, Eq)]
pub struct RemoteExecutionStaticMetadata {
    pub cas_address: Option<String>,
    pub cas_connection_count: i32,
    pub action_cache_address: Option<String>,
    pub action_cache_connection_count: i32,
    pub engine_address: Option<String>,
    pub engine_connection_count: i32,
    pub verbose_logging: bool,
    pub use_manifold_rich_client: bool,
    pub use_zippy_rich_client: bool,
    pub use_p2p: bool,
    pub cas_thread_count: i32,
    pub rich_client_channels_per_blob: Option<i32>,
    pub rich_client_attempt_timeout_ms: Option<i32>,
    pub rich_client_retries_count: Option<i32>,
    pub force_enable_deduplicate_find_missing: Option<bool>,
    pub features_config_path: Option<String>,
}

/// The mathematical content of `RemoteExecutionStaticMetadata`.
pub struct MetadataView {
    pub cas_address: Option<Seq<char>>,
    pub cas_connection_count: i32,
    pub action_cache_address: Option<Seq<char>>,
    pub action_cache_connection_count: i32,
    pub engine_address: Option<Seq<char>>,
    pub engine_connection_count: i32,
    pub verbose_logging: bool,
    pub use_manifold_rich_client: bool,
    pub use_zippy_rich_client: bool,
    pub use_p2p: bool,
    pub cas_thread_count: i32,
    pub rich_client_channels_per_blob: Option<i32>,
    pub rich_client_attempt_timeout_ms: Option<i32>,
    pub rich_client_retries_count: Option<i32>,
    pub force_enable_deduplicate_find_missing: Option<bool>,
    pub features_config_path: Option<Seq<char>>,
}

impl View for RemoteExecutionStaticMetadata {
    type V = MetadataView;

    open spec fn view(&self) -> MetadataView {
        MetadataView {
            cas_address: text_of(self.cas_address),
            cas_connection_count: self.cas_connection_count,
            action_cache_address: text_of(self.action_cache_address),
            action_cache_connection_count: self.action_cache_connection_count,
            engine_address: text_of(self.engine_address),
            engine_connection_count: self.engine_connection_count,
            verbose_logging: self.verbose_logging,
            use_manifold_rich_client: self.use_manifold_rich_client,
            use_zippy_rich_client: self.use_zippy_rich_client,
            use_p2p: self.use_p2p,
            cas_thread_count: self.cas_thread_count,
            rich_client_channels_per_blob: self.rich_client_channels_per_blob,
            rich_client_attempt_timeout_ms: self.rich_client_attempt_timeout_ms,
            rich_client_retries_count: self.rich_client_retries_count,
            force_enable_deduplicate_find_missing: self.force_enable_deduplicate_find_missing,
            features_config_path: text_of(self.features_config_path),
        }
    }
}

/// The number, or `default` where there is none.
pub open spec fn number_or(n: Option<i32>, default: i32) -> i32 {
    match n {
        Some(x) => x,
        None => default,
    }
}

/// The truth value, or `default` where there is none.
pub open spec fn flag_or(b: Option<bool>, default: bool) -> bool {
    match b {
        Some(x) => x,
        None => default,
    }
}

/// The metadata that the parsed settings stand for: 16 connections to the CAS, 4
/// to the action cache and to the engine, 4 CAS threads, the manifold rich client in
/// use, and every other flag off, unless a setting says otherwise.
pub open spec fn with_defaults(p: ParsedView) -> MetadataView {
    MetadataView {
        cas_address: p.cas_address,
        cas_connection_count: number_or(p.cas_connection_count, 16),
        action_cache_address: p.action_cache_address,
        action_cache_connection_count: number_or(p.action_cache_connection_count, 4),
        engine_address: p.engine_address,
        engine_connection_count: number_or(p.engine_connection_count, 4),
        verbose_logging: flag_or(p.verbose_logging, false),
        use_manifold_rich_client: flag_or(p.use_manifold_rich_client, true),
        use_zippy_rich_client: flag_or(p.use_zippy_rich_client, false),
        use_p2p: flag_or(p.use_p2p, false),
        cas_thread_count: number_or(p.cas_thread_count, 4),
        rich_client_channels_per_blob: p.rich_client_channels_per_blob,
        rich_client_attempt_timeout_ms: p.rich_client_attempt_timeout_ms,
        rich_client_retries_count: p.rich_client_retries_count,
        force_enable_deduplicate_find_missing: p.force_enable_deduplicate_find_missing,
        features_config_path: p.features_config_path,
    }
}

/// The settings that a section gives, each under its name.
pub open spec fn settings_of(section: Seq<(Seq<char>, Seq<char>)>) -> ParsedView {
    ParsedView {
        cas_address: raw_setting(section, "cas_address"@),
        cas_connection_count: number_value(section, "cas_connection_count"@),
        action_cache_address: raw_setting(section, "action_cache_address"@),
        action_cache_connection_count: number_value(section, "action_cache_connection_count"@),
        engine_address: raw_setting(section, "engine_address"@),
        engine_connection_count: number_value(section, "engine_connection_count"@),
        verbose_logging: flag_value(section, "verbose_logging"@),
        cas_thread_count: number_value(section, "cas_thread_count"@),
        use_manifold_rich_client: flag_value(section, "use_manifold_rich_client_new"@),
        use_zippy_rich_client: flag_value(section, "use_zippy_rich_client"@),
        use_p2p: flag_value(section, "use_p2p"@),
        rich_client_channels_per_blob: number_value(section, "rich_client_channels_per_blob"@),
        rich_client_attempt_timeout_ms: number_value(section, "rich_client_attempt_timeout_ms"@),
        rich_client_retries_count: number_value(section, "rich_client_retries_count"@),
        force_enable_deduplicate_find_missing: flag_value(
            section,
            "force_enable_deduplicate_find_missing"@,
        ),
        features_config_path: raw_setting(section, "features_config_path"@),
    }
}

/// The settings that can be complained about, in the order in which they are read,
/// each with whether it is a number (or else a flag).
pub open spec fn checked_settings() -> Seq<(Seq<char>, bool)> {
    seq![
        ("cas_connection_count"@, true),
        ("action_cache_connection_count"@, true),
        ("engine_connection_count"@, true),
        ("verbose_logging"@, false),
        ("cas_thread_count"@, true),
        ("use_manifold_rich_client_new"@, false),
        ("use_zippy_rich_client"@, false),
        ("use_p2p"@, false),
        ("rich_client_channels_per_blob"@, true),
        ("rich_client_attempt_timeout_ms"@, true),
        ("rich_client_retries_count"@, true),
        ("force_enable_deduplicate_find_missing"@, false),
    ]
}

/// The first complaint among the first `n` checked settings.
pub open spec fn first_complaint(section: Seq<(Seq<char>, Seq<char>)>, n: int) -> Option<
    (Seq<char>, Seq<char>),
>
    decreases n,
{
    if n <= 0 {
        None
    } else {
        match first_complaint(section, n - 1) {
            Some(c) => Some(c),
            None => complaint(section, checked_settings()[n - 1].0, checked_settings()[n - 1].1),
        }
    }
}

impl Default for RemoteExecutionStaticMetadata {
    /// No address, no connection, every flag off.
    fn default() -> (m: RemoteExecutionStaticMetadata)
        ensures
            m@ == (MetadataView {
                cas_address: None,
                cas_connection_count: 0,
                action_cache_address: None,
                action_cache_connection_count: 0,
                engine_address: None,
                engine_connection_count: 0,
                verbose_logging: false,
                use_manifold_rich_client: false,
                use_zippy_rich_client: false,
                use_p2p: false,
                cas_thread_count: 0,
                rich_client_channels_per_blob: None,
                rich_client_attempt_timeout_ms: None,
                rich_client_retries_count: None,
                force_enable_deduplicate_find_missing: None,
                features_config_path: None,
            }),
    {
        RemoteExecutionStaticMetadata {
            cas_address: None,
            cas_connection_count: 0,
            action_cache_address: None,
            action_cache_connection_count: 0,
            engine_address: None,
            engine_connection_count: 0,
            verbose_logging: false,
            use_manifold_rich_client: false,
            use_zippy_rich_client: false,
            use_p2p: false,
            cas_thread_count: 0,
            rich_client_channels_per_blob: None,
            rich_client_attempt_timeout_ms: None,
            rich_client_retries_count: None,
            force_enable_deduplicate_find_missing: None,
            features_config_path: None,
        }
    }
}

/// The number, or `default` where there is none.
fn number_or_default(n: Option<i32>, default: i32) -> (r: i32)
    ensures
        r == number_or(n, default),
{
    match n {
        Some(x) => x,
        None => default,
    }
}

/// The truth value, or `default` where there is none.
fn flag_or_default(b: Option<bool>, default: bool) -> (r: bool)
    ensures
        r == flag_or(b, default),
{
    match b {
        Some(x) => x,
        None => default,
    }
}

impl RemoteExecutionStaticMetadata {
    /// The metadata that the parsed settings stand for, with the default for every
    /// setting that the section did not give.
    pub fn from_parsed(p: ParsedSettings) -> (m: RemoteExecutionStaticMetadata)
        ensures
            m@ == with_defaults(p@),
    {
        RemoteExecutionStaticMetadata {
            cas_address: p.cas_address,
            cas_connection_count: number_or_default(p.cas_connection_count, 16),
            action_cache_address: p.action_cache_address,
            action_cache_connection_count: number_or_default(p.action_cache_connection_count, 4),
            engine_address: p.engine_address,
            engine_connection_count: number_or_default(p.engine_connection_count, 4),
            verbose_logging: flag_or_default(p.verbose_logging, false),
            use_manifold_rich_client: flag_or_default(p.use_manifold_rich_client, true),
            use_zippy_rich_client: flag_or_default(p.use_zippy_rich_client, false),
            use_p2p: flag_or_default(p.use_p2p, false),
            cas_thread_count: number_or_default(p.cas_thread_count, 4),
            rich_client_channels_per_blob: p.rich_client_channels_per_blob,
            rich_client_attempt_timeout_ms: p.rich_client_attempt_timeout_ms,
            rich_client_retries_count: p.rich_client_retries_count,
            force_enable_deduplicate_find_missing: p.force_enable_deduplicate_find_missing,
            features_config_path: p.features_config_path,
        }
    }

    /// Reads the settings of the section. The first setting, in the order in which
    /// the settings are read, whose raw value cannot be read is reported with its
    /// name and raw value; where there is none, each setting that the section gives
    /// is returned as the section gives it.
    pub fn parse_section(entries: &Vec<(String, String)>) -> (r: Result<
        ParsedSettings,
        ConfigParseError,
    >)
        ensures
            first_complaint(section_view(entries@), 12) is None ==> (r matches Ok(p) && p@
                == settings_of(section_view(entries@))),
            first_complaint(section_view(entries@), 12) matches Some(c) ==> (r matches Err(e) && (
            e.name@,
            e.value@,
        ) == c),
    {
        proof {
            reveal_with_fuel(first_complaint, 13);
        }
        let cas_address = text_setting(entries, "cas_address");
        let cas_connection_count = match number_setting(entries, "cas_connection_count") {
            Ok(v) => v,
            Err(e) => {
                return Err(e);
            },
        };
        let action_cache_address = text_setting(entries, "action_cache_address");
        let action_cache_connection_count = match number_setting(
            entries,
            "action_cache_connection_count",
        ) {
            Ok(v) => v,
            Err(e) => {
                return Err(e);
            },
        };
        let engine_address = text_setting(entries, "engine_address");
        let engine_connection_count = match number_setting(entries, "engine_connection_count") {
            Ok(v) => v,
            Err(e) => {
                return Err(e);
            },
        };
        let verbose_logging = match flag_setting(entries, "verbose_logging") {
            Ok(v) => v,
            Err(e) => {
                return Err(e);
            },
        };
        let cas_thread_count = match number_setting(entries, "cas_thread_count") {
            Ok(v) => v,
            Err(e) => {
                return Err(e);
            },
        };
        let use_manifold_rich_client = match flag_setting(entries, "use_manifold_rich_client_new") {
            Ok(v) => v,
            Err(e) => {
                return Err(e);
            },
        };
        let use_zippy_rich_client = match flag_setting(entries, "use_zippy_rich_client") {
            Ok(v) => v,
            Err(e) => {
                return Err(e);
            },
        };
        let use_p2p = match flag_setting(entries, "use_p2p") {
            Ok(v) => v,
            Err(e) => {
                return Err(e);
            },
        };
        let rich_client_channels_per_blob = match number_setting(
            entries,
            "rich_client_channels_per_blob",
        ) {
            Ok(v) => v,
            Err(e) => {
                return Err(e);
            },
        };
        let rich_client_attempt_timeout_ms = match number_setting(
            entries,
            "rich_client_attempt_timeout_ms",
        ) {
            Ok(v) => v,
            Err(e) => {
                return Err(e);
            },
        };
        let rich_client_retries_count = match number_setting(entries, "rich_client_retries_count") {
            Ok(v) => v,
            Err(e) => {
                return Err(e);
            },
        };
        let force_enable_deduplicate_find_missing = match flag_setting(
            entries,
            "force_enable_deduplicate_find_missing",
        ) {
            Ok(v) => v,
            Err(e) => {
                return Err(e);
            },
        };
        let features_config_path = text_setting(entries, "features_config_path");
        Ok(
            ParsedSettings {
                cas_address,
                cas_connection_count,
                action_cache_address,
                action_cache_connection_count,
                engine_address,
                engine_connection_count,
                verbose_logging,
                cas_thread_count,
                use_manifold_rich_client,
                use_zippy_rich_client,
                use_p2p,
                rich_client_channels_per_blob,
                rich_client_attempt_timeout_ms,
                rich_client_retries_count,
                force_enable_deduplicate_find_missing,
                features_config_path,
            },
        )
    }

    /// The metadata that the section of the remote execution client stands for: the
    /// settings that the section gives, and the default for each of the others. A
    /// setting whose raw value cannot be read fails the whole.
    pub fn from_legacy_config(entries: &Vec<(String, String)>) -> (r: Result<
        RemoteExecutionStaticMetadata,
        ConfigParseError,
    >)
        ensures
            first_complaint(section_view(entries@), 12) is None ==> (r matches Ok(m) && m@
                == with_defaults(settings_of(section_view(entries@)))),
            first_complaint(section_view(entries@), 12) matches Some(c) ==> (r matches Err(e) && (
            e.name@,
            e.value@,
        ) == c),
    {
        match Self::parse_section(entries) {
            Ok(p) => Ok(Self::from_parsed(p)),
            Err(e) => Err(e),
        }
    }
}

} // verus!
