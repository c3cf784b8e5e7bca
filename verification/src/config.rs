//! The settings of the program: their names, their defaults, and what is made of the
//! texts that they are given as.
use crate::address::{address_of, parse_address, IpAddr};
use crate::float64::Float64;
use crate::text::{
    concatenated, lowercase, parse_unsigned, same_text, split_list, to_lowercase, tokens, trim,
    trimmed, unsigned_value,
};
use vstd::prelude::*;

verus! {

/// 0.0
pub const ZERO: u64 = 0x0000_0000_0000_0000;

/// 0.5
pub const HALF: u64 = 0x3FE0_0000_0000_0000;

/// 0.85
pub const EIGHTY_FIVE_PERCENT: u64 = 0x3FEB_3333_3333_3333;

/// 10.0
pub const TEN: u64 = 0x4024_0000_0000_0000;

/// 20.0
pub const TWENTY: u64 = 0x4034_0000_0000_0000;

/// 1000.0
pub const THOUSAND: u64 = 0x408F_4000_0000_0000;

/// 5000.0
pub const FIVE_THOUSAND: u64 = 0x40B3_8800_0000_0000;

/// 10000000.0, the rate in kbit/s that stands for no limit.
pub const UNLIMITED: u64 = 0x4163_12D0_0000_0000;

/// What can be wrong with a setting.
#[derive(Debug)]
pub enum ConfigError {
    /// The text names no way to measure.
    InvalidMeasurementType(String),
    /// The text of the setting with this name cannot be read.
    ParseError(String),
    /// The setting with this name is needed, and not given.
    MissingValue(String),
}

/// A `ConfigError`, for contracts.
pub enum ConfigErrorView {
    InvalidMeasurementType(Seq<char>),
    ParseError(Seq<char>),
    MissingValue(Seq<char>),
}

impl View for ConfigError {
    type V = ConfigErrorView;

    open spec fn view(&self) -> ConfigErrorView {
        match self {
            ConfigError::InvalidMeasurementType(s) => ConfigErrorView::InvalidMeasurementType(s@),
            ConfigError::ParseError(s) => ConfigErrorView::ParseError(s@),
            ConfigError::MissingValue(s) => ConfigErrorView::MissingValue(s@),
        }
    }
}

impl ConfigError {
    /// The error in words.
    pub fn message(&self) -> (r: String)
        ensures
            r@ == match self@ {
                ConfigErrorView::InvalidMeasurementType(_) => "Invalid measurement type"@,
                ConfigErrorView::ParseError(key) => "Couldn't parse value for key: `"@ + key
                    + "`: invalid value"@,
                ConfigErrorView::MissingValue(key) => "No config value found for key: `"@ + key
                    + "`"@,
            },
    {
        match self {
            ConfigError::InvalidMeasurementType(_) => "Invalid measurement type".to_owned(),
            ConfigError::ParseError(key) => concatenated(
                "Couldn't parse value for key: `",
                key.as_str(),
                "`: invalid value",
            ),
            ConfigError::MissingValue(key) => concatenated(
                "No config value found for key: `",
                key.as_str(),
                "`",
            ),
        }
    }
}

/// How delays are measured.
#[derive(Clone, Copy, Debug, PartialEq, Eq, Structural)]
pub enum MeasurementType {
    Icmp,
    IcmpTimestamps,
    Ntp,
    TcpTimestamps,
}

/// The way to measure that has the name `lowered`.
pub open spec fn measurement_type(lowered: Seq<char>) -> Option<MeasurementType> {
    if lowered == "icmp"@ {
        Some(MeasurementType::Icmp)
    } else if lowered == "icmp-timestamps"@ {
        Some(MeasurementType::IcmpTimestamps)
    } else if lowered == "ntp"@ {
        Some(MeasurementType::Ntp)
    } else if lowered == "tcp-timestamps"@ {
        Some(MeasurementType::TcpTimestamps)
    } else {
        None
    }
}

impl MeasurementType {
    /// The way to measure that has the name `lowered`.
    pub fn from_lowercase(lowered: &str) -> (r: Option<MeasurementType>)
        ensures
            r == measurement_type(lowered@),
    {
        if same_text(lowered, "icmp") {
            Some(MeasurementType::Icmp)
        } else if same_text(lowered, "icmp-timestamps") {
            Some(MeasurementType::IcmpTimestamps)
        } else if same_text(lowered, "ntp") {
            Some(MeasurementType::Ntp)
        } else if same_text(lowered, "tcp-timestamps") {
            Some(MeasurementType::TcpTimestamps)
        } else {
            None
        }
    }

    /// The way to measure that `s` names, in upper or lower case.
    pub fn from_str(s: &str) -> (r: Result<MeasurementType, ConfigError>)
        ensures
            match measurement_type(lowercase(s@)) {
                Some(t) => r == Ok::<MeasurementType, ConfigError>(t),
                None => r is Err && r->Err_0@ == ConfigErrorView::InvalidMeasurementType(s@),
            },
    {
        match MeasurementType::from_lowercase(to_lowercase(s).as_str()) {
            Some(t) => Ok(t),
            None => Err(ConfigError::InvalidMeasurementType(s.to_owned())),
        }
    }
}

/// What a switch is set to by `text`, which is `lowered` when trimmed and in lower case.
pub open spec fn switch_position(lowered: Seq<char>, text: Seq<char>) -> Option<bool> {
    if lowered == "1"@ || lowered == "true"@ || lowered == "on"@ || lowered == "yes"@ {
        Some(true)
    } else if lowered == "0"@ || lowered == "false"@ || lowered == "off"@ || lowered == "no"@ {
        Some(false)
    } else if text == "true"@ {
        Some(true)
    } else if text == "false"@ {
        Some(false)
    } else {
        None
    }
}

/// What a switch is set to by `text`, which is `lowered` when trimmed and in lower case.
pub fn parse_switch_word(lowered: &str, text: &str) -> (r: Option<bool>)
    ensures
        r == switch_position(lowered@, text@),
{
    if same_text(lowered, "1") || same_text(lowered, "true") || same_text(lowered, "on")
        || same_text(lowered, "yes") {
        Some(true)
    } else if same_text(lowered, "0") || same_text(lowered, "false") || same_text(lowered, "off")
        || same_text(lowered, "no") {
        Some(false)
    } else if same_text(text, "true") {
        Some(true)
    } else if same_text(text, "false") {
        Some(false)
    } else {
        None
    }
}

/// What a switch is set to by `text`.
pub fn parse_switch(text: &str) -> (r: Option<bool>)
    ensures
        r == switch_position(lowercase(trimmed(text@)), text@),
{
    parse_switch_word(to_lowercase(trim(text)).as_str(), text)
}

/// What a setting was given as.
#[derive(Debug)]
pub struct Setting {
    /// The text; `None` where the setting is not given.
    pub text: Option<String>,
    /// The text read as a double; `None` where it is not one. Only settings that are
    /// doubles need this.
    pub number: Option<Float64>,
}

/// The settings, in the order in which they are read.
#[derive(Clone, Copy, Debug, PartialEq, Eq, Structural)]
pub enum Key {
    DownloadBaseKbits,
    DownloadInterface,
    DownloadMaxKbits,
    DownloadMinKbits,
    UploadBaseKbits,
    UploadInterface,
    UploadMaxKbits,
    UploadMinKbits,
    StatsFile,
    SuppressStatistics,
    DownloadDelayMs,
    HighLoadLevel,
    MeasurementType,
    MinChangeInterval,
    NumReflectors,
    PeerReselectionTime,
    Reflectors,
    TickInterval,
    UploadDelayMs,
    IncreaseStepKbits,
    DecreaseMultiplier,
    CooldownSecs,
}

/// How many settings there are.
pub const KEYS: usize = 22;

/// The setting that is read as number `i`.
pub open spec fn key_at(i: int) -> Key {
    if i == 0 {
        Key::DownloadBaseKbits
    } else if i == 1 {
        Key::DownloadInterface
    } else if i == 2 {
        Key::DownloadMaxKbits
    } else if i == 3 {
        Key::DownloadMinKbits
    } else if i == 4 {
        Key::UploadBaseKbits
    } else if i == 5 {
        Key::UploadInterface
    } else if i == 6 {
        Key::UploadMaxKbits
    } else if i == 7 {
        Key::UploadMinKbits
    } else if i == 8 {
        Key::StatsFile
    } else if i == 9 {
        Key::SuppressStatistics
    } else if i == 10 {
        Key::DownloadDelayMs
    } else if i == 11 {
        Key::HighLoadLevel
    } else if i == 12 {
        Key::MeasurementType
    } else if i == 13 {
        Key::MinChangeInterval
    } else if i == 14 {
        Key::NumReflectors
    } else if i == 15 {
        Key::PeerReselectionTime
    } else if i == 16 {
        Key::Reflectors
    } else if i == 17 {
        Key::TickInterval
    } else if i == 18 {
        Key::UploadDelayMs
    } else if i == 19 {
        Key::IncreaseStepKbits
    } else if i == 20 {
        Key::DecreaseMultiplier
    } else {
        Key::CooldownSecs
    }
}

/// What a setting is read as.
pub enum Kind {
    /// A double, with the bit pattern of its default.
    Double(Option<u64>),
    /// A text, with its default.
    Text(Option<Seq<char>>),
    /// A switch, with its default.
    Switch(bool),
    /// A way to measure, with its default.
    Measurement(MeasurementType),
    /// A whole number, with its default and the largest that is accepted.
    Whole(u64, u64),
}

impl Key {
    /// Where the setting stands in the reading order.
    pub open spec fn position(self) -> int {
        match self {
            Key::DownloadBaseKbits => 0,
            Key::DownloadInterface => 1,
            Key::DownloadMaxKbits => 2,
            Key::DownloadMinKbits => 3,
            Key::UploadBaseKbits => 4,
            Key::UploadInterface => 5,
            Key::UploadMaxKbits => 6,
            Key::UploadMinKbits => 7,
            Key::StatsFile => 8,
            Key::SuppressStatistics => 9,
            Key::DownloadDelayMs => 10,
            Key::HighLoadLevel => 11,
            Key::MeasurementType => 12,
            Key::MinChangeInterval => 13,
            Key::NumReflectors => 14,
            Key::PeerReselectionTime => 15,
            Key::Reflectors => 16,
            Key::TickInterval => 17,
            Key::UploadDelayMs => 18,
            Key::IncreaseStepKbits => 19,
            Key::DecreaseMultiplier => 20,
            Key::CooldownSecs => 21,
        }
    }

    /// The environment variable that gives the setting.
    pub open spec fn env_name(self) -> Seq<char> {
        match self {
            Key::DownloadBaseKbits => "SQMA_DOWNLOAD_BASE_KBITS"@,
            Key::DownloadInterface => "SQMA_DOWNLOAD_INTERFACE"@,
            Key::DownloadMaxKbits => "SQMA_DOWNLOAD_MAX_KBITS"@,
            Key::DownloadMinKbits => "SQMA_DOWNLOAD_MIN_KBITS"@,
            Key::UploadBaseKbits => "SQMA_UPLOAD_BASE_KBITS"@,
            Key::UploadInterface => "SQMA_UPLOAD_INTERFACE"@,
            Key::UploadMaxKbits => "SQMA_UPLOAD_MAX_KBITS"@,
            Key::UploadMinKbits => "SQMA_UPLOAD_MIN_KBITS"@,
            Key::StatsFile => "SQMA_STATS_FILE"@,
            Key::SuppressStatistics => "SQMA_SUPPRESS_STATISTICS"@,
            Key::DownloadDelayMs => "SQMA_DOWNLOAD_DELAY_MS"@,
            Key::HighLoadLevel => "SQMA_HIGH_LOAD_LEVEL"@,
            Key::MeasurementType => "SQMA_MEASUREMENT_TYPE"@,
            Key::MinChangeInterval => "SQMA_MIN_CHANGE_INTERVAL"@,
            Key::NumReflectors => "SQMA_NUM_REFLECTORS"@,
            Key::PeerReselectionTime => "SQMA_PEER_RESELECTION_TIME"@,
            Key::Reflectors => "SQMA_REFLECTORS"@,
            Key::TickInterval => "SQMA_TICK_INTERVAL"@,
            Key::UploadDelayMs => "SQMA_UPLOAD_DELAY_MS"@,
            Key::IncreaseStepKbits => "SQMA_INCREASE_STEP_KBITS"@,
            Key::DecreaseMultiplier => "SQMA_DECREASE_MULTIPLIER"@,
            Key::CooldownSecs => "SQMA_COOLDOWN_SECS"@,
        }
    }

    /// The entry of the router's configuration that gives the setting.
    pub open spec fn uci_name(self) -> Seq<char> {
        match self {
            Key::DownloadBaseKbits => "sqm-autorate.main.download_base_kbits"@,
            Key::DownloadInterface => "sqm-autorate.main.download_interface"@,
            Key::DownloadMaxKbits => "sqm-autorate.main.download_max_kbits"@,
            Key::DownloadMinKbits => "sqm-autorate.main.download_min_kbits"@,
            Key::UploadBaseKbits => "sqm-autorate.main.upload_base_kbits"@,
            Key::UploadInterface => "sqm-autorate.main.upload_interface"@,
            Key::UploadMaxKbits => "sqm-autorate.main.upload_max_kbits"@,
            Key::UploadMinKbits => "sqm-autorate.main.upload_min_kbits"@,
            Key::StatsFile => "sqm-autorate.main.stats_file"@,
            Key::SuppressStatistics => "sqm-autorate.main.suppress_statistics"@,
            Key::DownloadDelayMs => "sqm-autorate.main.download_delay_ms"@,
            Key::HighLoadLevel => "sqm-autorate.main.high_load_level"@,
            Key::MeasurementType => "sqm-autorate.main.measurement_type"@,
            Key::MinChangeInterval => "sqm-autorate.main.min_change_interval"@,
            Key::NumReflectors => "sqm-autorate.main.num_reflectors"@,
            Key::PeerReselectionTime => "sqm-autorate.main.peer_reselection_time"@,
            Key::Reflectors => "sqm-autorate.main.reflectors"@,
            Key::TickInterval => "sqm-autorate.main.tick_interval"@,
            Key::UploadDelayMs => "sqm-autorate.main.upload_delay_ms"@,
            Key::IncreaseStepKbits => "sqm-autorate.main.increase_step_kbits"@,
            Key::DecreaseMultiplier => "sqm-autorate.main.decrease_multiplier"@,
            Key::CooldownSecs => "sqm-autorate.main.cooldown_secs"@,
        }
    }

    /// What the setting is read as, and what it is where it is not given. Without a
    /// default, the setting must be given.
    pub open spec fn kind(self) -> Kind {
        match self {
            Key::DownloadBaseKbits => Kind::Double(None),
            Key::DownloadInterface => Kind::Text(None),
            Key::DownloadMaxKbits => Kind::Double(Some(ZERO)),
            Key::DownloadMinKbits => Kind::Double(Some(THOUSAND)),
            Key::UploadBaseKbits => Kind::Double(None),
            Key::UploadInterface => Kind::Text(None),
            Key::UploadMaxKbits => Kind::Double(Some(ZERO)),
            Key::UploadMinKbits => Kind::Double(Some(THOUSAND)),
            Key::StatsFile => Kind::Text(Some("/tmp/sqm-autorate.csv"@)),
            Key::SuppressStatistics => Kind::Switch(false),
            Key::DownloadDelayMs => Kind::Double(Some(TWENTY)),
            Key::HighLoadLevel => Kind::Double(Some(HALF)),
            Key::MeasurementType => Kind::Measurement(MeasurementType::IcmpTimestamps),
            Key::MinChangeInterval => Kind::Double(Some(HALF)),
            Key::NumReflectors => Kind::Whole(5, 255),
            Key::PeerReselectionTime => Kind::Whole(15, u64::MAX),
            Key::Reflectors => Kind::Text(Some(""@)),
            Key::TickInterval => Kind::Double(Some(HALF)),
            Key::UploadDelayMs => Kind::Double(Some(TWENTY)),
            Key::IncreaseStepKbits => Kind::Double(Some(FIVE_THOUSAND)),
            Key::DecreaseMultiplier => Kind::Double(Some(EIGHTY_FIVE_PERCENT)),
            Key::CooldownSecs => Kind::Double(Some(TEN)),
        }
    }

    /// The setting that is read as number `i`.
    pub fn at(i: usize) -> (r: Key)
        requires
            i < KEYS,
        ensures
            r == key_at(i as int),
    {
        match i {
            0 => Key::DownloadBaseKbits,
            1 => Key::DownloadInterface,
            2 => Key::DownloadMaxKbits,
            3 => Key::DownloadMinKbits,
            4 => Key::UploadBaseKbits,
            5 => Key::UploadInterface,
            6 => Key::UploadMaxKbits,
            7 => Key::UploadMinKbits,
            8 => Key::StatsFile,
            9 => Key::SuppressStatistics,
            10 => Key::DownloadDelayMs,
            11 => Key::HighLoadLevel,
            12 => Key::MeasurementType,
            13 => Key::MinChangeInterval,
            14 => Key::NumReflectors,
            15 => Key::PeerReselectionTime,
            16 => Key::Reflectors,
            17 => Key::TickInterval,
            18 => Key::UploadDelayMs,
            19 => Key::IncreaseStepKbits,
            20 => Key::DecreaseMultiplier,
            _ => Key::CooldownSecs,
        }
    }

    /// Where the setting stands in the reading order.
    pub fn index(self) -> (r: usize)
        ensures
            r == self.position(),
            r < KEYS,
            key_at(r as int) == self,
    {
        match self {
            Key::DownloadBaseKbits => 0,
            Key::DownloadInterface => 1,
            Key::DownloadMaxKbits => 2,
            Key::DownloadMinKbits => 3,
            Key::UploadBaseKbits => 4,
            Key::UploadInterface => 5,
            Key::UploadMaxKbits => 6,
            Key::UploadMinKbits => 7,
            Key::StatsFile => 8,
            Key::SuppressStatistics => 9,
            Key::DownloadDelayMs => 10,
            Key::HighLoadLevel => 11,
            Key::MeasurementType => 12,
            Key::MinChangeInterval => 13,
            Key::NumReflectors => 14,
            Key::PeerReselectionTime => 15,
            Key::Reflectors => 16,
            Key::TickInterval => 17,
            Key::UploadDelayMs => 18,
            Key::IncreaseStepKbits => 19,
            Key::DecreaseMultiplier => 20,
            Key::CooldownSecs => 21,
        }
    }

    /// The environment variable that gives the setting.
    pub fn env_key(self) -> (r: &'static str)
        ensures
            r@ == self.env_name(),
    {
        match self {
            Key::DownloadBaseKbits => "SQMA_DOWNLOAD_BASE_KBITS",
            Key::DownloadInterface => "SQMA_DOWNLOAD_INTERFACE",
            Key::DownloadMaxKbits => "SQMA_DOWNLOAD_MAX_KBITS",
            Key::DownloadMinKbits => "SQMA_DOWNLOAD_MIN_KBITS",
            Key::UploadBaseKbits => "SQMA_UPLOAD_BASE_KBITS",
            Key::UploadInterface => "SQMA_UPLOAD_INTERFACE",
            Key::UploadMaxKbits => "SQMA_UPLOAD_MAX_KBITS",
            Key::UploadMinKbits => "SQMA_UPLOAD_MIN_KBITS",
            Key::StatsFile => "SQMA_STATS_FILE",
            Key::SuppressStatistics => "SQMA_SUPPRESS_STATISTICS",
            Key::DownloadDelayMs => "SQMA_DOWNLOAD_DELAY_MS",
            Key::HighLoadLevel => "SQMA_HIGH_LOAD_LEVEL",
            Key::MeasurementType => "SQMA_MEASUREMENT_TYPE",
            Key::MinChangeInterval => "SQMA_MIN_CHANGE_INTERVAL",
            Key::NumReflectors => "SQMA_NUM_REFLECTORS",
            Key::PeerReselectionTime => "SQMA_PEER_RESELECTION_TIME",
            Key::Reflectors => "SQMA_REFLECTORS",
            Key::TickInterval => "SQMA_TICK_INTERVAL",
            Key::UploadDelayMs => "SQMA_UPLOAD_DELAY_MS",
            Key::IncreaseStepKbits => "SQMA_INCREASE_STEP_KBITS",
            Key::DecreaseMultiplier => "SQMA_DECREASE_MULTIPLIER",
            Key::CooldownSecs => "SQMA_COOLDOWN_SECS",
        }
    }

    /// The entry of the router's configuration that gives the setting.
    pub fn uci_key(self) -> (r: &'static str)
        ensures
            r@ == self.uci_name(),
    {
        match self {
            Key::DownloadBaseKbits => "sqm-autorate.main.download_base_kbits",
            Key::DownloadInterface => "sqm-autorate.main.download_interface",
            Key::DownloadMaxKbits => "sqm-autorate.main.download_max_kbits",
            Key::DownloadMinKbits => "sqm-autorate.main.download_min_kbits",
            Key::UploadBaseKbits => "sqm-autorate.main.upload_base_kbits",
            Key::UploadInterface => "sqm-autorate.main.upload_interface",
            Key::UploadMaxKbits => "sqm-autorate.main.upload_max_kbits",
            Key::UploadMinKbits => "sqm-autorate.main.upload_min_kbits",
            Key::StatsFile => "sqm-autorate.main.stats_file",
            Key::SuppressStatistics => "sqm-autorate.main.suppress_statistics",
            Key::DownloadDelayMs => "sqm-autorate.main.download_delay_ms",
            Key::HighLoadLevel => "sqm-autorate.main.high_load_level",
            Key::MeasurementType => "sqm-autorate.main.measurement_type",
            Key::MinChangeInterval => "sqm-autorate.main.min_change_interval",
            Key::NumReflectors => "sqm-autorate.main.num_reflectors",
            Key::PeerReselectionTime => "sqm-autorate.main.peer_reselection_time",
            Key::Reflectors => "sqm-autorate.main.reflectors",
            Key::TickInterval => "sqm-autorate.main.tick_interval",
            Key::UploadDelayMs => "sqm-autorate.main.upload_delay_ms",
            Key::IncreaseStepKbits => "sqm-autorate.main.increase_step_kbits",
            Key::DecreaseMultiplier => "sqm-autorate.main.decrease_multiplier",
            Key::CooldownSecs => "sqm-autorate.main.cooldown_secs",
        }
    }
}

/// All settings, read.
#[derive(Clone, Debug)]
pub struct Config {
    pub download_interface: String,
    pub upload_interface: String,
    pub download_base_kbits: Float64,
    pub download_max_kbits: Float64,
    pub download_min_kbits: Float64,
    pub upload_base_kbits: Float64,
    pub upload_max_kbits: Float64,
    pub upload_min_kbits: Float64,
    pub stats_file: String,
    pub suppress_statistics: bool,
    pub download_delay_ms: Float64,
    pub high_load_level: Float64,
    pub min_change_interval: Float64,
    pub measurement_type: MeasurementType,
    pub num_reflectors: u8,
    pub peer_reselection_time: u64,
    pub reflectors: String,
    pub tick_interval: Float64,
    pub upload_delay_ms: Float64,
    pub increase_step_kbits: Float64,
    pub decrease_multiplier: Float64,
    pub cooldown_secs: Float64,
}

/// What a setting amounts to: the value that its text was read as, `found`, the default
/// where it has no text, or an error with the name of the setting.
pub open spec fn resolved<T>(
    key: Seq<char>,
    given: bool,
    found: Option<T>,
    default: Option<T>,
) -> Result<T, ConfigErrorView> {
    if given {
        match found {
            Some(v) => Ok(v),
            None => Err(ConfigErrorView::ParseError(key)),
        }
    } else {
        match default {
            Some(v) => Ok(v),
            None => Err(ConfigErrorView::MissingValue(key)),
        }
    }
}

/// Everything that the settings were given as.
#[derive(Debug)]
pub struct Settings {
    /// What each setting was given as, in reading order.
    pub given: Vec<Setting>,
}

impl Settings {
    /// Whether there is an entry for each setting.
    pub open spec fn complete(&self) -> bool {
        self.given@.len() == KEYS
    }

    /// The text of `key`.
    pub open spec fn text(&self, key: Key) -> Option<Seq<char>> {
        match self.given@[key.position()].text {
            Some(s) => Some(s@),
            None => None,
        }
    }

    /// `key`, as a double.
    pub open spec fn double(&self, key: Key) -> Result<Float64, ConfigErrorView> {
        resolved(
            key.env_name(),
            self.text(key) is Some,
            self.given@[key.position()].number,
            match key.kind() {
                Kind::Double(Some(bits)) => Some(Float64 { bits }),
                _ => None,
            },
        )
    }

    /// `key`, as a text.
    pub open spec fn words(&self, key: Key) -> Result<Seq<char>, ConfigErrorView> {
        resolved(
            key.env_name(),
            self.text(key) is Some,
            self.text(key),
            match key.kind() {
                Kind::Text(default) => default,
                _ => None,
            },
        )
    }

    /// `key`, as a switch.
    pub open spec fn switch(&self, key: Key) -> Result<bool, ConfigErrorView> {
        resolved(
            key.env_name(),
            self.text(key) is Some,
            switch_position(lowercase(trimmed(self.text(key)->0)), self.text(key)->0),
            match key.kind() {
                Kind::Switch(default) => Some(default),
                _ => None,
            },
        )
    }

    /// `key`, as a way to measure.
    pub open spec fn measurement(&self, key: Key) -> Result<MeasurementType, ConfigErrorView> {
        resolved(
            key.env_name(),
            self.text(key) is Some,
            measurement_type(lowercase(self.text(key)->0)),
            match key.kind() {
                Kind::Measurement(default) => Some(default),
                _ => None,
            },
        )
    }

    /// `key`, as a whole number.
    pub open spec fn whole(&self, key: Key) -> Result<nat, ConfigErrorView> {
        let (default, max) = match key.kind() {
            Kind::Whole(default, max) => (Some(default as nat), max as nat),
            _ => (None, 0nat),
        };
        resolved(
            key.env_name(),
            self.text(key) is Some,
            match unsigned_value(self.text(key)->0) {
                Some(n) if n <= max => Some(n),
                _ => None,
            },
            default,
        )
    }

    /// What is wrong with `key`, if anything is.
    pub open spec fn problem(&self, key: Key) -> Option<ConfigErrorView> {
        match key.kind() {
            Kind::Double(_) => match self.double(key) {
                Ok(_) => None,
                Err(e) => Some(e),
            },
            Kind::Text(_) => match self.words(key) {
                Ok(_) => None,
                Err(e) => Some(e),
            },
            Kind::Switch(_) => match self.switch(key) {
                Ok(_) => None,
                Err(e) => Some(e),
            },
            Kind::Measurement(_) => match self.measurement(key) {
                Ok(_) => None,
                Err(e) => Some(e),
            },
            Kind::Whole(_, _) => match self.whole(key) {
                Ok(_) => None,
                Err(e) => Some(e),
            },
        }
    }

    /// Whether nothing is wrong with the first `n` settings.
    pub open spec fn sound_before(&self, n: int) -> bool {
        forall|i: int| 0 <= i < n ==> self.problem(#[trigger] key_at(i)) is None
    }

    /// Whether nothing is wrong with any setting.
    pub open spec fn sound(&self) -> bool {
        self.sound_before(KEYS as int)
    }
}

/// `n`, as a byte.
fn to_byte(n: u64) -> (r: u8)
    requires
        n <= u8::MAX,
    ensures
        r == n,
{
    n as u8
}

/// A base rate, with zero standing for no limit.
pub open spec fn base_rate(given: Float64) -> Float64 {
    if given.same_number(Float64 { bits: ZERO }) {
        Float64 { bits: UNLIMITED }
    } else {
        given
    }
}

/// Whether `config` holds what `settings` say.
pub open spec fn holds(config: Config, settings: &Settings) -> bool {
    &&& settings.words(Key::DownloadInterface) == Ok::<Seq<char>, ConfigErrorView>(
        config.download_interface@,
    )
    &&& settings.words(Key::UploadInterface) == Ok::<Seq<char>, ConfigErrorView>(
        config.upload_interface@,
    )
    &&& settings.double(Key::DownloadBaseKbits) is Ok
    &&& config.download_base_kbits == base_rate(settings.double(Key::DownloadBaseKbits)->Ok_0)
    &&& settings.double(Key::DownloadMaxKbits) == Ok::<Float64, ConfigErrorView>(
        config.download_max_kbits,
    )
    &&& settings.double(Key::DownloadMinKbits) == Ok::<Float64, ConfigErrorView>(
        config.download_min_kbits,
    )
    &&& settings.double(Key::UploadBaseKbits) is Ok
    &&& config.upload_base_kbits == base_rate(settings.double(Key::UploadBaseKbits)->Ok_0)
    &&& settings.double(Key::UploadMaxKbits) == Ok::<Float64, ConfigErrorView>(
        config.upload_max_kbits,
    )
    &&& settings.double(Key::UploadMinKbits) == Ok::<Float64, ConfigErrorView>(
        config.upload_min_kbits,
    )
    &&& settings.words(Key::StatsFile) == Ok::<Seq<char>, ConfigErrorView>(config.stats_file@)
    &&& settings.switch(Key::SuppressStatistics) == Ok::<bool, ConfigErrorView>(
        config.suppress_statistics,
    )
    &&& settings.double(Key::DownloadDelayMs) == Ok::<Float64, ConfigErrorView>(
        config.download_delay_ms,
    )
    &&& settings.double(Key::HighLoadLevel) == Ok::<Float64, ConfigErrorView>(
        config.high_load_level,
    )
    &&& settings.double(Key::MinChangeInterval) == Ok::<Float64, ConfigErrorView>(
        config.min_change_interval,
    )
    &&& settings.measurement(Key::MeasurementType) == Ok::<MeasurementType, ConfigErrorView>(
        config.measurement_type,
    )
    &&& settings.whole(Key::NumReflectors) == Ok::<nat, ConfigErrorView>(
        config.num_reflectors as nat,
    )
    &&& settings.whole(Key::PeerReselectionTime) == Ok::<nat, ConfigErrorView>(
        config.peer_reselection_time as nat,
    )
    &&& settings.words(Key::Reflectors) == Ok::<Seq<char>, ConfigErrorView>(config.reflectors@)
    &&& settings.double(Key::TickInterval) == Ok::<Float64, ConfigErrorView>(config.tick_interval)
    &&& settings.double(Key::UploadDelayMs) == Ok::<Float64, ConfigErrorView>(
        config.upload_delay_ms,
    )
    &&& settings.double(Key::IncreaseStepKbits) == Ok::<Float64, ConfigErrorView>(
        config.increase_step_kbits,
    )
    &&& settings.double(Key::DecreaseMultiplier) == Ok::<Float64, ConfigErrorView>(
        config.decrease_multiplier,
    )
    &&& settings.double(Key::CooldownSecs) == Ok::<Float64, ConfigErrorView>(config.cooldown_secs)
}

impl Settings {
    /// `key`, as a double.
    fn read_double(&self, key: Key, default: Option<Float64>) -> (r: Result<Float64, ConfigError>)
        requires
            self.complete(),
            key.kind() is Double,
            default == match key.kind() {
                Kind::Double(Some(bits)) => Some(Float64 { bits }),
                _ => None,
            },
        ensures
            match r {
                Ok(v) => self.double(key) == Ok::<Float64, ConfigErrorView>(v),
                Err(e) => self.problem(key) == Some(e@),
            },
            r is Ok ==> self.problem(key) is None,
    {
        let setting: &Setting = &self.given[key.index()];
        Config::get(key.env_key(), setting.text.is_some(), setting.number, default)
    }

    /// `key`, as a text.
    fn read_words(&self, key: Key, default: Option<&str>) -> (r: Result<String, ConfigError>)
        requires
            self.complete(),
            key.kind() is Text,
            match default {
                Some(d) => key.kind() == Kind::Text(Some(d@)),
                None => key.kind() == Kind::Text(None),
            },
        ensures
            match r {
                Ok(v) => self.words(key) == Ok::<Seq<char>, ConfigErrorView>(v@),
                Err(e) => self.problem(key) == Some(e@),
            },
            r is Ok ==> self.problem(key) is None,
    {
        let setting: &Setting = &self.given[key.index()];
        let found: Option<&str> = match &setting.text {
            Some(text) => Some(text.as_str()),
            None => None,
        };
        match Config::get(key.env_key(), setting.text.is_some(), found, default) {
            Ok(v) => Ok(v.to_owned()),
            Err(e) => Err(e),
        }
    }

    /// `key`, as a switch.
    fn read_switch(&self, key: Key, default: bool) -> (r: Result<bool, ConfigError>)
        requires
            self.complete(),
            key.kind() == Kind::Switch(default),
        ensures
            match r {
                Ok(v) => self.switch(key) == Ok::<bool, ConfigErrorView>(v),
                Err(e) => self.problem(key) == Some(e@),
            },
            r is Ok ==> self.problem(key) is None,
    {
        let setting: &Setting = &self.given[key.index()];
        let found: Option<bool> = match &setting.text {
            Some(text) => parse_switch(text.as_str()),
            None => None,
        };
        Config::get(key.env_key(), setting.text.is_some(), found, Some(default))
    }

    /// `key`, as a way to measure.
    fn read_measurement(&self, key: Key, default: MeasurementType) -> (r: Result<
        MeasurementType,
        ConfigError,
    >)
        requires
            self.complete(),
            key.kind() == Kind::Measurement(default),
        ensures
            match r {
                Ok(v) => self.measurement(key) == Ok::<MeasurementType, ConfigErrorView>(v),
                Err(e) => self.problem(key) == Some(e@),
            },
            r is Ok ==> self.problem(key) is None,
    {
        let setting: &Setting = &self.given[key.index()];
        let found: Option<MeasurementType> = match &setting.text {
            Some(text) => match MeasurementType::from_str(text.as_str()) {
                Ok(t) => Some(t),
                Err(_) => None,
            },
            None => None,
        };
        Config::get(key.env_key(), setting.text.is_some(), found, Some(default))
    }

    /// `key`, as a whole number.
    fn read_whole(&self, key: Key, default: u64, max: u64) -> (r: Result<u64, ConfigError>)
        requires
            self.complete(),
            key.kind() == Kind::Whole(default, max),
            default <= max,
        ensures
            match r {
                Ok(v) => self.whole(key) == Ok::<nat, ConfigErrorView>(v as nat) && v <= max,
                Err(e) => self.problem(key) == Some(e@),
            },
            r is Ok ==> self.problem(key) is None,
    {
        let setting: &Setting = &self.given[key.index()];
        let found: Option<u64> = match &setting.text {
            Some(text) => parse_unsigned(text.as_str(), max),
            None => None,
        };
        Config::get(key.env_key(), setting.text.is_some(), found, Some(default))
    }
}

/// What each of the addresses in `reflectors` was read as.
pub open spec fn read_all(reflectors: Seq<char>) -> Seq<Option<IpAddr>> {
    tokens(reflectors).map_values(|t: Seq<char>| address_of(t))
}

/// Whether all texts were read as addresses, and `addresses` are these.
pub open spec fn loads(read: Seq<Option<IpAddr>>, addresses: Seq<IpAddr>) -> bool {
    &&& addresses.len() == read.len()
    &&& forall|i: int| 0 <= i < read.len() ==> #[trigger] read[i] == Some(addresses[i])
}

/// Whether `text` is the first in `reflectors` that was not read as an address.
pub open spec fn fails_at(
    read: Seq<Option<IpAddr>>,
    reflectors: Seq<char>,
    text: Seq<char>,
) -> bool {
    exists|i: int|
        {
            &&& 0 <= i < read.len()
            &&& #[trigger] read[i] is None
            &&& text == tokens(reflectors)[i]
            &&& forall|j: int| 0 <= j < i ==> #[trigger] read[j] is Some
        }
}

impl Config {
    /// What a setting amounts to: the value that its text was read as, `found`, the
    /// default where it has no text, or an error with the name of the setting.
    pub fn get<T>(env_key: &str, given: bool, found: Option<T>, default: Option<T>) -> (r: Result<
        T,
        ConfigError,
    >)
        ensures
            match resolved(env_key@, given, found, default) {
                Ok(v) => r == Ok::<T, ConfigError>(v),
                Err(e) => r is Err && r->Err_0@ == e,
            },
    {
        if given {
            match found {
                Some(v) => Ok(v),
                None => Err(ConfigError::ParseError(env_key.to_owned())),
            }
        } else {
            match default {
                Some(v) => Ok(v),
                None => Err(ConfigError::MissingValue(env_key.to_owned())),
            }
        }
    }

    /// The text of a setting: the environment goes before the router's configuration.
    pub fn get_value(env: Option<String>, uci: Option<String>) -> (r: Option<String>)
        ensures
            r == (if env is Some {
                env
            } else {
                uci
            }),
    {
        match env {
            Some(text) => Some(text),
            None => uci,
        }
    }

    /// Reads all settings. The error is that of the first setting, in reading order, with
    /// which something is wrong.
    pub fn new(settings: &Settings) -> (r: Result<Config, ConfigError>)
        requires
            settings.complete(),
        ensures
            match r {
                Ok(config) => settings.sound() && holds(config, settings),
                Err(e) => exists|i: int|
                    {
                        &&& 0 <= i < KEYS
                        &&& settings.problem(#[trigger] key_at(i)) == Some(e@)
                        &&& settings.sound_before(i)
                    },
            },
    {
        let download_base_kbits: Float64 = match settings.read_double(
            Key::DownloadBaseKbits,
            None,
        ) {
            Ok(v) => v,
            Err(e) => {
                assert(settings.problem(key_at(0)) == Some(e@));
                return Err(e);
            },
        };
        assert(settings.sound_before(1));
        let download_interface: String = match settings.read_words(Key::DownloadInterface, None) {
            Ok(v) => v,
            Err(e) => {
                assert(settings.problem(key_at(1)) == Some(e@));
                return Err(e);
            },
        };
        assert(settings.sound_before(2));
        let download_max_kbits: Float64 = match settings.read_double(
            Key::DownloadMaxKbits,
            Some(Float64 { bits: ZERO }),
        ) {
            Ok(v) => v,
            Err(e) => {
                assert(settings.problem(key_at(2)) == Some(e@));
                return Err(e);
            },
        };
        assert(settings.sound_before(3));
        let download_min_kbits: Float64 = match settings.read_double(
            Key::DownloadMinKbits,
            Some(Float64 { bits: THOUSAND }),
        ) {
            Ok(v) => v,
            Err(e) => {
                assert(settings.problem(key_at(3)) == Some(e@));
                return Err(e);
            },
        };
        assert(settings.sound_before(4));
        let upload_base_kbits: Float64 = match settings.read_double(Key::UploadBaseKbits, None) {
            Ok(v) => v,
            Err(e) => {
                assert(settings.problem(key_at(4)) == Some(e@));
                return Err(e);
            },
        };
        assert(settings.sound_before(5));
        let upload_interface: String = match settings.read_words(Key::UploadInterface, None) {
            Ok(v) => v,
            Err(e) => {
                assert(settings.problem(key_at(5)) == Some(e@));
                return Err(e);
            },
        };
        assert(settings.sound_before(6));
        let upload_max_kbits: Float64 = match settings.read_double(
            Key::UploadMaxKbits,
            Some(Float64 { bits: ZERO }),
        ) {
            Ok(v) => v,
            Err(e) => {
                assert(settings.problem(key_at(6)) == Some(e@));
                return Err(e);
            },
        };
        assert(settings.sound_before(7));
        let upload_min_kbits: Float64 = match settings.read_double(
            Key::UploadMinKbits,
            Some(Float64 { bits: THOUSAND }),
        ) {
            Ok(v) => v,
            Err(e) => {
                assert(settings.problem(key_at(7)) == Some(e@));
                return Err(e);
            },
        };
        assert(settings.sound_before(8));
        let stats_file: String = match settings.read_words(
            Key::StatsFile,
            Some("/tmp/sqm-autorate.csv"),
        ) {
            Ok(v) => v,
            Err(e) => {
                assert(settings.problem(key_at(8)) == Some(e@));
                return Err(e);
            },
        };
        assert(settings.sound_before(9));
        let suppress_statistics: bool = match settings.read_switch(Key::SuppressStatistics, false) {
            Ok(v) => v,
            Err(e) => {
                assert(settings.problem(key_at(9)) == Some(e@));
                return Err(e);
            },
        };
        assert(settings.sound_before(10));
        let download_delay_ms: Float64 = match settings.read_double(
            Key::DownloadDelayMs,
            Some(Float64 { bits: TWENTY }),
        ) {
            Ok(v) => v,
            Err(e) => {
                assert(settings.problem(key_at(10)) == Some(e@));
                return Err(e);
            },
        };
        assert(settings.sound_before(11));
        let high_load_level: Float64 = match settings.read_double(
            Key::HighLoadLevel,
            Some(Float64 { bits: HALF }),
        ) {
            Ok(v) => v,
            Err(e) => {
                assert(settings.problem(key_at(11)) == Some(e@));
                return Err(e);
            },
        };
        assert(settings.sound_before(12));
        let measurement_type: MeasurementType = match settings.read_measurement(
            Key::MeasurementType,
            MeasurementType::IcmpTimestamps,
        ) {
            Ok(v) => v,
            Err(e) => {
                assert(settings.problem(key_at(12)) == Some(e@));
                return Err(e);
            },
        };
        assert(settings.sound_before(13));
        let min_change_interval: Float64 = match settings.read_double(
            Key::MinChangeInterval,
            Some(Float64 { bits: HALF }),
        ) {
            Ok(v) => v,
            Err(e) => {
                assert(settings.problem(key_at(13)) == Some(e@));
                return Err(e);
            },
        };
        assert(settings.sound_before(14));
        let num_reflectors: u64 = match settings.read_whole(Key::NumReflectors, 5, 255) {
            Ok(v) => v,
            Err(e) => {
                assert(settings.problem(key_at(14)) == Some(e@));
                return Err(e);
            },
        };
        assert(settings.sound_before(15));
        let peer_reselection_time: u64 = match settings.read_whole(
            Key::PeerReselectionTime,
            15,
            u64::MAX,
        ) {
            Ok(v) => v,
            Err(e) => {
                assert(settings.problem(key_at(15)) == Some(e@));
                return Err(e);
            },
        };
        assert(settings.sound_before(16));
        let reflectors: String = match settings.read_words(Key::Reflectors, Some("")) {
            Ok(v) => v,
            Err(e) => {
                assert(settings.problem(key_at(16)) == Some(e@));
                return Err(e);
            },
        };
        assert(settings.sound_before(17));
        let tick_interval: Float64 = match settings.read_double(
            Key::TickInterval,
            Some(Float64 { bits: HALF }),
        ) {
            Ok(v) => v,
            Err(e) => {
                assert(settings.problem(key_at(17)) == Some(e@));
                return Err(e);
            },
        };
        assert(settings.sound_before(18));
        let upload_delay_ms: Float64 = match settings.read_double(
            Key::UploadDelayMs,
            Some(Float64 { bits: TWENTY }),
        ) {
            Ok(v) => v,
            Err(e) => {
                assert(settings.problem(key_at(18)) == Some(e@));
                return Err(e);
            },
        };
        assert(settings.sound_before(19));
        let increase_step_kbits: Float64 = match settings.read_double(
            Key::IncreaseStepKbits,
            Some(Float64 { bits: FIVE_THOUSAND }),
        ) {
            Ok(v) => v,
            Err(e) => {
                assert(settings.problem(key_at(19)) == Some(e@));
                return Err(e);
            },
        };
        assert(settings.sound_before(20));
        let decrease_multiplier: Float64 = match settings.read_double(
            Key::DecreaseMultiplier,
            Some(Float64 { bits: EIGHTY_FIVE_PERCENT }),
        ) {
            Ok(v) => v,
            Err(e) => {
                assert(settings.problem(key_at(20)) == Some(e@));
                return Err(e);
            },
        };
        assert(settings.sound_before(21));
        let cooldown_secs: Float64 = match settings.read_double(
            Key::CooldownSecs,
            Some(Float64 { bits: TEN }),
        ) {
            Ok(v) => v,
            Err(e) => {
                assert(settings.problem(key_at(21)) == Some(e@));
                return Err(e);
            },
        };
        assert(settings.sound_before(22));
        let unlimited: Float64 = Float64 { bits: UNLIMITED };
        let zero: Float64 = Float64 { bits: ZERO };
        Ok(
            Config {
                download_interface,
                upload_interface,
                download_base_kbits: if download_base_kbits.equals(zero) {
                    unlimited
                } else {
                    download_base_kbits
                },
                download_max_kbits,
                download_min_kbits,
                upload_base_kbits: if upload_base_kbits.equals(zero) {
                    unlimited
                } else {
                    upload_base_kbits
                },
                upload_max_kbits,
                upload_min_kbits,
                stats_file,
                suppress_statistics,
                download_delay_ms,
                high_load_level,
                min_change_interval,
                measurement_type,
                num_reflectors: to_byte(num_reflectors),
                peer_reselection_time,
                reflectors,
                tick_interval,
                upload_delay_ms,
                increase_step_kbits,
                decrease_multiplier,
                cooldown_secs,
            },
        )
    }

    /// The addresses of reflectors, as they were given: one text for each.
    pub fn reflector_tokens(&self) -> (r: Vec<String>)
        ensures
            r@.map_values(|t: String| t@) == tokens(self.reflectors@),
    {
        split_list(self.reflectors.as_str())
    }

    /// The reflectors that were given. The error is the first text that is no address.
    pub fn load_reflectors(&self) -> (r: Result<Vec<IpAddr>, String>)
        ensures
            match r {
                Ok(addresses) => loads(read_all(self.reflectors@), addresses@),
                Err(text) => fails_at(read_all(self.reflectors@), self.reflectors@, text@),
            },
    {
        let texts: Vec<String> = self.reflector_tokens();
        let ghost views = texts@.map_values(|t: String| t@);
        let mut read: Vec<Option<IpAddr>> = Vec::new();
        let mut i: usize = 0;
        while i < texts.len()
            invariant
                i <= texts.len(),
                views == texts@.map_values(|t: String| t@),
                read@ == views.take(i as int).map_values(|t: Seq<char>| address_of(t)),
            decreases texts.len() - i,
        {
            read.push(parse_address(texts[i].as_str()));
            assert(views.take(i + 1) == views.take(i as int).push(views[i as int]));
            i = i + 1;
        }
        assert(views.take(i as int) == views);
        self.collect_reflectors(&read)
    }

    /// The reflectors that were given. `read` holds what each of `reflector_tokens` was
    /// read as, `None` standing for what is no address. The error is the first text that
    /// is no address.
    pub fn collect_reflectors(&self, read: &Vec<Option<IpAddr>>) -> (r: Result<
        Vec<IpAddr>,
        String,
    >)
        requires
            read@.len() == tokens(self.reflectors@).len(),
        ensures
            match r {
                Ok(addresses) => loads(read@, addresses@),
                Err(text) => fails_at(read@, self.reflectors@, text@),
            },
    {
        let mut addresses: Vec<IpAddr> = Vec::new();
        let mut i: usize = 0;
        while i < read.len()
            invariant
                i <= read.len(),
                read@.len() == tokens(self.reflectors@).len(),
                addresses@.len() == i,
                forall|j: int| 0 <= j < i ==> #[trigger] read@[j] == Some(addresses@[j]),
            decreases read.len() - i,
        {
            match read[i] {
                Some(address) => {
                    addresses.push(address);
                },
                None => {
                    let texts: Vec<String> = self.reflector_tokens();
                    let text: String = texts[i].clone();
                    assert(texts@.map_values(|t: String| t@)[i as int] == text@);
                    return Err(text);
                },
            }
            i = i + 1;
        }
        Ok(addresses)
    }
}

} // verus!
