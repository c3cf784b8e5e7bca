//! What the settings promise: each one is given by the variable of its name, and by no other.
use crate::config::{
    holds, key_at, measurement_type, switch_position, Config, ConfigErrorView, Key, MeasurementType,
    Settings, EIGHTY_FIVE_PERCENT, FIVE_THOUSAND, HALF, KEYS, TEN, THOUSAND, TWENTY, UNLIMITED,
    ZERO,
};
use crate::float64::{lemma_magnitude_split, lemma_value_order, magnitude, unit, Float64};
use crate::precision::near;
use crate::text::{lowercase, trimmed, unsigned_value};
use vstd::arithmetic::power2::{
    lemma2_to64, lemma2_to64_rest, lemma_pow2_adds, lemma_pow2_pos, pow2,
};
use vstd::prelude::*;

verus! {

/// What tells the names of the settings apart: the length, and one character.
spec fn print(name: Seq<char>) -> (nat, char) {
    (name.len(), name[name.len() - 8])
}

/// Each setting has a name of its own.
proof fn lemma_names_differ(i: int, j: int)
    requires
        0 <= i < KEYS,
        0 <= j < KEYS,
        key_at(i).env_name() == key_at(j).env_name(),
    ensures
        i == j,
{
    lemma_prints(i);
    lemma_prints(j);
}

/// How the names of the settings look.
proof fn lemma_prints(i: int)
    requires
        0 <= i < KEYS,
    ensures
        print(key_at(i).env_name()) == printed(i),
{
    reveal_strlit("SQMA_DOWNLOAD_BASE_KBITS");
    reveal_strlit("SQMA_DOWNLOAD_INTERFACE");
    reveal_strlit("SQMA_DOWNLOAD_MAX_KBITS");
    reveal_strlit("SQMA_DOWNLOAD_MIN_KBITS");
    reveal_strlit("SQMA_UPLOAD_BASE_KBITS");
    reveal_strlit("SQMA_UPLOAD_INTERFACE");
    reveal_strlit("SQMA_UPLOAD_MAX_KBITS");
    reveal_strlit("SQMA_UPLOAD_MIN_KBITS");
    reveal_strlit("SQMA_STATS_FILE");
    reveal_strlit("SQMA_SUPPRESS_STATISTICS");
    reveal_strlit("SQMA_DOWNLOAD_DELAY_MS");
    reveal_strlit("SQMA_HIGH_LOAD_LEVEL");
    reveal_strlit("SQMA_MEASUREMENT_TYPE");
    reveal_strlit("SQMA_MIN_CHANGE_INTERVAL");
    reveal_strlit("SQMA_NUM_REFLECTORS");
    reveal_strlit("SQMA_PEER_RESELECTION_TIME");
    reveal_strlit("SQMA_REFLECTORS");
    reveal_strlit("SQMA_TICK_INTERVAL");
    reveal_strlit("SQMA_UPLOAD_DELAY_MS");
    reveal_strlit("SQMA_INCREASE_STEP_KBITS");
    reveal_strlit("SQMA_DECREASE_MULTIPLIER");
    reveal_strlit("SQMA_COOLDOWN_SECS");
}

/// How the name of the setting with a given number looks.
spec fn printed(i: int) -> (nat, char) {
    if i == 0 {
        (24nat, 'S')
    } else if i == 1 {
        (23nat, 'N')
    } else if i == 2 {
        (23nat, 'A')
    } else if i == 3 {
        (23nat, 'I')
    } else if i == 4 {
        (22nat, 'S')
    } else if i == 5 {
        (21nat, 'N')
    } else if i == 6 {
        (21nat, 'A')
    } else if i == 7 {
        (21nat, 'I')
    } else if i == 8 {
        (15nat, 'A')
    } else if i == 9 {
        (24nat, 'A')
    } else if i == 10 {
        (22nat, 'D')
    } else if i == 11 {
        (20nat, 'A')
    } else if i == 12 {
        (21nat, 'E')
    } else if i == 13 {
        (24nat, 'I')
    } else if i == 14 {
        (19nat, 'F')
    } else if i == 15 {
        (26nat, 'I')
    } else if i == 16 {
        (15nat, 'F')
    } else if i == 17 {
        (18nat, 'I')
    } else if i == 18 {
        (20nat, 'D')
    } else if i == 19 {
        (24nat, 'E')
    } else if i == 20 {
        (24nat, 'L')
    } else {
        (18nat, 'O')
    }
}

/// The setting that has the name of setting `j` is setting `j`.
proof fn lemma_by_name(i: int)
    requires
        0 <= i < KEYS,
    ensures
        forall|j: int|
            0 <= j < KEYS && #[trigger] key_at(j).env_name() == key_at(i).env_name() ==> i == j,
{
    assert forall|j: int|
        0 <= j < KEYS && #[trigger] key_at(j).env_name() == key_at(i).env_name() implies i == j by {
        lemma_names_differ(i, j);
    }
}

/// Where the variable with the name of a number is given as a double, the configuration holds
/// that double under the same name. A base rate of zero stands for ten million.
pub proof fn law_numbers_go_by_name(settings: &Settings, config: Config, i: int, number: Float64)
    requires
        settings.complete(),
        holds(config, settings),
        0 <= i < KEYS,
        settings.given@[i].text is Some,
        settings.given@[i].number == Some(number),
    ensures
        ({
            let name = key_at(i).env_name();
            &&& name == "SQMA_DOWNLOAD_BASE_KBITS"@ ==> if !number.nan() && number.value() == 0 {
                config.download_base_kbits.finite() && config.download_base_kbits.value()
                    == 10_000_000 * unit()
            } else {
                config.download_base_kbits == number
            }
            &&& name == "SQMA_DOWNLOAD_MAX_KBITS"@ ==> config.download_max_kbits == number
            &&& name == "SQMA_DOWNLOAD_MIN_KBITS"@ ==> config.download_min_kbits == number
            &&& name == "SQMA_UPLOAD_BASE_KBITS"@ ==> if !number.nan() && number.value() == 0 {
                config.upload_base_kbits.finite() && config.upload_base_kbits.value()
                    == 10_000_000 * unit()
            } else {
                config.upload_base_kbits == number
            }
            &&& name == "SQMA_UPLOAD_MAX_KBITS"@ ==> config.upload_max_kbits == number
            &&& name == "SQMA_UPLOAD_MIN_KBITS"@ ==> config.upload_min_kbits == number
            &&& name == "SQMA_DOWNLOAD_DELAY_MS"@ ==> config.download_delay_ms == number
            &&& name == "SQMA_HIGH_LOAD_LEVEL"@ ==> config.high_load_level == number
            &&& name == "SQMA_MIN_CHANGE_INTERVAL"@ ==> config.min_change_interval == number
            &&& name == "SQMA_TICK_INTERVAL"@ ==> config.tick_interval == number
            &&& name == "SQMA_UPLOAD_DELAY_MS"@ ==> config.upload_delay_ms == number
            &&& name == "SQMA_INCREASE_STEP_KBITS"@ ==> config.increase_step_kbits == number
            &&& name == "SQMA_DECREASE_MULTIPLIER"@ ==> config.decrease_multiplier == number
            &&& name == "SQMA_COOLDOWN_SECS"@ ==> config.cooldown_secs == number
        }),
{
    lemma_by_name(i);
    assert(key_at(0).env_name() == "SQMA_DOWNLOAD_BASE_KBITS"@);
    assert(key_at(1).env_name() == "SQMA_DOWNLOAD_INTERFACE"@);
    assert(key_at(2).env_name() == "SQMA_DOWNLOAD_MAX_KBITS"@);
    assert(key_at(3).env_name() == "SQMA_DOWNLOAD_MIN_KBITS"@);
    assert(key_at(4).env_name() == "SQMA_UPLOAD_BASE_KBITS"@);
    assert(key_at(5).env_name() == "SQMA_UPLOAD_INTERFACE"@);
    assert(key_at(6).env_name() == "SQMA_UPLOAD_MAX_KBITS"@);
    assert(key_at(7).env_name() == "SQMA_UPLOAD_MIN_KBITS"@);
    assert(key_at(8).env_name() == "SQMA_STATS_FILE"@);
    assert(key_at(9).env_name() == "SQMA_SUPPRESS_STATISTICS"@);
    assert(key_at(10).env_name() == "SQMA_DOWNLOAD_DELAY_MS"@);
    assert(key_at(11).env_name() == "SQMA_HIGH_LOAD_LEVEL"@);
    assert(key_at(12).env_name() == "SQMA_MEASUREMENT_TYPE"@);
    assert(key_at(13).env_name() == "SQMA_MIN_CHANGE_INTERVAL"@);
    assert(key_at(14).env_name() == "SQMA_NUM_REFLECTORS"@);
    assert(key_at(15).env_name() == "SQMA_PEER_RESELECTION_TIME"@);
    assert(key_at(16).env_name() == "SQMA_REFLECTORS"@);
    assert(key_at(17).env_name() == "SQMA_TICK_INTERVAL"@);
    assert(key_at(18).env_name() == "SQMA_UPLOAD_DELAY_MS"@);
    assert(key_at(19).env_name() == "SQMA_INCREASE_STEP_KBITS"@);
    assert(key_at(20).env_name() == "SQMA_DECREASE_MULTIPLIER"@);
    assert(key_at(21).env_name() == "SQMA_COOLDOWN_SECS"@);
    lemma_constants();
    lemma_value_order(number, number);
    assert(magnitude(0) == 0);
}

/// Where the variable with the name of a text is given, the configuration holds that text
/// under the same name.
pub proof fn law_texts_go_by_name(settings: &Settings, config: Config, i: int)
    requires
        settings.complete(),
        holds(config, settings),
        0 <= i < KEYS,
        settings.given@[i].text is Some,
    ensures
        ({
            let name = key_at(i).env_name();
            let text = settings.given@[i].text->0@;
            &&& name == "SQMA_DOWNLOAD_INTERFACE"@ ==> config.download_interface@ == text
            &&& name == "SQMA_UPLOAD_INTERFACE"@ ==> config.upload_interface@ == text
            &&& name == "SQMA_STATS_FILE"@ ==> config.stats_file@ == text
            &&& name == "SQMA_REFLECTORS"@ ==> config.reflectors@ == text
        }),
{
    lemma_by_name(i);
    assert(key_at(0).env_name() == "SQMA_DOWNLOAD_BASE_KBITS"@);
    assert(key_at(1).env_name() == "SQMA_DOWNLOAD_INTERFACE"@);
    assert(key_at(2).env_name() == "SQMA_DOWNLOAD_MAX_KBITS"@);
    assert(key_at(3).env_name() == "SQMA_DOWNLOAD_MIN_KBITS"@);
    assert(key_at(4).env_name() == "SQMA_UPLOAD_BASE_KBITS"@);
    assert(key_at(5).env_name() == "SQMA_UPLOAD_INTERFACE"@);
    assert(key_at(6).env_name() == "SQMA_UPLOAD_MAX_KBITS"@);
    assert(key_at(7).env_name() == "SQMA_UPLOAD_MIN_KBITS"@);
    assert(key_at(8).env_name() == "SQMA_STATS_FILE"@);
    assert(key_at(9).env_name() == "SQMA_SUPPRESS_STATISTICS"@);
    assert(key_at(10).env_name() == "SQMA_DOWNLOAD_DELAY_MS"@);
    assert(key_at(11).env_name() == "SQMA_HIGH_LOAD_LEVEL"@);
    assert(key_at(12).env_name() == "SQMA_MEASUREMENT_TYPE"@);
    assert(key_at(13).env_name() == "SQMA_MIN_CHANGE_INTERVAL"@);
    assert(key_at(14).env_name() == "SQMA_NUM_REFLECTORS"@);
    assert(key_at(15).env_name() == "SQMA_PEER_RESELECTION_TIME"@);
    assert(key_at(16).env_name() == "SQMA_REFLECTORS"@);
    assert(key_at(17).env_name() == "SQMA_TICK_INTERVAL"@);
    assert(key_at(18).env_name() == "SQMA_UPLOAD_DELAY_MS"@);
    assert(key_at(19).env_name() == "SQMA_INCREASE_STEP_KBITS"@);
    assert(key_at(20).env_name() == "SQMA_DECREASE_MULTIPLIER"@);
    assert(key_at(21).env_name() == "SQMA_COOLDOWN_SECS"@);
}

/// Where the variable with the name of a whole number, of a switch or of the way to measure is
/// given, the configuration holds under the same name what the text says.
pub proof fn law_words_go_by_name(settings: &Settings, config: Config, i: int)
    requires
        settings.complete(),
        holds(config, settings),
        0 <= i < KEYS,
        settings.given@[i].text is Some,
    ensures
        ({
            let name = key_at(i).env_name();
            let text = settings.given@[i].text->0@;
            let word = lowercase(trimmed(text));
            let way = lowercase(text);
            &&& name == "SQMA_NUM_REFLECTORS"@ ==> unsigned_value(text) is Some
                && unsigned_value(text)->0 == config.num_reflectors
            &&& name == "SQMA_PEER_RESELECTION_TIME"@ ==> unsigned_value(text) is Some
                && unsigned_value(text)->0 == config.peer_reselection_time
            &&& name == "SQMA_SUPPRESS_STATISTICS"@ && (word == "1"@ || word == "true"@ || word
                == "on"@ || word == "yes"@) ==> config.suppress_statistics
            &&& name == "SQMA_SUPPRESS_STATISTICS"@ && (word == "0"@ || word == "false"@ || word
                == "off"@ || word == "no"@) ==> !config.suppress_statistics
            &&& name == "SQMA_MEASUREMENT_TYPE"@ && way == "icmp"@ ==> config.measurement_type
                == MeasurementType::Icmp
            &&& name == "SQMA_MEASUREMENT_TYPE"@ && way == "icmp-timestamps"@
                ==> config.measurement_type == MeasurementType::IcmpTimestamps
            &&& name == "SQMA_MEASUREMENT_TYPE"@ && way == "ntp"@ ==> config.measurement_type
                == MeasurementType::Ntp
            &&& name == "SQMA_MEASUREMENT_TYPE"@ && way == "tcp-timestamps"@
                ==> config.measurement_type == MeasurementType::TcpTimestamps
        }),
{
    lemma_by_name(i);
    assert(key_at(0).env_name() == "SQMA_DOWNLOAD_BASE_KBITS"@);
    assert(key_at(1).env_name() == "SQMA_DOWNLOAD_INTERFACE"@);
    assert(key_at(2).env_name() == "SQMA_DOWNLOAD_MAX_KBITS"@);
    assert(key_at(3).env_name() == "SQMA_DOWNLOAD_MIN_KBITS"@);
    assert(key_at(4).env_name() == "SQMA_UPLOAD_BASE_KBITS"@);
    assert(key_at(5).env_name() == "SQMA_UPLOAD_INTERFACE"@);
    assert(key_at(6).env_name() == "SQMA_UPLOAD_MAX_KBITS"@);
    assert(key_at(7).env_name() == "SQMA_UPLOAD_MIN_KBITS"@);
    assert(key_at(8).env_name() == "SQMA_STATS_FILE"@);
    assert(key_at(9).env_name() == "SQMA_SUPPRESS_STATISTICS"@);
    assert(key_at(10).env_name() == "SQMA_DOWNLOAD_DELAY_MS"@);
    assert(key_at(11).env_name() == "SQMA_HIGH_LOAD_LEVEL"@);
    assert(key_at(12).env_name() == "SQMA_MEASUREMENT_TYPE"@);
    assert(key_at(13).env_name() == "SQMA_MIN_CHANGE_INTERVAL"@);
    assert(key_at(14).env_name() == "SQMA_NUM_REFLECTORS"@);
    assert(key_at(15).env_name() == "SQMA_PEER_RESELECTION_TIME"@);
    assert(key_at(16).env_name() == "SQMA_REFLECTORS"@);
    assert(key_at(17).env_name() == "SQMA_TICK_INTERVAL"@);
    assert(key_at(18).env_name() == "SQMA_UPLOAD_DELAY_MS"@);
    assert(key_at(19).env_name() == "SQMA_INCREASE_STEP_KBITS"@);
    assert(key_at(20).env_name() == "SQMA_DECREASE_MULTIPLIER"@);
    assert(key_at(21).env_name() == "SQMA_COOLDOWN_SECS"@);
    reveal_strlit("1");
    assert("1"@.len() == 1);
    reveal_strlit("true");
    assert("true"@.len() == 4);
    reveal_strlit("on");
    assert("on"@.len() == 2);
    reveal_strlit("yes");
    assert("yes"@.len() == 3);
    reveal_strlit("0");
    assert("0"@.len() == 1);
    reveal_strlit("false");
    assert("false"@.len() == 5);
    reveal_strlit("off");
    assert("off"@.len() == 3);
    reveal_strlit("no");
    assert("no"@.len() == 2);
    reveal_strlit("icmp");
    assert("icmp"@.len() == 4);
    reveal_strlit("icmp-timestamps");
    assert("icmp-timestamps"@.len() == 15);
    reveal_strlit("ntp");
    assert("ntp"@.len() == 3);
    reveal_strlit("tcp-timestamps");
    assert("tcp-timestamps"@.len() == 14);
    // No two of the words are the same.
    assert("1"@[0] != "0"@[0]);
    assert("on"@[1] != "no"@[1]);
    assert("yes"@[0] != "off"@[0]);
    let name = key_at(i).env_name();
    let text = settings.given@[i].text->0@;
    let word = lowercase(trimmed(text));
    let way = lowercase(text);
    if name == "SQMA_SUPPRESS_STATISTICS"@ {
        assert(i == 9);
        assert(settings.text(Key::SuppressStatistics) == Some(text));
        assert(settings.switch(Key::SuppressStatistics)->Ok_0 == config.suppress_statistics);
        assert(switch_position(word, text) == Some(config.suppress_statistics));
    }
    if name == "SQMA_MEASUREMENT_TYPE"@ {
        assert(i == 12);
        assert(settings.text(Key::MeasurementType) == Some(text));
        assert(measurement_type(way) == Some(config.measurement_type));
    }
    if name == "SQMA_NUM_REFLECTORS"@ {
        assert(i == 14);
        assert(settings.text(Key::NumReflectors) == Some(text));
        assert(settings.whole(Key::NumReflectors)->Ok_0 == config.num_reflectors);
    }
    if name == "SQMA_PEER_RESELECTION_TIME"@ {
        assert(i == 15);
        assert(settings.text(Key::PeerReselectionTime) == Some(text));
        assert(settings.whole(Key::PeerReselectionTime)->Ok_0 == config.peer_reselection_time);
    }
}

/// What a setting is where its variable is not given.
pub proof fn law_defaults_go_by_name(settings: &Settings, config: Config, i: int)
    requires
        settings.complete(),
        holds(config, settings),
        0 <= i < KEYS,
        settings.given@[i].text is None,
    ensures
        ({
            let name = key_at(i).env_name();
            &&& name != "SQMA_DOWNLOAD_BASE_KBITS"@
            &&& name != "SQMA_DOWNLOAD_INTERFACE"@
            &&& name == "SQMA_DOWNLOAD_MAX_KBITS"@
                ==> config.download_max_kbits.value() == 0 * unit()
            &&& name == "SQMA_DOWNLOAD_MIN_KBITS"@
                ==> config.download_min_kbits.value() == 1000 * unit()
            &&& name != "SQMA_UPLOAD_BASE_KBITS"@
            &&& name != "SQMA_UPLOAD_INTERFACE"@
            &&& name == "SQMA_UPLOAD_MAX_KBITS"@ ==> config.upload_max_kbits.value() == 0 * unit()
            &&& name == "SQMA_UPLOAD_MIN_KBITS"@
                ==> config.upload_min_kbits.value() == 1000 * unit()
            &&& name == "SQMA_STATS_FILE"@ ==> config.stats_file@ == "/tmp/sqm-autorate.csv"@
            &&& name == "SQMA_SUPPRESS_STATISTICS"@ ==> !config.suppress_statistics
            &&& name == "SQMA_DOWNLOAD_DELAY_MS"@
                ==> config.download_delay_ms.value() == 20 * unit()
            &&& name == "SQMA_HIGH_LOAD_LEVEL"@ ==> 2 * config.high_load_level.value() == unit()
            &&& name == "SQMA_MEASUREMENT_TYPE"@ ==> config.measurement_type
                == MeasurementType::IcmpTimestamps
            &&& name == "SQMA_MIN_CHANGE_INTERVAL"@
                ==> 2 * config.min_change_interval.value() == unit()
            &&& name == "SQMA_NUM_REFLECTORS"@ ==> config.num_reflectors == 5
            &&& name == "SQMA_PEER_RESELECTION_TIME"@ ==> config.peer_reselection_time == 15
            &&& name == "SQMA_REFLECTORS"@ ==> config.reflectors@ == ""@
            &&& name == "SQMA_TICK_INTERVAL"@ ==> 2 * config.tick_interval.value() == unit()
            &&& name == "SQMA_UPLOAD_DELAY_MS"@ ==> config.upload_delay_ms.value() == 20 * unit()
            &&& name == "SQMA_INCREASE_STEP_KBITS"@
                ==> config.increase_step_kbits.value() == 5000 * unit()
            &&& name == "SQMA_DECREASE_MULTIPLIER"@ ==> near(
                config.decrease_multiplier.value(),
                1,
                17 * unit(),
                20,
                1,
            )
            &&& name == "SQMA_COOLDOWN_SECS"@ ==> config.cooldown_secs.value() == 10 * unit()
        }),
{
    lemma_by_name(i);
    assert(key_at(0).env_name() == "SQMA_DOWNLOAD_BASE_KBITS"@);
    assert(key_at(1).env_name() == "SQMA_DOWNLOAD_INTERFACE"@);
    assert(key_at(2).env_name() == "SQMA_DOWNLOAD_MAX_KBITS"@);
    assert(key_at(3).env_name() == "SQMA_DOWNLOAD_MIN_KBITS"@);
    assert(key_at(4).env_name() == "SQMA_UPLOAD_BASE_KBITS"@);
    assert(key_at(5).env_name() == "SQMA_UPLOAD_INTERFACE"@);
    assert(key_at(6).env_name() == "SQMA_UPLOAD_MAX_KBITS"@);
    assert(key_at(7).env_name() == "SQMA_UPLOAD_MIN_KBITS"@);
    assert(key_at(8).env_name() == "SQMA_STATS_FILE"@);
    assert(key_at(9).env_name() == "SQMA_SUPPRESS_STATISTICS"@);
    assert(key_at(10).env_name() == "SQMA_DOWNLOAD_DELAY_MS"@);
    assert(key_at(11).env_name() == "SQMA_HIGH_LOAD_LEVEL"@);
    assert(key_at(12).env_name() == "SQMA_MEASUREMENT_TYPE"@);
    assert(key_at(13).env_name() == "SQMA_MIN_CHANGE_INTERVAL"@);
    assert(key_at(14).env_name() == "SQMA_NUM_REFLECTORS"@);
    assert(key_at(15).env_name() == "SQMA_PEER_RESELECTION_TIME"@);
    assert(key_at(16).env_name() == "SQMA_REFLECTORS"@);
    assert(key_at(17).env_name() == "SQMA_TICK_INTERVAL"@);
    assert(key_at(18).env_name() == "SQMA_UPLOAD_DELAY_MS"@);
    assert(key_at(19).env_name() == "SQMA_INCREASE_STEP_KBITS"@);
    assert(key_at(20).env_name() == "SQMA_DECREASE_MULTIPLIER"@);
    assert(key_at(21).env_name() == "SQMA_COOLDOWN_SECS"@);
    lemma_constants();
}

/// A field depends on the variable of its name alone: two sets of settings that agree in this
/// variable agree in the field, whatever the other variables are.
pub proof fn law_settings_are_independent(
    a: &Settings,
    b: &Settings,
    config_a: Config,
    config_b: Config,
    i: int,
)
    requires
        a.complete(),
        b.complete(),
        holds(config_a, a),
        holds(config_b, b),
        0 <= i < KEYS,
        a.given@[i].text is Some == b.given@[i].text is Some,
        a.given@[i].text is Some ==> a.given@[i].text->0@ == b.given@[i].text->0@,
        a.given@[i].number == b.given@[i].number,
    ensures
        ({
            let name = key_at(i).env_name();
            &&& name == "SQMA_DOWNLOAD_BASE_KBITS"@ ==> config_a.download_base_kbits
                == config_b.download_base_kbits
            &&& name == "SQMA_DOWNLOAD_INTERFACE"@ ==> config_a.download_interface@
                == config_b.download_interface@
            &&& name == "SQMA_DOWNLOAD_MAX_KBITS"@ ==> config_a.download_max_kbits
                == config_b.download_max_kbits
            &&& name == "SQMA_DOWNLOAD_MIN_KBITS"@ ==> config_a.download_min_kbits
                == config_b.download_min_kbits
            &&& name == "SQMA_UPLOAD_BASE_KBITS"@ ==> config_a.upload_base_kbits
                == config_b.upload_base_kbits
            &&& name == "SQMA_UPLOAD_INTERFACE"@ ==> config_a.upload_interface@
                == config_b.upload_interface@
            &&& name == "SQMA_UPLOAD_MAX_KBITS"@ ==> config_a.upload_max_kbits
                == config_b.upload_max_kbits
            &&& name == "SQMA_UPLOAD_MIN_KBITS"@ ==> config_a.upload_min_kbits
                == config_b.upload_min_kbits
            &&& name == "SQMA_STATS_FILE"@ ==> config_a.stats_file@ == config_b.stats_file@
            &&& name == "SQMA_SUPPRESS_STATISTICS"@ ==> config_a.suppress_statistics
                == config_b.suppress_statistics
            &&& name == "SQMA_DOWNLOAD_DELAY_MS"@ ==> config_a.download_delay_ms
                == config_b.download_delay_ms
            &&& name == "SQMA_HIGH_LOAD_LEVEL"@ ==> config_a.high_load_level
                == config_b.high_load_level
            &&& name == "SQMA_MEASUREMENT_TYPE"@ ==> config_a.measurement_type
                == config_b.measurement_type
            &&& name == "SQMA_MIN_CHANGE_INTERVAL"@ ==> config_a.min_change_interval
                == config_b.min_change_interval
            &&& name == "SQMA_NUM_REFLECTORS"@ ==> config_a.num_reflectors
                == config_b.num_reflectors
            &&& name == "SQMA_PEER_RESELECTION_TIME"@ ==> config_a.peer_reselection_time
                == config_b.peer_reselection_time
            &&& name == "SQMA_REFLECTORS"@ ==> config_a.reflectors@ == config_b.reflectors@
            &&& name == "SQMA_TICK_INTERVAL"@ ==> config_a.tick_interval == config_b.tick_interval
            &&& name == "SQMA_UPLOAD_DELAY_MS"@ ==> config_a.upload_delay_ms
                == config_b.upload_delay_ms
            &&& name == "SQMA_INCREASE_STEP_KBITS"@ ==> config_a.increase_step_kbits
                == config_b.increase_step_kbits
            &&& name == "SQMA_DECREASE_MULTIPLIER"@ ==> config_a.decrease_multiplier
                == config_b.decrease_multiplier
            &&& name == "SQMA_COOLDOWN_SECS"@ ==> config_a.cooldown_secs == config_b.cooldown_secs
        }),
{
    lemma_by_name(i);
    assert(key_at(0).env_name() == "SQMA_DOWNLOAD_BASE_KBITS"@);
    assert(key_at(1).env_name() == "SQMA_DOWNLOAD_INTERFACE"@);
    assert(key_at(2).env_name() == "SQMA_DOWNLOAD_MAX_KBITS"@);
    assert(key_at(3).env_name() == "SQMA_DOWNLOAD_MIN_KBITS"@);
    assert(key_at(4).env_name() == "SQMA_UPLOAD_BASE_KBITS"@);
    assert(key_at(5).env_name() == "SQMA_UPLOAD_INTERFACE"@);
    assert(key_at(6).env_name() == "SQMA_UPLOAD_MAX_KBITS"@);
    assert(key_at(7).env_name() == "SQMA_UPLOAD_MIN_KBITS"@);
    assert(key_at(8).env_name() == "SQMA_STATS_FILE"@);
    assert(key_at(9).env_name() == "SQMA_SUPPRESS_STATISTICS"@);
    assert(key_at(10).env_name() == "SQMA_DOWNLOAD_DELAY_MS"@);
    assert(key_at(11).env_name() == "SQMA_HIGH_LOAD_LEVEL"@);
    assert(key_at(12).env_name() == "SQMA_MEASUREMENT_TYPE"@);
    assert(key_at(13).env_name() == "SQMA_MIN_CHANGE_INTERVAL"@);
    assert(key_at(14).env_name() == "SQMA_NUM_REFLECTORS"@);
    assert(key_at(15).env_name() == "SQMA_PEER_RESELECTION_TIME"@);
    assert(key_at(16).env_name() == "SQMA_REFLECTORS"@);
    assert(key_at(17).env_name() == "SQMA_TICK_INTERVAL"@);
    assert(key_at(18).env_name() == "SQMA_UPLOAD_DELAY_MS"@);
    assert(key_at(19).env_name() == "SQMA_INCREASE_STEP_KBITS"@);
    assert(key_at(20).env_name() == "SQMA_DECREASE_MULTIPLIER"@);
    assert(key_at(21).env_name() == "SQMA_COOLDOWN_SECS"@);
}

/// What is wrong with a setting is told with its own name. Four settings must be given; any
/// other may be left out. A number that is not a double is wrong.
pub proof fn law_problems_go_by_name(settings: &Settings, i: int)
    requires
        settings.complete(),
        0 <= i < KEYS,
    ensures
        ({
            let name = key_at(i).env_name();
            let needed = name == "SQMA_DOWNLOAD_BASE_KBITS"@ || name == "SQMA_DOWNLOAD_INTERFACE"@
                || name == "SQMA_UPLOAD_BASE_KBITS"@ || name == "SQMA_UPLOAD_INTERFACE"@;
            let number = name == "SQMA_DOWNLOAD_BASE_KBITS"@ || name == "SQMA_DOWNLOAD_MAX_KBITS"@
                || name == "SQMA_DOWNLOAD_MIN_KBITS"@ || name == "SQMA_UPLOAD_BASE_KBITS"@
                || name == "SQMA_UPLOAD_MAX_KBITS"@ || name == "SQMA_UPLOAD_MIN_KBITS"@
                || name == "SQMA_DOWNLOAD_DELAY_MS"@ || name == "SQMA_HIGH_LOAD_LEVEL"@
                || name == "SQMA_MIN_CHANGE_INTERVAL"@ || name == "SQMA_TICK_INTERVAL"@
                || name == "SQMA_UPLOAD_DELAY_MS"@ || name == "SQMA_INCREASE_STEP_KBITS"@
                || name == "SQMA_DECREASE_MULTIPLIER"@ || name == "SQMA_COOLDOWN_SECS"@;
            let problem = settings.problem(key_at(i));
            &&& settings.given@[i].text is None ==> problem == if needed {
                Some(ConfigErrorView::MissingValue(name))
            } else {
                None
            }
            &&& settings.given@[i].text is Some && number ==> problem
                == if settings.given@[i].number is Some {
                None
            } else {
                Some(ConfigErrorView::ParseError(name))
            }
            &&& settings.given@[i].text is Some && problem is Some ==> problem == Some(
                ConfigErrorView::ParseError(name),
            )
        }),
{
    lemma_by_name(i);
    assert(key_at(0).env_name() == "SQMA_DOWNLOAD_BASE_KBITS"@);
    assert(key_at(1).env_name() == "SQMA_DOWNLOAD_INTERFACE"@);
    assert(key_at(2).env_name() == "SQMA_DOWNLOAD_MAX_KBITS"@);
    assert(key_at(3).env_name() == "SQMA_DOWNLOAD_MIN_KBITS"@);
    assert(key_at(4).env_name() == "SQMA_UPLOAD_BASE_KBITS"@);
    assert(key_at(5).env_name() == "SQMA_UPLOAD_INTERFACE"@);
    assert(key_at(6).env_name() == "SQMA_UPLOAD_MAX_KBITS"@);
    assert(key_at(7).env_name() == "SQMA_UPLOAD_MIN_KBITS"@);
    assert(key_at(8).env_name() == "SQMA_STATS_FILE"@);
    assert(key_at(9).env_name() == "SQMA_SUPPRESS_STATISTICS"@);
    assert(key_at(10).env_name() == "SQMA_DOWNLOAD_DELAY_MS"@);
    assert(key_at(11).env_name() == "SQMA_HIGH_LOAD_LEVEL"@);
    assert(key_at(12).env_name() == "SQMA_MEASUREMENT_TYPE"@);
    assert(key_at(13).env_name() == "SQMA_MIN_CHANGE_INTERVAL"@);
    assert(key_at(14).env_name() == "SQMA_NUM_REFLECTORS"@);
    assert(key_at(15).env_name() == "SQMA_PEER_RESELECTION_TIME"@);
    assert(key_at(16).env_name() == "SQMA_REFLECTORS"@);
    assert(key_at(17).env_name() == "SQMA_TICK_INTERVAL"@);
    assert(key_at(18).env_name() == "SQMA_UPLOAD_DELAY_MS"@);
    assert(key_at(19).env_name() == "SQMA_INCREASE_STEP_KBITS"@);
    assert(key_at(20).env_name() == "SQMA_DECREASE_MULTIPLIER"@);
    assert(key_at(21).env_name() == "SQMA_COOLDOWN_SECS"@);
}

/// The double with the given bits.
spec fn constant(bits: u64) -> Float64 {
    Float64 { bits }
}

/// What the constants stand for.
proof fn lemma_constants()
    ensures
        constant(ZERO).value() == 0,
        2 * constant(HALF).value() == unit(),
        constant(TEN).value() == 10 * unit(),
        constant(TWENTY).value() == 20 * unit(),
        constant(THOUSAND).value() == 1000 * unit(),
        constant(FIVE_THOUSAND).value() == 5000 * unit(),
        constant(UNLIMITED).value() == 10_000_000 * unit(),
        constant(UNLIMITED).finite(),
        near(constant(EIGHTY_FIVE_PERCENT).value(), 1, 17 * unit(), 20, 1),
{
    lemma2_to64();
    lemma2_to64_rest();
    lemma_pow2_pos(1021);
    lemma_magnitude_split(1022, 0x0);
    lemma_pow2_adds(53, 1021);
    lemma_magnitude_split(1026, 0x4000000000000);
    lemma_pow2_adds(49, 1025);
    lemma_magnitude_split(1027, 0x4000000000000);
    lemma_pow2_adds(48, 1026);
    lemma_magnitude_split(1032, 0xF400000000000);
    lemma_pow2_adds(43, 1031);
    lemma_magnitude_split(1035, 0x3880000000000);
    lemma_pow2_adds(40, 1034);
    lemma_magnitude_split(1046, 0x312D000000000);
    lemma_pow2_adds(29, 1045);
    lemma_magnitude_split(1022, 0xB333333333333);
    lemma_pow2_adds(53, 1021);
    let w = pow2(1021) as int;
    let u = unit();
    assert(constant(HALF).value() == 0x10_0000_0000_0000 * w);
    assert(u == 0x20_0000_0000_0000 * w);
    let c = constant(EIGHTY_FIVE_PERCENT).value();
    let p = 0x20_0000_0000_0000int;
    assert((p - 1) * ((17 * u) * 1) <= (c * 20) * p <= (p + 1) * ((17 * u) * 1))
        by (nonlinear_arith)
        requires
            c == 0x1B333333333333 * w,
            u == 0x20_0000_0000_0000 * w,
            p == 0x20_0000_0000_0000,
            w > 0,
    ;
}

} // verus!
