use looper_pedal::config::{
    AppConfig, DEFAULT_LONG_PRESS_MS, DEFAULT_PREROLL_MS, DEFAULT_VOLUME_PCT, LATENCY_MS_MIN,
    LONG_PRESS_MS_MAX, MAX_LAYERS_MIN, PREROLL_MS_MAX, VOLUME_PCT_MAX,
};

fn unusual() -> AppConfig {
    AppConfig {
        device_name: "Line \"1\"\\2\tthree\r\n".to_string(),
        sample_rate: u32::MAX,
        input_channel: u16::MAX,
        volume_pct: 5_000,
        preroll_ms: 9_999,
        latency_ms: 0,
        max_loop_secs: 10,
        max_layers: 0,
        long_press_ms: 60_000,
    }
}

#[test]
fn what_is_written_reads_back_held_to_the_ranges() {
    let text = unusual().to_toml().expect("serializes");
    assert_eq!(text.lines().count(), 9, "one line a setting, the name escaped onto one");
    let read = AppConfig::from_toml(&text).expect("parses back");
    assert_eq!(read.device_name, "Line \"1\"\\2\tthree\r\n");
    assert_eq!(read.sample_rate, u32::MAX);
    assert_eq!(read.input_channel, u16::MAX);
    assert_eq!(read.volume_pct, VOLUME_PCT_MAX);
    assert_eq!(read.preroll_ms, PREROLL_MS_MAX);
    assert_eq!(read.latency_ms, LATENCY_MS_MIN);
    assert_eq!(read.max_loop_secs, 10);
    assert_eq!(read.max_layers, MAX_LAYERS_MIN);
    assert_eq!(read.long_press_ms, LONG_PRESS_MS_MAX);
}

#[test]
fn a_key_given_twice_is_no_config() {
    assert!(AppConfig::from_toml("device_name = \"a\"\nsample_rate = 1\nsample_rate = 2\n").is_none());
    assert!(
        AppConfig::from_toml("device_name = \"a\"\nsample_rate = 1\nfuture = 1\nfuture = 2\n").is_none(),
        "even one nobody reads"
    );
}

#[test]
fn a_setting_of_the_wrong_kind_is_no_config() {
    assert!(AppConfig::from_toml("device_name = 3\nsample_rate = 1\n").is_none());
    assert!(AppConfig::from_toml("device_name = \"a\"\nsample_rate = \"fast\"\n").is_none());
    assert!(AppConfig::from_toml("device_name = \"a\"\nsample_rate = -1\n").is_none());
    assert!(AppConfig::from_toml("device_name = \"a\"\nsample_rate = 1\ninput_channel = 70000\n").is_none());
    assert!(AppConfig::from_toml("device_name = \"a\"\nsample_rate = 1\nvolume_pct = true\n").is_none());
}

#[test]
fn windows_line_endings_read_the_same() {
    let config = AppConfig::from_toml("device_name = \"iD4\"\r\nsample_rate = 44100\r\n").expect("reads");
    assert_eq!(config.device_name, "iD4");
    assert_eq!(config.sample_rate, 44_100);
}

#[test]
fn the_old_format_keeps_what_follows_the_first_equals_sign() {
    let config = AppConfig::from_legacy("device_name=a=b\nsample_rate=+48000\ninput_channel=2\nvolume_pct=250\n")
        .expect("migrates");
    assert_eq!(config.device_name, "a=b");
    assert_eq!(config.sample_rate, 48_000, "a plus sign reads as Rust's parse reads it");
    assert_eq!(config.input_channel, 2);
    assert_eq!(config.volume_pct, VOLUME_PCT_MAX, "clamped on load");
    assert_eq!(config.long_press_ms, DEFAULT_LONG_PRESS_MS);
}

#[test]
fn the_old_format_refuses_what_does_not_parse() {
    assert!(AppConfig::from_legacy("device_name=a\nsample_rate=fast\ninput_channel=0\nvolume_pct=100\n").is_none());
    assert!(
        AppConfig::from_legacy("device_name=a\nsample_rate=1\ninput_channel=70000\nvolume_pct=100\n").is_none(),
        "a channel past u16"
    );
    assert!(
        AppConfig::from_legacy("device_name=a\nsample_rate=1\ninput_channel=0\nvolume_pct=100\n\n").is_none(),
        "an empty line has no equals sign"
    );
    let later = AppConfig::from_legacy(
        "device_name=a\nsample_rate=1\ninput_channel=0\nvolume_pct=100\nsample_rate=x\n",
    );
    assert!(later.is_none(), "a later line for the same key replaces an earlier one");
}

#[test]
fn loading_reads_toml_and_falls_back_to_the_old_format() {
    let toml = AppConfig::parse("device_name = \"iD4\"\nsample_rate = 44100\n").expect("toml");
    assert_eq!(toml.preroll_ms, DEFAULT_PREROLL_MS);
    let old = AppConfig::parse("device_name=iD4\nsample_rate=44100\ninput_channel=0\nvolume_pct=90\npreroll_ms=10\n")
        .expect("old");
    assert_eq!(old.volume_pct, 90);
    assert_eq!(old.preroll_ms, 10);
    assert!(AppConfig::parse("neither\n").is_none());
}

#[test]
fn a_fresh_install_starts_from_the_defaults() {
    let fresh = AppConfig::default();
    assert_eq!(fresh.device_name, "");
    assert_eq!(fresh.sample_rate, 0);
    assert_eq!(fresh.volume_pct, DEFAULT_VOLUME_PCT);
    assert_eq!(fresh.loop_memory_bytes(), 0, "no rate, no memory");
    let copy = fresh.duplicate();
    assert_eq!(copy.long_press_ms, fresh.long_press_ms);
}

#[test]
fn clamping_leaves_values_in_range_alone() {
    let mut config = AppConfig::default();
    config.max_layers = 3;
    config.latency_ms = 20;
    let held = config.clamped();
    assert_eq!(held.max_layers, 3);
    assert_eq!(held.latency_ms, 20);
}

#[test]
fn any_toml_beside_the_settings_is_skipped() {
    let text = "# settings\n\
                device_name = \"iD4\"\n\
                sample_rate = 48000\n\
                future_float = 1.5\n\
                future_list = [1, 2]\n\
                future_literal = 'x'\n\
                \"quoted key\" = 1\n\
                a.b = 2\n\
                inline = { x = 1, y = [2, 3] }\n\
                when = 1979-05-27T07:32:00Z\n\
                long_list = [\n\
                  1, # a comment inside\n\
                  \"two ]\",\n\
                ]\n\
                text = \"\"\"\n\
                sample_rate = 1\n\
                \"\"\"\n\
                raw = '''\n\
                device_name = \"other\"\n\
                '''\n";
    let config = AppConfig::from_toml(text).expect("valid TOML with the two settings reads");
    assert_eq!(config.device_name, "iD4");
    assert_eq!(config.sample_rate, 48_000);
    assert_eq!(config.volume_pct, DEFAULT_VOLUME_PCT);
}

#[test]
fn pairs_under_a_table_header_are_not_settings() {
    let text = "device_name = \"iD4\"\nsample_rate = 44100\n\n[extra]\ndevice_name = \"other\"\nsample_rate = 1\nvolume_pct = \"loud\"\n";
    let config = AppConfig::from_toml(text).expect("the top-level settings read");
    assert_eq!(config.device_name, "iD4");
    assert_eq!(config.sample_rate, 44_100);
    assert_eq!(config.volume_pct, DEFAULT_VOLUME_PCT);
    assert!(
        AppConfig::from_toml("[pedal]\ndevice_name = \"iD4\"\nsample_rate = 44100\n").is_none(),
        "settings only inside a table are missing at the top"
    );
}

#[test]
fn quoted_keys_and_literal_strings_give_settings() {
    let config = AppConfig::from_toml("\"device_name\" = 'C:\\iD4'\n'sample_rate' = 96000\n")
        .expect("reads");
    assert_eq!(config.device_name, "C:\\iD4");
    assert_eq!(config.sample_rate, 96_000);
}

#[test]
fn a_value_left_open_at_the_end_is_no_config() {
    assert!(AppConfig::from_toml("device_name = \"iD4\"\nsample_rate = 44100\nlist = [1,\n2,\n").is_none());
    assert!(AppConfig::from_toml("device_name = \"iD4\"\nsample_rate = 44100\ntext = '''\nnever closed\n").is_none());
}

#[test]
fn a_setting_written_as_another_kind_of_value_is_no_config() {
    assert!(AppConfig::from_toml("device_name = \"iD4\"\nsample_rate = 44100.0\n").is_none());
    assert!(AppConfig::from_toml("device_name = [\"iD4\"]\nsample_rate = 44100\n").is_none());
}

#[test]
fn a_setting_may_be_written_in_hexadecimal_octal_or_binary() {
    let config = AppConfig::from_toml("device_name = \"iD4\"\nsample_rate = 0xBB80\nvolume_pct = 0b110_0100\npreroll_ms = 0o11610\n")
        .expect("reads");
    assert_eq!(config.sample_rate, 48_000);
    assert_eq!(config.volume_pct, 100);
    assert_eq!(config.preroll_ms, 5_000);
    assert!(AppConfig::from_toml("device_name = \"iD4\"\nsample_rate = 0x1_0000_0000\n").is_none(), "past a u32");
}
