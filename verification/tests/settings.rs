use looper_pedal::config::{AppConfig, DEFAULT_MAX_LAYERS, DEFAULT_VOLUME_PCT};
use looper_pedal::settings::SettingsState;

fn devices() -> Vec<String> {
    vec!["Audient".to_string(), "iD4".to_string(), "Focusrite".to_string()]
}

fn saved() -> AppConfig {
    AppConfig {
        device_name: "iD4".to_string(),
        sample_rate: 96_000,
        input_channel: 1,
        volume_pct: 140,
        max_layers: 6,
        ..AppConfig::default()
    }
}

#[test]
fn the_saved_choice_is_pre_selected() {
    let devices = devices();
    let saved = Some(saved());
    let index = SettingsState::preferred_device(&devices, &saved);
    assert_eq!(index, 1);

    let state = SettingsState::new(None, devices, saved, vec![44_100, 48_000, 96_000], 2);
    assert_eq!(state.selected_device, 1);
    assert_eq!(state.selected_rate, 2);
    assert_eq!(state.selected_input_channel, 1);
    assert_eq!(state.volume_pct, 140);
    assert_eq!(state.max_layers, 6);

    let config = state.to_config();
    assert_eq!(config.device_name, "iD4");
    assert_eq!(config.sample_rate, 96_000);
    assert_eq!(config.input_channel, 1);
}

#[test]
fn what_the_device_no_longer_offers_falls_back_to_the_first() {
    let state = SettingsState::new(None, devices(), Some(saved()), vec![44_100, 48_000], 1);
    assert_eq!(state.selected_rate, 0, "96 kHz is gone");
    assert_eq!(state.selected_input_channel, 0, "so is the second channel");

    let unplugged = AppConfig { device_name: "Gone".to_string(), ..saved() };
    let index = SettingsState::preferred_device(&devices(), &Some(unplugged));
    assert_eq!(index, 0);
}

#[test]
fn with_nothing_saved_every_value_is_its_default() {
    let state = SettingsState::new(Some("why".to_string()), devices(), None, vec![48_000], 2);
    assert_eq!(state.selected_device, 0);
    assert_eq!(state.volume_pct, DEFAULT_VOLUME_PCT);
    assert_eq!(state.max_layers, DEFAULT_MAX_LAYERS);
    assert_eq!(state.error.as_deref(), Some("why"));
}

#[test]
fn with_no_devices_there_is_nothing_to_offer() {
    let state = SettingsState::new(None, Vec::new(), Some(saved()), vec![48_000], 2);
    assert!(state.sample_rates.is_empty());
    assert_eq!(state.input_channels, 0);
    assert!(state.selected_device_name().is_none());
    let config = state.to_config();
    assert_eq!(config.device_name, "");
    assert_eq!(config.sample_rate, 0);
}

#[test]
fn changing_device_drops_selections_that_no_longer_apply() {
    let mut state = SettingsState::new(None, devices(), Some(saved()), vec![44_100, 48_000, 96_000], 2);
    state.selected_device = 2;
    assert_eq!(state.selected_device_name().as_deref(), Some("Focusrite"));
    state.refresh_for_selected_device((vec![44_100], 8));
    assert_eq!(state.sample_rates, vec![44_100]);
    assert_eq!(state.input_channels, 8);
    assert_eq!(state.selected_rate, 0, "96 kHz is not offered any more");
    assert_eq!(state.selected_input_channel, 1, "the new device has an input 2 as well");
    assert_eq!(state.volume_pct, 140, "the value settings stay");
}

#[test]
fn a_rate_and_channel_the_new_device_offers_stay_selected() {
    let mut state = SettingsState::new(None, devices(), Some(saved()), vec![44_100, 48_000], 2);
    state.selected_rate = 1;
    state.selected_input_channel = 1;
    state.refresh_for_selected_device((vec![44_100, 48_000], 2));
    assert_eq!(state.sample_rates[state.selected_rate], 48_000);
    assert_eq!(state.selected_input_channel, 1);

    state.refresh_for_selected_device((vec![48_000, 96_000], 1));
    assert_eq!(state.selected_rate, 0, "48 kHz moved to the front of the list");
    assert_eq!(state.selected_input_channel, 0, "a mono device has no input 2");

    state.refresh_for_selected_device((Vec::new(), 0));
    assert_eq!((state.selected_rate, state.selected_input_channel), (0, 0));
}

#[test]
fn memory_is_what_the_chosen_rate_costs() {
    let state = SettingsState::new(None, devices(), Some(saved()), vec![44_100, 48_000, 96_000], 2);
    // 60 s default x 6 layers x 96000 x 4 bytes
    assert_eq!(state.loop_memory_bytes(), 60 * 6 * 96_000 * 4);
}
