use looper_pedal::hal::mock::{mock, mock_with, request, DEVICE};
use looper_pedal::hal::{
    find_backend, find_backend_named, gather_devices, route, BackendId, DeviceId, DeviceInfo,
    Direction, HalError, StreamRequest,
};

#[test]
fn a_registry_finds_a_backend_by_the_name_a_config_stored() {
    let ids = vec![mock().id()];

    assert!(find_backend_named(&ids, "mock").is_some());
    assert!(find_backend_named(&ids, "asio").is_none(), "not in this build");
}

#[test]
fn an_empty_registry_is_empty() {
    let ids: Vec<BackendId> = Vec::new();

    assert!(ids.is_empty());
    assert!(gather_devices(Vec::new()).is_empty());
    assert!(find_backend(&ids, BackendId::MOCK).is_none());
}

#[test]
fn devices_are_gathered_across_backends() {
    let (first, second) = (mock(), mock());
    let devices = gather_devices(vec![first.devices(), second.devices()]);

    assert_eq!(devices.len(), 2);
}

#[test]
fn a_backend_that_cannot_enumerate_does_not_hide_the_others() {
    // A backend whose driver is not installed, which is the normal state
    // of ASIO on a machine that has never had an interface plugged in.
    let absent: Result<Vec<DeviceInfo>, HalError> = Err(HalError::BackendUnavailable {
        backend: BackendId::ASIO,
        detail: "no driver installed".to_string(),
    });
    let working = mock();

    let devices = gather_devices(vec![absent, working.devices()]);
    assert_eq!(devices.len(), 1);
    assert_eq!(devices[0].id.backend, BackendId::MOCK);
}

#[test]
fn devices_keep_registry_order() {
    let speakers = DeviceInfo {
        id: DeviceId::new(BackendId::WASAPI, "Speakers"),
        direction: Direction::Output,
    };
    let devices = gather_devices(vec![mock().devices(), Ok(vec![speakers.clone()])]);
    assert_eq!(devices.len(), 2);
    assert_eq!(devices[0].id.name, DEVICE);
    assert_eq!(devices[1], speakers);
}

#[test]
fn an_input_and_output_from_different_backends_are_refused() {
    // They would be driven by separate clocks with no way to agree on a
    // buffer size, so this is caught before anything opens.
    let ids = vec![mock().id()];
    let crossed = StreamRequest {
        input: DeviceId::new(BackendId::MOCK, DEVICE),
        output: DeviceId::new(BackendId::WASAPI, "Speakers"),
        sample_rate: 48_000,
    };

    assert!(matches!(route(&crossed, &ids), Err(HalError::CrossBackend { .. })));
}

#[test]
fn opening_through_a_backend_that_is_not_there_says_so() {
    let ids: Vec<BackendId> = Vec::new();

    match route(&request(48_000), &ids) {
        Err(HalError::BackendUnavailable { backend, detail }) => {
            assert_eq!(backend, BackendId::MOCK);
            assert_eq!(detail, "not built into this app");
        }
        other => panic!("expected BackendUnavailable, got {other:?}"),
    }
}

#[test]
fn the_registry_opens_through_the_right_backend() {
    let backends = vec![mock_with(1, 1)];
    let ids: Vec<BackendId> = backends.iter().map(|b| b.id()).collect();

    let at = route(&request(96_000), &ids).expect("routes");
    let format = backends[at].open(&request(96_000)).expect("opens");

    assert_eq!(format.sample_rate, 96_000);
}

#[test]
fn the_first_of_two_backends_with_one_id_is_used() {
    let ids = vec![BackendId::WASAPI, BackendId::MOCK, BackendId::MOCK];
    assert_eq!(find_backend(&ids, BackendId::MOCK), Some(1));
    assert_eq!(find_backend_named(&ids, "wasapi"), Some(0));
    assert_eq!(route(&request(48_000), &ids), Ok(1));
}

#[test]
fn it_reports_one_duplex_device() {
    let backend = mock();
    let devices = backend.devices().expect("enumerates");

    assert_eq!(devices.len(), 1);
    assert_eq!(devices[0].direction, Direction::Duplex);
    assert!(devices[0].direction.can_capture() && devices[0].direction.can_play());
    assert_eq!(devices[0].id.backend, BackendId::MOCK);
}

#[test]
fn a_device_it_has_never_heard_of_is_not_found() {
    let backend = mock();
    let missing = DeviceId::new(BackendId::MOCK, "Not A Device");

    assert!(matches!(backend.caps(&missing), Err(HalError::DeviceNotFound { .. })));
}

#[test]
fn caps_report_the_channels_it_was_built_with() {
    let backend = mock_with(2, 4);
    let caps = backend.caps(&DeviceId::new(BackendId::MOCK, DEVICE)).expect("caps");

    assert_eq!(caps.input_channels, 2);
    assert_eq!(caps.output_channels, 4);
    assert!(caps.sample_rates.contains(&44_100));
}

#[test]
fn a_rate_the_device_does_not_offer_is_refused() {
    let backend = mock();

    match backend.open(&request(12_345)) {
        Err(HalError::UnsupportedConfig(text)) => {
            assert_eq!(text, "12345 Hz is not supported by 'Mock Device'");
        }
        other => panic!("expected UnsupportedConfig, got {other:?}"),
    }
}

#[test]
fn opening_does_not_start_anything() {
    // Opening is its own step: the caller reads the format and sizes its
    // buffers before a single callback runs.
    let backend = mock();
    let format = backend.open(&request(44_100)).expect("opens");

    assert_eq!(format.sample_rate, 44_100);
    assert_eq!(format.input_channels, 1);
    assert_eq!(format.output_channels, 1);
}

#[test]
fn the_granted_format_can_differ_from_the_one_asked_for() {
    // What a shared-mode endpoint does: it hands back its own mix rate
    // whatever the request said.
    let backend = mock_with(1, 1).always_grants(48_000);

    let format = backend.open(&request(96_000)).expect("opens");
    assert_eq!(format.sample_rate, 48_000);
}

#[test]
fn both_ends_have_to_name_the_device() {
    let backend = mock();
    let wrong_output = StreamRequest {
        input: DeviceId::new(BackendId::MOCK, DEVICE),
        output: DeviceId::new(BackendId::MOCK, "Elsewhere"),
        sample_rate: 48_000,
    };
    match backend.open(&wrong_output) {
        Err(HalError::DeviceNotFound { device, .. }) => assert_eq!(device, "Elsewhere"),
        other => panic!("expected DeviceNotFound, got {other:?}"),
    }
}
