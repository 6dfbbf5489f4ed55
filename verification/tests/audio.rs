use castavox_core::audio::{
    list_input_devices, open_device, pick_config, Choice, ConfigRange, Found, TARGET_SAMPLE_RATE,
};

fn range(min: u32, max: u32, channels: u16) -> ConfigRange {
    ConfigRange { min_sample_rate: min, max_sample_rate: max, channels }
}

#[test]
fn the_fewest_channels_that_reach_the_rate_win() {
    let ranges = [
        range(44_100, 48_000, 1),
        range(8_000, 48_000, 2),
        range(TARGET_SAMPLE_RATE, TARGET_SAMPLE_RATE, 1),
        range(8_000, 96_000, 1),
    ];
    assert_eq!(pick_config(&ranges), Some(2));
    assert_eq!(pick_config(&ranges[..2]), Some(1));
    assert_eq!(pick_config(&ranges[..1]), None);
}

#[test]
fn a_microphone_that_is_gone_is_replaced_by_the_default() {
    assert_eq!(open_device(Some("usb"), true), Choice::Saved);
    assert_eq!(open_device(Some("usb"), false), Choice::DefaultInstead);
    assert_eq!(open_device(Some(""), true), Choice::Default);
    assert_eq!(open_device(None, true), Choice::Default);
}

#[test]
fn only_devices_that_can_be_used_are_offered() {
    let found = |id: Option<&str>, name: &str, usable: bool| Found {
        id: id.map(String::from),
        name: name.into(),
        usable,
    };
    let offered = list_input_devices(
        &[
            found(Some("a"), "Desk mic", true),
            found(None, "Ghost", true),
            found(Some("b"), "Broken", false),
            found(Some("c"), "Laptop", true),
        ],
        Some("c"),
    );
    let names: Vec<(String, bool)> =
        offered.into_iter().map(|d| (d.name, d.is_default)).collect();
    assert_eq!(names, vec![("Desk mic".to_string(), false), ("Laptop".to_string(), true)]);
}
