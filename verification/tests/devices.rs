use murmur::hotkey::{Hotkey, CTRL_RIGHT, FN, TALK_KEYS};
use murmur::recorder::{
    check_format, choose_device, DeviceChoice, FoundDevice, InputDevice, Opened, Recorder,
};
use murmur::tray::{fixed_items, FixedItem, Tray, TrayAction};

#[test]
fn talk_keys_are_the_bits_of_the_listener() {
    assert_eq!(CTRL_RIGHT, handy_keys::Modifiers::CTRL_RIGHT.bits());
    assert_eq!(FN, handy_keys::Modifiers::FN.bits());
    assert_eq!(
        TALK_KEYS,
        (handy_keys::Modifiers::CTRL_RIGHT | handy_keys::Modifiers::FN).bits()
    );
}

#[test]
fn the_key_goes_down_and_up() {
    let mut key = Hotkey::new();
    assert!(!key.is_pressed());
    assert!(key.on_event(true, CTRL_RIGHT));
    assert!(key.is_pressed());
    assert!(!key.on_event(true, CTRL_RIGHT));
    assert!(!key.on_event(false, CTRL_RIGHT | 1));
    assert!(key.is_pressed());
    assert!(key.on_event(false, 0));
    assert!(!key.is_pressed());
    assert!(!key.on_event(false, 0));
}

#[test]
fn other_keys_do_not_talk() {
    let mut key = Hotkey::new();
    let others = handy_keys::Modifiers::all().bits() & !TALK_KEYS;
    assert!(!key.on_event(true, others));
    assert!(!key.on_event(false, FN));
    assert!(key.on_event(true, FN | others));
    assert!(key.on_event(true, others));
    assert!(!key.is_pressed());
}

fn found(id: Option<&str>, name: &str, supports_input: bool) -> FoundDevice {
    FoundDevice { id: id.map(|s| s.to_string()), name: name.to_string(), supports_input }
}

fn listed(list: &[Known], default: Option<&str>) -> Vec<(String, String, bool)> {
    let all = list.iter().map(|(id, name, can)| found(*id, name, *can)).collect();
    Recorder::<f32>::list_devices(&all, &default.map(|s| s.to_string()))
        .into_iter()
        .map(|d| (d.id, d.name, d.is_default))
        .collect()
}

type Known = (Option<&'static str>, &'static str, bool);

#[test]
fn devices_that_record_are_listed() {
    let all: [Known; 4] = [
        (Some("a"), "Mic", true),
        (Some("b"), "Speaker", false),
        (None, "Odd", true),
        (Some("c"), "Headset", true),
    ];
    assert_eq!(
        listed(&all, Some("c")),
        vec![
            ("a".to_string(), "Mic".to_string(), false),
            (String::new(), "Odd".to_string(), false),
            ("c".to_string(), "Headset".to_string(), true),
        ]
    );
    assert_eq!(listed(&all, None)[1], (String::new(), "Odd".to_string(), true));
}

#[test]
fn the_default_device_is_preferred() {
    assert_eq!(choose_device(true, None), Ok(DeviceChoice::Default));
    assert_eq!(
        choose_device(false, Some(&vec![false, true, true])),
        Ok(DeviceChoice::Listed(1))
    );
    let none = Err("no input device available".to_string());
    assert_eq!(choose_device(false, Some(&vec![false])), none);
    assert_eq!(choose_device(false, None), none);
}

#[test]
fn one_format_is_supported() {
    assert_eq!(check_format(true, "F32"), Ok(()));
    assert_eq!(check_format(false, "I16"), Err("unsupported sample format: I16".to_string()));
}

#[test]
fn audio_comes_out_once_and_in_order() {
    let mut recorder: Recorder<f32> = Recorder::new(Some("mic".into()), 48_000);
    assert_eq!(recorder.current_device(), "mic");
    assert_eq!(recorder.sample_rate(), 48_000);
    assert_eq!(recorder.poll(vec![vec![0.5], vec![0.25, 0.125]]), Some(vec![0.25, 0.125]));
    assert_eq!(recorder.poll(vec![]), None);
    assert_eq!(recorder.stop(Err("busy".into()), vec![vec![9.0]]), Err("busy".to_string()));
    assert_eq!(
        recorder.stop(Ok(()), vec![vec![], vec![1.0]]),
        Ok(vec![0.5, 0.25, 0.125, 1.0])
    );
    assert_eq!(recorder.stop(Ok(()), vec![]), Ok(vec![]));
}

#[test]
fn a_device_without_identifier_has_an_empty_one() {
    let recorder: Recorder<f32> = Recorder::new(None, 1);
    assert_eq!(recorder.current_device(), "");
}

#[test]
fn only_an_open_device_is_changed_to() {
    let mut recorder: Recorder<f32> = Recorder::new(Some("a".into()), 48_000);
    let _ = recorder.poll(vec![vec![0.5]]);
    assert_eq!(
        recorder.select_device("b", Opened::NotFound),
        Err("input device not found: b".to_string())
    );
    assert_eq!(
        recorder.select_device("?", Opened::InvalidId("bad id".into())),
        Err("bad id".to_string())
    );
    assert_eq!(
        recorder.select_device("b", Opened::Failed("in use".into())),
        Err("in use".to_string())
    );
    assert_eq!((recorder.current_device(), recorder.sample_rate()), ("a", 48_000));
    assert_eq!(recorder.select_device("b", Opened::Rate(44_100)), Ok(()));
    assert_eq!((recorder.current_device(), recorder.sample_rate()), ("b", 44_100));
    assert_eq!(recorder.stop(Ok(()), vec![]), Ok(vec![]));
}

fn device(id: &str, name: &str, is_default: bool) -> InputDevice {
    InputDevice { id: id.to_string(), name: name.to_string(), is_default }
}

#[test]
fn the_menu_lists_devices() {
    let mut tray = Tray::new();
    let devices = vec![device("a", "Mic", true), device("", "Odd", false), device("b", "耳机", false)];
    let entries = tray.set_devices(&devices, "b");
    let seen: Vec<(&str, &str, &str, bool)> = entries
        .iter()
        .map(|e| (e.device_id.as_str(), e.menu_id.as_str(), e.label.as_str(), e.checked))
        .collect();
    assert_eq!(
        seen,
        vec![("a", "device:a", "Mic (默认)", false), ("b", "device:b", "耳机", true)]
    );
    assert!(tray.set_selected_device("a").is_empty());
    for entry in entries {
        tray.put_up(entry.device_id);
    }
    assert_eq!(tray.set_selected_device("a"), vec![true, false]);
    assert_eq!(tray.set_selected_device("b"), vec![false, true]);
    assert_eq!(tray.set_selected_device("x"), vec![false, false]);
    let _ = tray.set_devices(&vec![], "a");
    assert!(tray.set_selected_device("a").is_empty());
}

#[test]
fn clicks_are_taken_in_order() {
    let mut tray = Tray::new();
    assert!(tray.poll().is_none());
    assert!(tray.on_menu_event("device:mic:1", "7", "8"));
    assert!(tray.on_menu_event("8", "7", "8"));
    assert!(!tray.on_menu_event("9", "7", "8"));
    assert!(tray.on_menu_event("7", "7", "8"));
    assert!(matches!(tray.poll(), Some(TrayAction::SelectDevice(id)) if id == "mic:1"));
    assert!(matches!(tray.poll(), Some(TrayAction::RefreshDevices)));
    assert!(matches!(tray.poll(), Some(TrayAction::Quit)));
    assert!(tray.poll().is_none());
}

#[test]
fn a_click_on_a_device_selects_that_device() {
    let mut tray = Tray::new();
    for id in ["a", "device:", "coreaudio:内置"] {
        let entries = tray.set_devices(&vec![device(id, "x", false)], "");
        assert!(tray.on_menu_event(&entries[0].menu_id, "quit", "refresh"));
        assert!(matches!(tray.poll(), Some(TrayAction::SelectDevice(chosen)) if chosen == id));
    }
}

#[test]
fn the_menu_begins_with_the_devices_and_ends_with_quitting() {
    assert_eq!(
        fixed_items(),
        vec![
            FixedItem::Devices("麦克风"),
            FixedItem::Refresh("刷新设备"),
            FixedItem::Separator,
            FixedItem::Quit("退出"),
        ]
    );
}
