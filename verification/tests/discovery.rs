use pw_merger::cli::{resolve_device, resolve_devices, Args, ResolveError};
use pw_merger::detector::{
    parse_sink, sink_list_lines, sort_by_name, SinkDevice, SinkRegistry,
};
use pw_merger::error::MergerError;
use pw_merger::global::{prop_get, GlobalInfo, ObjectKind};
use pw_merger::text::{
    channel_suffix, decimal_string, name_le_exec, parse_u32, push_padded, starts_with,
    trim_leading_zeros,
};

fn sink(id: u32, name: &str, description: &str) -> SinkDevice {
    SinkDevice { id, name: name.to_string(), description: description.to_string(), driver: String::new() }
}

fn global(id: u32, kind: ObjectKind, pairs: &[(&str, &str)]) -> GlobalInfo {
    GlobalInfo {
        id,
        kind,
        props: Some(pairs.iter().map(|(k, v)| (k.to_string(), v.to_string())).collect()),
    }
}

#[test]
fn display_name_forms() {
    assert_eq!(sink(1, "alsa.hdmi", "").display_name(), "alsa.hdmi");
    assert_eq!(sink(1, "alsa.hdmi", "alsa.hdmi").display_name(), "alsa.hdmi");
    assert_eq!(sink(1, "alsa.hdmi", "HDMI Audio").display_name(), "HDMI Audio (alsa.hdmi)");
}

#[test]
fn parse_u32_like_std() {
    for s in ["55", "+7", "", "+", "-1", "4294967295", "4294967296", "12a", "alsa_output", "007", " 5", "٣"] {
        assert_eq!(parse_u32(s), s.parse::<u32>().ok(), "input {:?}", s);
    }
}

#[test]
fn decimal_strings() {
    assert_eq!(decimal_string(0), "0");
    assert_eq!(decimal_string(1234), "1234");
    assert_eq!(decimal_string(u64::MAX), u64::MAX.to_string());
}

#[test]
fn channel_suffixes() {
    assert_eq!(channel_suffix("monitor_FL"), "FL");
    assert_eq!(channel_suffix("playback_AUX_10"), "10");
    assert_eq!(channel_suffix("mono"), "mono");
    assert_eq!(channel_suffix("trailing_"), "");
    assert_eq!(channel_suffix("über_FR"), "FR");
}

#[test]
fn text_helpers() {
    assert!(starts_with("pw-merger-sink", "pw-merger"));
    assert!(!starts_with("pw-merge", "pw-merger"));
    assert!(name_le_exec(&"abc".to_string(), &"abd".to_string()));
    assert!(name_le_exec(&"ab".to_string(), &"abc".to_string()));
    assert!(!name_le_exec(&"b".to_string(), &"abc".to_string()));
    assert!(name_le_exec(&"same".to_string(), &"same".to_string()));
    let mut s = String::new();
    push_padded(&mut s, "ID", 4);
    assert_eq!(s, format!("{:<4}", "ID"));
    let mut s = String::new();
    push_padded(&mut s, "a-very-long-name", 4);
    assert_eq!(s, "a-very-long-name");
}

#[test]
fn property_lookup_takes_first_entry() {
    let g = global(1, ObjectKind::Node, &[("k", "one"), ("k", "two")]);
    let p = g.props.as_ref().unwrap();
    assert_eq!(prop_get(p, "k").map(|s| s.as_str()), Some("one"));
    assert_eq!(prop_get(p, "missing"), None);
}

#[test]
fn audio_sinks_are_recognised() {
    let g = global(
        55,
        ObjectKind::Node,
        &[
            ("media.class", "Audio/Sink"),
            ("node.name", "alsa_output.hdmi"),
            ("node.description", "HDMI"),
            ("device.name", "alsa_card.hdmi"),
        ],
    );
    let s = parse_sink(&g).unwrap();
    assert_eq!(s, SinkDevice {
        id: 55,
        name: "alsa_output.hdmi".to_string(),
        description: "HDMI".to_string(),
        driver: "alsa_card.hdmi".to_string(),
    });
    let g = global(
        56,
        ObjectKind::Node,
        &[("media.class", "Audio/Sink"), ("node.name", "x"), ("device.bus-path", "pci-0000"), ("device.name", "card")],
    );
    let s = parse_sink(&g).unwrap();
    assert_eq!(s.driver, "pci-0000");
    assert_eq!(s.description, "");
}

#[test]
fn other_globals_are_not_sinks() {
    assert!(parse_sink(&global(1, ObjectKind::Node, &[("media.class", "Audio/Source"), ("node.name", "mic")])).is_none());
    assert!(parse_sink(&global(1, ObjectKind::Port, &[("media.class", "Audio/Sink"), ("node.name", "x")])).is_none());
    assert!(parse_sink(&global(1, ObjectKind::Node, &[("media.class", "Audio/Sink")])).is_none());
    assert!(parse_sink(&global(1, ObjectKind::Node, &[("media.class", "Audio/Sink"), ("node.name", "pw-merger-out")])).is_none());
    assert!(parse_sink(&GlobalInfo { id: 1, kind: ObjectKind::Node, props: None }).is_none());
}

#[test]
fn registry_sorts_by_name_and_replaces_by_id() {
    let mut r = SinkRegistry::new();
    for (id, name) in [(3, "zeta"), (1, "alpha"), (2, "Mid"), (1, "beta")] {
        r.on_global(&global(id, ObjectKind::Node, &[("media.class", "Audio/Sink"), ("node.name", name)]));
    }
    let names: Vec<String> = r.sorted_sinks().into_iter().map(|s| s.name).collect();
    assert_eq!(names, vec!["Mid", "beta", "zeta"]);
}

#[test]
fn sort_by_name_matches_std() {
    let input = vec![sink(1, "b", ""), sink(2, "a", ""), sink(3, "ä", ""), sink(4, "B", ""), sink(5, "a", "x")];
    let mut expect = input.clone();
    expect.sort_by(|a, b| a.name.cmp(&b.name));
    let got = sort_by_name(&input);
    let gn: Vec<&str> = got.iter().map(|s| s.name.as_str()).collect();
    let en: Vec<&str> = expect.iter().map(|s| s.name.as_str()).collect();
    assert_eq!(gn, en);
    assert_eq!(got.len(), 5);
}

#[test]
fn empty_list_text() {
    assert_eq!(sink_list_lines(&vec![]), vec!["No audio sinks found.  Is PipeWire running?".to_string()]);
}

#[test]
fn list_text_matches_table_format() {
    let sinks = vec![sink(55, "alsa_output.hdmi", "HDMI"), sink(61, "alsa_output.analog", "")];
    let mut want = vec![
        "Available audio sinks:".to_string(),
        String::new(),
        format!("  {:<4}  {:<40}  DESCRIPTION", "ID", "NAME"),
        format!("  {}", "-".repeat(86)),
    ];
    for s in &sinks {
        want.push(format!(
            "  {:<4}  {:<40}  {}",
            s.id,
            s.name,
            if s.description.is_empty() { "-" } else { &s.description }
        ));
    }
    want.push(String::new());
    want.push("Usage:".to_string());
    want.push("  pw-merger <ID_A> <ID_B>                  # merge two sinks".to_string());
    want.push("  pw-merger <ID_A> <ID_B> <ID_C>           # merge three sinks".to_string());
    want.push("  pw-merger -o \"My Speakers\" 55 61        # with custom name".to_string());
    assert_eq!(sink_list_lines(&sinks), want);
}

#[test]
fn devices_resolve_by_id_or_name() {
    let sinks = vec![sink(55, "alsa_output.hdmi", ""), sink(61, "alsa_output.analog", "")];
    assert_eq!(resolve_device("55", &sinks), Ok("alsa_output.hdmi".to_string()));
    assert_eq!(resolve_device("61", &sinks), Ok("alsa_output.analog".to_string()));
    assert_eq!(resolve_device("+61", &sinks), Ok("+61".to_string()));
    assert_eq!(
        resolve_device("4294967296", &sinks),
        Err(ResolveError::NoSinkWithId("4294967296".to_string()))
    );
    assert_eq!(resolve_device("0055", &sinks), Ok("alsa_output.hdmi".to_string()));
    assert_eq!(resolve_device("alsa_output.usb", &sinks), Ok("alsa_output.usb".to_string()));
    assert_eq!(resolve_device("99", &sinks), Err(ResolveError::NoSinkWithId("99".to_string())));
}

#[test]
fn unknown_ids_are_named_by_their_number() {
    let sinks = vec![sink(55, "alsa_output.hdmi", "")];
    assert_eq!(resolve_device("007", &sinks), Err(ResolveError::NoSinkWithId("7".to_string())));
    assert_eq!(resolve_device("0099", &sinks), Err(ResolveError::NoSinkWithId("99".to_string())));
    assert_eq!(resolve_device("000", &sinks), Err(ResolveError::NoSinkWithId("0".to_string())));
    assert_eq!(
        resolve_device("004294967296", &sinks),
        Err(ResolveError::NoSinkWithId("4294967296".to_string()))
    );
    assert_eq!(
        resolve_device("007", &sinks).unwrap_err().message(),
        "no audio sink with ID 7.\nRun `pw-merger --list` to see available sinks."
    );
    assert_eq!(trim_leading_zeros("0"), "0");
    assert_eq!(trim_leading_zeros("0120"), "120");
}

#[test]
fn device_lists_need_two_and_stop_at_first_unknown_id() {
    let sinks = vec![sink(55, "alsa_output.hdmi", ""), sink(61, "alsa_output.analog", "")];
    let d = |v: &[&str]| v.iter().map(|s| s.to_string()).collect::<Vec<String>>();
    assert_eq!(resolve_devices(&d(&["55"]), &sinks), Err(ResolveError::TooFewDevices(1)));
    assert_eq!(
        resolve_devices(&d(&["55", "61", "usb"]), &sinks),
        Ok(d(&["alsa_output.hdmi", "alsa_output.analog", "usb"]))
    );
    assert_eq!(resolve_devices(&d(&["55", "7", "8"]), &sinks), Err(ResolveError::NoSinkWithId("7".to_string())));
}

#[test]
fn error_messages() {
    assert_eq!(
        ResolveError::NoSinkWithId("99".to_string()).message(),
        "no audio sink with ID 99.\nRun `pw-merger --list` to see available sinks."
    );
    assert_eq!(
        ResolveError::TooFewDevices(1).message(),
        "need at least 2 sink IDs, got 1.\nRun `pw-merger --list` to see available sinks."
    );
    assert_eq!(
        MergerError::DeviceNotFound("hdmi".to_string()).message(),
        "device not found: 'hdmi'\nHint: list available devices with:\n  pw-cli list-objects Node | grep node.name"
    );
    assert_eq!(
        MergerError::PipeWire(-22, "creating a link").message(),
        "PipeWire error -22 while creating a link"
    );
    assert_eq!(
        MergerError::PipeWire(i32::MIN, "x").message(),
        format!("PipeWire error {} while x", i32::MIN)
    );
}

#[test]
fn log_filter_follows_verbose() {
    let mut a = Args {
        list: false,
        sink_name: "Merged Output".to_string(),
        devices: vec![],
        media_role: "Music".to_string(),
        verbose: false,
    };
    assert_eq!(a.log_filter(), "pw_merger=info");
    a.verbose = true;
    assert_eq!(a.log_filter(), "pw_merger=debug");
}

#[test]
fn decimal_reads_back() {
    for n in [0u32, 7, 10, 55, 4294967295] {
        assert_eq!(parse_u32(&decimal_string(n as u64)), Some(n));
    }
}

