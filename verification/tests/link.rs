use tarish::link::{
    acceptable_country, acquire, channel_override, channels_for, config_override, country_code,
    exemption_earned, iface, libraries, log_level, mosey_config, offered, push_varint,
    radio_modes, read_property, same_band_as_sta, sta_frequency, wants_radio, CountryProps,
    Daemon, Level, LinkStep, OpMode, Turn,
};

fn some(s: &str) -> Option<String> {
    Some(s.to_string())
}

fn no_country() -> CountryProps {
    CountryProps { chosen: None, wifi: None, network: None, sim: None, boot: None }
}

#[test]
fn a_property_is_text_of_some_length() {
    assert_eq!(read_property(b"tlink0\0\0", 6), some("tlink0"));
    assert_eq!(read_property(b"tlink0", 0), None);
    assert_eq!(read_property(b"tlink0", -1), None);
    assert_eq!(read_property(&[0xff, 0xfe], 2), None);
}

#[test]
fn the_interface_has_a_default() {
    assert_eq!(iface(some("a"), some("b")), "a");
    assert_eq!(iface(None, some("b")), "b");
    assert_eq!(iface(None, None), "tlink0");
}

#[test]
fn the_radio_is_wanted_unless_told_otherwise() {
    assert!(wants_radio(&None));
    assert!(wants_radio(&some("1")));
    assert!(!wants_radio(&some(" 0\n")));
}

#[test]
fn only_a_one_earns_the_exemption() {
    assert!(exemption_earned(&some("1")));
    assert!(!exemption_earned(&some("1 ")));
    assert!(!exemption_earned(&some("true")));
    assert!(!exemption_earned(&None));
}

#[test]
fn the_log_level_is_named() {
    assert_eq!(log_level(&some(" ERROR ")), Level::Error);
    assert_eq!(log_level(&some("warn")), Level::Warn);
    assert_eq!(log_level(&some("debug")), Level::Debug);
    assert_eq!(log_level(&some("trace")), Level::Trace);
    assert_eq!(log_level(&some("loud")), Level::Info);
    assert_eq!(log_level(&None), Level::Info);
}

#[test]
fn the_other_band_is_preferred_and_the_same_one_withheld() {
    assert_eq!(channels_for(0), vec![vec![149, 44], vec![6]]);
    assert_eq!(channels_for(-1), vec![vec![149, 44], vec![6]]);
    assert_eq!(channels_for(2437), vec![vec![149, 44], vec![6]]);
    assert_eq!(channels_for(5520), vec![vec![6], vec![149, 44]]);
    assert_eq!(offered(None, 5520), vec![vec![6]]);
    assert_eq!(offered(None, 6215), vec![vec![6]]);
    assert_eq!(offered(None, 2437), vec![vec![149, 44]]);
    assert_eq!(offered(None, 0), vec![vec![149, 44], vec![6]]);
    // What is forced is offered, whatever it does.
    assert_eq!(offered(Some(vec![149]), 5520), vec![vec![149]]);
}

#[test]
fn six_gigahertz_counts_with_five() {
    assert!(same_band_as_sta(&[149], 6215));
    assert!(same_band_as_sta(&[6], 2437));
    assert!(!same_band_as_sta(&[6], 5520));
    assert!(!same_band_as_sta(&[6, 149], 5520));
    assert!(!same_band_as_sta(&[149], 0));
    assert!(!same_band_as_sta(&[149], -1));
}

#[test]
fn channels_may_be_forced() {
    assert_eq!(channel_override(&some("44, 149")), Some(vec![44, 149]));
    assert_eq!(channel_override(&some("6,300,x,11")), Some(vec![6, 11]));
    assert_eq!(channel_override(&some("none")), None);
    assert_eq!(channel_override(&None), None);
}

#[test]
fn the_configuration_tells_where_wifi_is() {
    assert_eq!(mosey_config(0), vec![0x08, 0x01, 0x30, 0x01]);
    assert_eq!(mosey_config(-1), vec![0x08, 0x01, 0x30, 0x01]);
    assert_eq!(mosey_config(5520), vec![0x08, 0x01, 0x10, 0x90, 0x2b, 0x30, 0x01]);
    let mut v: Vec<u8> = Vec::new();
    push_varint(&mut v, 300);
    assert_eq!(v, vec![0xac, 0x02]);
}

#[test]
fn the_configuration_may_be_forced() {
    assert_eq!(config_override(&some("08 01 30 01")), Some(vec![8, 1, 0x30, 1]));
    assert_eq!(config_override(&some("080")), None);
    assert_eq!(config_override(&some("08zz")), None);
    assert_eq!(config_override(&some("  ")), None);
    assert_eq!(config_override(&None), None);
}

#[test]
fn the_association_has_three_sources() {
    assert_eq!(sta_frequency(&some(" 5180 "), Some(2437), &some("5500")), 5180);
    assert_eq!(sta_frequency(&some("99"), Some(2437), &some("5500")), 2437);
    assert_eq!(sta_frequency(&None, Some(0), &some("5500")), 5500);
    assert_eq!(sta_frequency(&None, None, &some("-1")), -1);
    assert_eq!(sta_frequency(&None, None, &some("-77")), -1);
    assert_eq!(sta_frequency(&None, None, &some("12")), 0);
    assert_eq!(sta_frequency(&None, None, &None), 0);
}

#[test]
fn the_country_comes_from_the_first_that_knows() {
    assert_eq!(country_code(&no_country()), None);
    let sim = CountryProps { network: some("qa,"), boot: some("us"), ..no_country() };
    assert_eq!(country_code(&sim), some("QA"));
    let chosen = CountryProps { chosen: some(" de "), ..sim };
    assert_eq!(country_code(&chosen), some("DE"));
    // The world domain is no country, and neither are three letters.
    let world = CountryProps { boot: some("00"), wifi: some("usa"), ..no_country() };
    assert_eq!(country_code(&world), None);
    // A letter that is no ASCII letter is none, in any case.
    let odd = CountryProps { chosen: some("ß"), ..no_country() };
    assert_eq!(country_code(&odd), some("SS"));
    let wide = CountryProps { chosen: some("éa"), ..no_country() };
    assert_eq!(country_code(&wide), None);
}

#[test]
fn both_backends_are_always_tried() {
    assert_eq!(radio_modes(true), vec![OpMode::Radiotap, OpMode::Netlink]);
    assert_eq!(radio_modes(false), vec![OpMode::Netlink, OpMode::Radiotap]);
    assert_eq!(OpMode::Radiotap.number(), 1);
    assert_eq!(OpMode::Netlink.number(), 2);
}

#[test]
fn the_library_is_looked_for_in_turn() {
    let named = libraries(some("/x.so"));
    assert_eq!(named.len(), 5);
    assert_eq!(named[0], "libmosey_daemon_ffi.so");
    assert_eq!(named[4], "/x.so");
    let all = libraries(some(""));
    assert_eq!(all.len(), 4);
    assert_eq!(all[0], "libmosey_daemon_ffi.so");
    assert_eq!(all[3], "/system/lib64/libmosey_daemon_ffi.so");
    assert_eq!(libraries(None).len(), 4);
}

#[test]
fn a_country_has_two_bytes() {
    assert!(acceptable_country("QA"));
    assert!(!acceptable_country("Q"));
    assert!(!acceptable_country("QAT"));
}

#[test]
fn attempts_go_through_channels_before_backends() {
    assert!(acquire(None, 0, None, None, true).is_none());
    let p = acquire(some("QA"), 2437, None, Some(vec![6]), false).unwrap();
    assert_eq!(p.country, "QA");
    assert_eq!(p.config, mosey_config(2437));
    let tried: Vec<(OpMode, Vec<u8>)> =
        p.attempts.iter().map(|a| (a.mode, a.channels.clone())).collect();
    assert_eq!(tried, vec![(OpMode::Netlink, vec![6]), (OpMode::Radiotap, vec![6])]);
    let q = acquire(some("QA"), 0, Some(vec![1]), None, true).unwrap();
    assert_eq!(q.config, vec![1]);
    let tried: Vec<(OpMode, Vec<u8>)> =
        q.attempts.iter().map(|a| (a.mode, a.channels.clone())).collect();
    assert_eq!(
        tried,
        vec![
            (OpMode::Radiotap, vec![149, 44]),
            (OpMode::Radiotap, vec![6]),
            (OpMode::Netlink, vec![149, 44]),
            (OpMode::Netlink, vec![6]),
        ]
    );
}

#[test]
fn the_daemon_acquires_retries_and_releases() {
    let mut d = Daemon::new(1000);
    assert_eq!(d.look(true, false, 1000), Turn { rule: None, link: LinkStep::Acquire });
    assert!(d.failed("no country".to_string(), 1000));
    assert!(!d.failed("no country".to_string(), 1000));
    assert_eq!(d.look(true, false, 3000).link, LinkStep::Nothing);
    assert_eq!(d.look(true, false, 6000).link, LinkStep::Acquire);
    d.acquired();
    assert_eq!(d.look(true, false, 6500), Turn { rule: None, link: LinkStep::Nothing });
    // The rule follows the exemption while the link is up.
    assert_eq!(d.look(true, true, 7000), Turn { rule: Some(true), link: LinkStep::Nothing });
    assert_eq!(d.look(false, false, 7500), Turn { rule: Some(false), link: LinkStep::Release });
    assert_eq!(d.look(false, true, 8000), Turn { rule: None, link: LinkStep::Nothing });
}

#[test]
fn a_fresh_request_retries_at_once() {
    let mut d = Daemon::new(0);
    d.look(true, false, 0);
    d.failed("x".to_string(), 0);
    d.look(false, false, 500);
    assert_eq!(d.look(true, false, 1000).link, LinkStep::Acquire);
}
