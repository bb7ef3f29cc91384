use tarish::naming::{
    clean_name, device_model, device_name, mime_of, parse_mac, quickshare_mediums,
};

#[test]
fn the_device_is_called_something() {
    assert_eq!(device_name(Some("Ada".to_string()), Some("Pixel".to_string())), "Ada");
    assert_eq!(device_name(None, Some("Pixel".to_string())), "Pixel");
    assert_eq!(device_name(None, None), "Tarish");
    assert_eq!(device_model(None, None), "Android");
    assert_eq!(device_model(None, Some("Pixel".to_string())), "Pixel");
}

#[test]
fn names_are_tidied() {
    assert_eq!(clean_name("  Ada's\t\n  phone "), "Ada's phone");
    assert_eq!(clean_name("A\u{200b}B\u{202e}C\u{7f}"), "ABC");
    assert_eq!(clean_name("Jürgen"), "Jürgen");
    assert_eq!(clean_name("A\u{3000}B"), "A B");
}

#[test]
fn what_is_no_name_is_cleared() {
    assert_eq!(clean_name(""), "");
    assert_eq!(clean_name("   "), "");
    assert_eq!(clean_name("..."), "");
    assert_eq!(clean_name("--- ---"), "");
    assert_eq!(clean_name("\u{200b}\u{feff}"), "");
}

#[test]
fn long_names_are_cut_between_characters() {
    let long = "ü".repeat(80);
    assert_eq!(clean_name(&long), "ü".repeat(45));
    let odd = format!("a{}", "ü".repeat(80));
    assert_eq!(clean_name(&odd), format!("a{}", "ü".repeat(44)));
    // A space at the cut goes too.
    let spaced = format!("{} b", "a".repeat(89));
    assert_eq!(clean_name(&spaced), "a".repeat(89));
}

#[test]
fn types_are_guessed_from_names() {
    assert_eq!(mime_of("a.JPG"), "image/jpeg");
    assert_eq!(mime_of("a.jpeg"), "image/jpeg");
    assert_eq!(mime_of("x.tar.mp4"), "video/mp4");
    assert_eq!(mime_of("pdf"), "application/pdf");
    assert_eq!(mime_of("a."), "application/octet-stream");
    assert_eq!(mime_of("app.apk"), "application/vnd.android.package-archive");
    assert_eq!(mime_of("noext"), "application/octet-stream");
}

#[test]
fn a_bluetooth_address_has_six_bytes() {
    assert_eq!(parse_mac("0a:1B:2c:3d:4e:FF"), Some([0x0a, 0x1b, 0x2c, 0x3d, 0x4e, 0xff]));
    assert_eq!(parse_mac("0a:1b:2c:3d:4e"), None);
    assert_eq!(parse_mac("0a:1b:2c:3d:4e:ff:00"), None);
    assert_eq!(parse_mac("0a:1b:2c:3d:4e:f"), None);
    assert_eq!(parse_mac("0a:1b:2c:3d:4e:gg"), None);
    assert_eq!(parse_mac(""), None);
    // A sign is no digit.
    assert_eq!(parse_mac("+A:00:00:00:00:00"), None);
    assert_eq!(parse_mac("00:00:00:00:00:+1"), None);
    assert_eq!(parse_mac("00:00:00:00:00:-1"), None);
}

#[test]
fn mediums_may_be_named() {
    assert_eq!(quickshare_mediums(&None), vec![2, 5]);
    assert_eq!(quickshare_mediums(&Some("  ".to_string())), vec![2, 5]);
    assert_eq!(quickshare_mediums(&Some("2, 5,8,x".to_string())), vec![2, 5, 8]);
}

#[test]
fn a_name_is_judged_by_what_is_advertised_of_it() {
    // The letter does not fit, so nothing of a name is left.
    assert_eq!(clean_name(&(".".repeat(91) + "a")), "");
    assert_eq!(clean_name(&(".".repeat(89) + "a")), ".".repeat(89) + "a");
    assert_eq!(clean_name(&(".".repeat(89) + "ab")), ".".repeat(89) + "a");
    assert_eq!(clean_name(&("a".to_string() + &".".repeat(91))), "a".to_string() + &".".repeat(89));
}

#[test]
fn cleaning_twice_changes_nothing() {
    for name in ["  Ada \t  Lovelace ", "\u{200b}x\u{3000}\u{a0} y\u{2028}", &"ab ".repeat(40), "...", ""] {
        let once = clean_name(name);
        assert_eq!(clean_name(&once), once);
    }
    assert_eq!(clean_name("x\u{3000}\u{a0}\u{1680}\u{200a}y"), "x y");
}
