use tarish::netlink::{
    add_link_local, add_rule, align4, ask_family, ask_interface, del_rule, find_attr,
    frequency_of, genl_request, nl80211_family, nl_message, put_attr, read_ack, read_genl,
    remove_rule, rule_priority, Sweep, NlError, CTRL_ATTR_FAMILY_ID, FRA_OIFNAME,
    FRA_PRIORITY, FRA_TABLE, FRA_UID_RANGE, NL80211_ATTR_WIPHY_FREQ,
};

fn reply(kind: u16, tail: &[u8]) -> Vec<u8> {
    let mut r = vec![0u8; 4];
    r.extend_from_slice(&kind.to_le_bytes());
    r.extend_from_slice(&[0; 10]);
    r.extend_from_slice(tail);
    r
}

#[test]
fn lengths_are_rounded_up_to_four() {
    assert_eq!(align4(0), 0);
    assert_eq!(align4(1), 4);
    assert_eq!(align4(4), 4);
    assert_eq!(align4(5), 8);
}

#[test]
fn attributes_are_padded_and_found_again() {
    let mut buf: Vec<u8> = Vec::new();
    put_attr(&mut buf, 7, &[1, 2, 3]);
    put_attr(&mut buf, 9, &[4]);
    assert_eq!(buf, vec![7, 0, 7, 0, 1, 2, 3, 0, 5, 0, 9, 0, 4, 0, 0, 0]);
    assert_eq!(find_attr(&buf, 7), Some(&[1u8, 2, 3][..]));
    assert_eq!(find_attr(&buf, 9), Some(&[4u8][..]));
    assert_eq!(find_attr(&buf, 8), None);
}

#[test]
fn a_broken_attribute_ends_the_search() {
    // A length below four, and one beyond the end.
    assert_eq!(find_attr(&[3, 0, 7, 0, 1, 2, 3, 4], 7), None);
    assert_eq!(find_attr(&[12, 0, 7, 0, 1, 2, 3, 4], 7), None);
    assert_eq!(find_attr(&[8, 0, 7], 7), None);
    // The last attribute need not be padded.
    assert_eq!(find_attr(&[5, 0, 7, 0, 1], 7), Some(&[1u8][..]));
    assert_eq!(find_attr(&[5, 0, 7, 0, 1], 8), None);
}

#[test]
fn messages_carry_their_header() {
    assert_eq!(
        nl_message(24, &[0xaa], 0x605),
        vec![17, 0, 0, 0, 24, 0, 5, 6, 1, 0, 0, 0, 0, 0, 0, 0, 0xaa]
    );
    assert_eq!(
        genl_request(16, 3, &[0xbb]),
        vec![21, 0, 0, 0, 16, 0, 1, 0, 1, 0, 0, 0, 0, 0, 0, 0, 3, 1, 0, 0, 0xbb]
    );
    let family = ask_family();
    assert_eq!(&family[20..], b"\x0c\0\x02\0nl80211\0");
    assert_eq!(&ask_interface(28, 5)[16..], &[5, 1, 0, 0, 8, 0, 3, 0, 5, 0, 0, 0]);
}

#[test]
fn generic_replies_are_told_from_errors() {
    assert_eq!(read_genl(&[0; 15]), Err(NlError::Short));
    assert_eq!(read_genl(&reply(2, &[])), Err(NlError::Short));
    assert_eq!(read_genl(&reply(2, &0i32.to_le_bytes())), Err(NlError::NoPayload));
    assert_eq!(read_genl(&reply(2, &(-19i32).to_le_bytes())), Err(NlError::Os(19)));
    assert_eq!(read_genl(&reply(28, &[])), Ok(()));
}

#[test]
fn the_family_and_the_frequency_are_read() {
    let mut attrs: Vec<u8> = Vec::new();
    put_attr(&mut attrs, CTRL_ATTR_FAMILY_ID, &[0x1c, 0x01]);
    put_attr(&mut attrs, NL80211_ATTR_WIPHY_FREQ, &5520u32.to_le_bytes());
    let mut r = reply(28, &[0; 4]);
    r.extend_from_slice(&attrs);
    assert_eq!(nl80211_family(&r), Ok(0x011c));
    assert_eq!(frequency_of(&r), 5520);
    assert_eq!(nl80211_family(&reply(28, &[0; 4])), Err(NlError::NoFamily));
    assert_eq!(frequency_of(&reply(28, &[0; 4])), 0);
    assert_eq!(frequency_of(&[]), 0);
}

#[test]
fn what_is_there_already_is_no_error() {
    assert_eq!(read_ack(&[]), Ok(()));
    assert_eq!(read_ack(&reply(2, &0i32.to_le_bytes())), Ok(()));
    assert_eq!(read_ack(&reply(2, &(-17i32).to_le_bytes())), Ok(()));
    assert_eq!(read_ack(&reply(2, &(-2i32).to_le_bytes())), Err(NlError::Os(2)));
    assert_eq!(read_ack(&reply(24, &(-2i32).to_le_bytes())), Ok(()));
}

#[test]
fn the_route_is_link_local_in_the_interfaces_table() {
    let m = add_link_local(9);
    assert_eq!(&m[4..8], &[24, 0, 0x05, 0x06]);
    assert_eq!(&m[16..28], &[10, 64, 0, 0, 0, 4, 253, 1, 0, 0, 0, 0]);
    let attrs = &m[28..];
    let mut dst = vec![0xfe, 0x80];
    dst.extend_from_slice(&[0; 14]);
    assert_eq!(find_attr(attrs, 1), Some(&dst[..]));
    assert_eq!(find_attr(attrs, 4), Some(&[9u8, 0, 0, 0][..]));
    assert_eq!(find_attr(attrs, 15), Some(&[9u8, 0, 0, 0][..]));
}

#[test]
fn the_rule_is_for_one_user_and_one_priority() {
    let m = add_rule("tlink0", 9, 9999, true);
    assert_eq!(&m[4..8], &[32, 0, 0x05, 0x06]);
    let attrs = &m[28..];
    assert_eq!(find_attr(attrs, FRA_OIFNAME), Some(&b"tlink0\0"[..]));
    assert_eq!(find_attr(attrs, FRA_TABLE), Some(&[9u8, 0, 0, 0][..]));
    assert_eq!(find_attr(attrs, FRA_PRIORITY), Some(&13500u32.to_le_bytes()[..]));
    assert_eq!(
        find_attr(attrs, FRA_UID_RANGE),
        Some(&[0x0f, 0x27, 0, 0, 0x0f, 0x27, 0, 0][..])
    );
    let below = add_rule("tlink0", 9, 9999, false);
    assert_eq!(find_attr(&below[28..], FRA_PRIORITY), Some(&15000u32.to_le_bytes()[..]));
    assert_eq!(rule_priority(true), 13500);
    assert_eq!(rule_priority(false), 15000);
}

#[test]
fn rules_are_swept_until_none_is_left() {
    let m = del_rule(13500);
    assert_eq!(&m[4..8], &[33, 0, 0x05, 0]);
    assert_eq!(find_attr(&m[28..], FRA_PRIORITY), Some(&13500u32.to_le_bytes()[..]));
    // More rules than anybody should have left behind, at both priorities.
    for (above, below) in [(0u32, 0u32), (1, 0), (0, 1), (20, 30)] {
        let (mut at_first, mut at_second) = (above, below);
        let mut s = Sweep::new();
        while let Some(priority) = s.next() {
            assert!(!remove_rule(&s));
            let left = if priority == 13500 { &mut at_first } else { &mut at_second };
            let deleted = *left > 0;
            if deleted {
                *left -= 1;
            }
            s.step(deleted);
        }
        assert_eq!((at_first, at_second), (0, 0));
        assert_eq!(remove_rule(&s), above + below > 0);
    }
}

#[test]
fn a_long_name_still_makes_a_rule() {
    let name = "x".repeat(300);
    let m = add_rule(&name, 9, 9999, true);
    assert_eq!(find_attr(&m[28..], FRA_OIFNAME).map(|n| n.len()), Some(301));
    assert_eq!(find_attr(&m[28..], FRA_PRIORITY), Some(&13500u32.to_le_bytes()[..]));
}
