//! What a device is called on screen.

use modern_ip_scanner::display::device_display;

#[test]
fn a_name_the_user_chose_beats_everything() {
    assert_eq!(
        device_display(
            Some("Office Printer"),
            Some("HP1234"),
            Some("aa:bb:cc:dd:ee:ff"),
            Some("10.0.0.5"),
            "abcdef0123456789"
        ),
        "Office Printer"
    );
}

#[test]
fn each_signal_falls_through_to_the_next() {
    let key = "abcdef0123456789";
    assert_eq!(
        device_display(None, Some("nas"), Some("aa:bb:cc:dd:ee:ff"), None, key),
        "nas"
    );
    assert_eq!(
        device_display(None, None, Some("aa:bb:cc:dd:ee:ff"), Some("10.0.0.5"), key),
        "aa:bb:cc:dd:ee:ff"
    );
    assert_eq!(
        device_display(None, None, None, Some("10.0.0.5"), key),
        "10.0.0.5"
    );
}

#[test]
fn a_device_with_no_signal_at_all_reads_as_its_short_key() {
    // Never "?": the short key is what `mipscan devices` prints and what
    // get_device_by_ref resolves, so it is something the user can act on.
    assert_eq!(
        device_display(None, None, None, None, "abcdef0123456789"),
        "abcdef01"
    );
}

#[test]
fn blank_signals_are_not_names() {
    assert_eq!(
        device_display(
            Some("   "),
            Some(""),
            None,
            Some("10.0.0.5"),
            "abcdef0123456789"
        ),
        "10.0.0.5"
    );
}
