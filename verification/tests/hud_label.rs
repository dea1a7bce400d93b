use racecar::hud::hud_text;

#[test]
fn hud_zero_seconds() {
    assert_eq!(hud_text(0).as_str(), "Time: 0");
}

#[test]
fn hud_single_digit() {
    assert_eq!(hud_text(7).as_str(), "Time: 7");
}

#[test]
fn hud_multi_digit() {
    assert_eq!(hud_text(1234).as_str(), "Time: 1234");
    assert_eq!(hud_text(100).as_str(), "Time: 100");
    assert_eq!(hud_text(18_446_744_073_709_551_615).as_str(), "Time: 18446744073709551615");
}
