use rbench::{is_power_saver_output, is_power_saver_profile};

#[test]
fn power_saver_profile_is_recognised() {
    assert!(is_power_saver_profile("power-saver"));
    assert!(is_power_saver_profile("power-saver\n"));
    assert!(is_power_saver_profile("  power-saver \t\n"));
    assert!(!is_power_saver_profile("balanced\n"));
    assert!(!is_power_saver_profile("performance"));
    assert!(!is_power_saver_profile("power-saver-extra"));
    assert!(!is_power_saver_profile(""));
}

#[test]
fn power_saver_output_bytes() {
    assert!(is_power_saver_output(b"power-saver\n"));
    assert!(!is_power_saver_output(b"balanced\n"));
    assert!(!is_power_saver_output(b""));
    // Invalid UTF-8 becomes a replacement character, which is not white space.
    assert!(!is_power_saver_output(b"power-saver\xff"));
    assert!(!is_power_saver_output(b"\xffpower-saver"));
}
