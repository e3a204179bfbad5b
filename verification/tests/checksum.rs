use solaros::crc::crc32c;

#[test]
fn crc_of_the_standard_text() {
    assert_eq!(!crc32c(0xFFFF_FFFF, b"123456789"), 0xE306_9283);
}
