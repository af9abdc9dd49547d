use xenops::text::dec_string;
use xenops::xenctrl::{
    classify_last_error, get_uuid_from_domain_handle, Error, ErrorCode,
};

#[test]
fn error_code_values() {
    assert_eq!(ErrorCode::NoError.value(), 0);
    assert_eq!(ErrorCode::InternalError.value(), 1);
    assert_eq!(ErrorCode::InvalidKernel.value(), 2);
    assert_eq!(ErrorCode::InvalidParam.value(), 3);
    assert_eq!(ErrorCode::OutOfMemory.value(), 4);
    assert_eq!(ErrorCode::OsError(12).value(), -12);
}

#[test]
fn error_code_from_value_is_a_closed_mapping() {
    assert!(ErrorCode::from_value(0) == ErrorCode::NoError);
    assert!(ErrorCode::from_value(1) == ErrorCode::InternalError);
    assert!(ErrorCode::from_value(2) == ErrorCode::InvalidKernel);
    assert!(ErrorCode::from_value(3) == ErrorCode::InvalidParam);
    assert!(ErrorCode::from_value(4) == ErrorCode::OutOfMemory);
    // Values outside the closed set read as internal errors.
    assert!(ErrorCode::from_value(99) == ErrorCode::InternalError);
}

#[test]
fn error_text_renders_the_description_table() {
    assert_eq!(Error::new(ErrorCode::InternalError, "x").text(), "1: Internal error (x)");
    assert_eq!(Error::new(ErrorCode::InvalidKernel, "").text(), "2: Invalid kernel ()");
    assert_eq!(Error::new(ErrorCode::InvalidParam, "bad id").text(), "3: Invalid configuration (bad id)");
    assert_eq!(Error::new(ErrorCode::OutOfMemory, "").text(), "4: Out of memory ()");
    assert_eq!(Error::empty().text(), "0: Empty error ()");
}

#[test]
fn error_text_is_stable_across_calls() {
    let e = Error::new(ErrorCode::OutOfMemory, "grant table");
    assert_eq!(e.text(), e.text());
    let twin = Error::new(ErrorCode::OutOfMemory, "grant table");
    assert_eq!(e.text(), twin.text());
}

#[test]
fn classify_keeps_a_hypervisor_reported_code() {
    let e = classify_last_error(3, "bad argument", 0);
    assert!(e.code == ErrorCode::InvalidParam);
    assert_eq!(e.details, "bad argument");
}

#[test]
fn classify_falls_back_to_the_os_error_number() {
    // The hypervisor reports no error but the OS call failed with ENOMEM.
    let e = classify_last_error(0, "", 12);
    assert!(e.code == ErrorCode::OsError(12));
    assert_eq!(e.details, "");
    let text = e.text();
    assert!(text.starts_with("-12: "));
    assert!(text.ends_with(" ()"));
    // The rendering of the fallback is stable across calls too.
    assert_eq!(text, classify_last_error(0, "", 12).text());
}

#[test]
fn classify_with_no_error_anywhere_is_the_empty_error() {
    let e = classify_last_error(0, "", 0);
    assert!(e.code == ErrorCode::NoError);
    assert_eq!(e.details, "");
}

#[test]
fn decimal_rendering() {
    assert_eq!(dec_string(0), "0");
    assert_eq!(dec_string(10), "10");
    assert_eq!(dec_string(90210), "90210");
    assert_eq!(dec_string(u64::MAX), "18446744073709551615");
}

#[test]
fn uuid_rendering_of_a_domain_handle() {
    let handle: [u8; 16] = [
        0x00, 0x11, 0x22, 0x33, 0x44, 0x55, 0x66, 0x77, 0x88, 0x99, 0xaa, 0xbb, 0xcc, 0xdd, 0xee,
        0xff,
    ];
    assert_eq!(
        get_uuid_from_domain_handle(&handle),
        "00112233-4455-6677-8899-aabbccddeeff"
    );
    let zero: [u8; 16] = [0; 16];
    assert_eq!(
        get_uuid_from_domain_handle(&zero),
        "00000000-0000-0000-0000-000000000000"
    );
}

#[test]
fn config_defaults_are_empty() {
    let c = xenops::domain_config::Config::new();
    assert_eq!(c.name, "");
    assert_eq!(c.vcpus, 0);
    assert!(matches!(c.domain_type, xenops::domain_config::DomainType::Pv));
    assert_eq!(c.memory, 0);
    assert_eq!(c.kernel, "");
    assert_eq!(c.firmware_override, "");
}

#[test]
fn layer_errors_render_a_fixed_token() {
    assert_eq!(xenops::domain_config::Error::new().text(), "error");
    assert_eq!(xenops::xenstore::Error::new().text(), "error");
}
