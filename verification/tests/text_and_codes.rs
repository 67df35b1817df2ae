use sunspec_gen::modbus::ModbusException;
use sunspec_gen::naming::{Name, NameTable};
use sunspec_gen::text::{joined, decimal_string, join_spaced, model_number, parse_u16};
use sunspec_gen::group::text_less;

#[test]
fn exception_codes_match_the_modbus_protocol() {
    assert_eq!(ModbusException::IllegalFunction.code(), 0x01);
    assert_eq!(ModbusException::IllegalDataAddress.code(), 0x02);
    assert_eq!(ModbusException::IllegalDataValue.code(), 0x03);
    assert_eq!(ModbusException::ServerDeviceFailure.code(), 0x04);
    assert_eq!(ModbusException::Acknowledge.code(), 0x05);
    assert_eq!(ModbusException::ServerDeviceBusy.code(), 0x06);
    assert_eq!(ModbusException::MemoryParityError.code(), 0x08);
    assert_eq!(ModbusException::GatewayPathUnavailable.code(), 0x0A);
    assert_eq!(ModbusException::GatewayTargetDevice.code(), 0x0B);
}

#[test]
fn exception_codes_are_distinct() {
    let all = [
        ModbusException::IllegalFunction,
        ModbusException::IllegalDataAddress,
        ModbusException::IllegalDataValue,
        ModbusException::ServerDeviceFailure,
        ModbusException::Acknowledge,
        ModbusException::ServerDeviceBusy,
        ModbusException::MemoryParityError,
        ModbusException::GatewayPathUnavailable,
        ModbusException::GatewayTargetDevice,
    ];
    for (i, a) in all.iter().enumerate() {
        for (j, b) in all.iter().enumerate() {
            assert_eq!(a.code() == b.code(), i == j);
        }
    }
}

#[test]
fn decimal_rendering_matches_display() {
    assert_eq!(decimal_string(0), "0");
    assert_eq!(decimal_string(7), "7");
    assert_eq!(decimal_string(1234), "1234");
    assert_eq!(decimal_string(-1), "-1");
    assert_eq!(decimal_string(-40), "-40");
    assert_eq!(decimal_string(i64::MAX), i64::MAX.to_string());
    assert_eq!(decimal_string(i64::MIN), i64::MIN.to_string());
}

#[test]
fn u16_parsing_matches_from_str() {
    for text in ["0", "1", "708", "+42", "65535", "65536", "", "+", "-1", "12a", "007", "99999999"] {
        assert_eq!(parse_u16(text), text.parse::<u16>().ok(), "{text}");
    }
}

#[test]
fn model_number_is_read_after_the_sixth_byte() {
    assert_eq!(model_number("model_1"), Some(1));
    assert_eq!(model_number("model_708"), Some(708));
    assert_eq!(model_number("model_"), None);
    assert_eq!(model_number("model"), None);
    assert_eq!(model_number("model_x"), None);
    assert_eq!(model_number("modèl_1"), None);
    assert_eq!(model_number("modéle12"), None);
    assert_eq!(model_number("éé_x12"), Some(12));
    assert_eq!(model_number("abcdeé1"), None);
}

#[test]
fn model_number_roundtrips_through_the_file_name() {
    for n in [0u16, 1, 9, 10, 708, 65535] {
        assert_eq!(model_number(&format!("model_{}", decimal_string(n as i64))), Some(n));
    }
}

#[test]
fn joining_inserts_one_space() {
    assert_eq!(join_spaced("a", "b"), "a b");
    assert_eq!(join_spaced("", "Label"), " Label");
    assert_eq!(joined("write_", "u16"), "write_u16");
}

#[test]
fn text_order_is_the_order_of_strings() {
    let words = ["", "a", "ab", "b", "ba", "Z", "é", "read_only", "ena"];
    for a in words {
        for b in words {
            assert_eq!(text_less(a, b), a < b, "{a} {b}");
        }
    }
}

#[test]
fn name_table_keeps_registration_order() {
    let mut table = NameTable::new();
    table.register(
        Name::new("a".to_string(), "A".to_string()),
        ("x".to_string(), "X".to_string()),
    );
    table.register_unique(Name::new("b".to_string(), "B".to_string()));
    assert_eq!(table.entries.len(), 2);
    assert_eq!(table.entries[0].name.snake_case, "a");
    assert_eq!(table.entries[0].fallback.as_ref().unwrap().pascal_case, "X");
    assert_eq!(table.entries[1].name.pascal_case, "B");
    assert!(table.entries[1].fallback.is_none());
}
