use muon::{decode_any, decode_bool, decode_date, decode_datetime, decode_int, decode_number,
    decode_text, decode_time, Int, Value};

#[test]
fn bool_tokens() {
    assert_eq!(decode_bool("true"), Some(true));
    assert_eq!(decode_bool("false"), Some(false));
    assert_eq!(decode_bool("True"), None);
    assert_eq!(decode_bool("tru"), None);
    assert_eq!(decode_bool(""), None);
}

#[test]
fn int_width_small_signed() {
    assert!(matches!(decode_int("127"), Some(Int::ByteS(127))));
    assert!(matches!(decode_int("0"), Some(Int::ByteS(0))));
    assert!(matches!(decode_int("007"), Some(Int::ByteS(7))));
    assert!(matches!(decode_int("+42"), Some(Int::ByteS(42))));
    assert!(matches!(decode_int("-128"), Some(Int::ByteS(-128))));
}

#[test]
fn int_width_ladder() {
    assert!(matches!(decode_int("200"), Some(Int::ByteU(200))));
    assert!(matches!(decode_int("256"), Some(Int::HalfS(256))));
    assert!(matches!(decode_int("32768"), Some(Int::HalfU(32768))));
    assert!(matches!(decode_int("65536"), Some(Int::WordS(65536))));
    assert!(matches!(decode_int("2147483648"), Some(Int::WordU(2147483648))));
    assert!(matches!(decode_int("4294967296"), Some(Int::LongS(4294967296))));
    assert!(matches!(
        decode_int("9223372036854775808"),
        Some(Int::LongU(9223372036854775808))
    ));
    assert!(matches!(decode_int("-129"), Some(Int::HalfS(-129))));
    assert!(matches!(decode_int("-32769"), Some(Int::WordS(-32769))));
    assert!(matches!(decode_int("-2147483649"), Some(Int::LongS(-2147483649))));
    assert!(matches!(
        decode_int("-9223372036854775808"),
        Some(Int::LongS(i64::MIN))
    ));
}

#[test]
fn int_big_magnitude_exact() {
    // 10^20 - 1, beyond 64-bit range: exact base-2^32 limbs, little-endian.
    let lit = "99999999999999999999";
    let n: u128 = 99999999999999999999;
    let expect = [
        (n % (1u128 << 32)) as i64,
        ((n >> 32) % (1u128 << 32)) as i64,
        (n >> 64) as i64,
    ];
    match decode_int(lit) {
        Some(Int::Big(limbs)) => {
            assert_eq!(limbs.len(), 3);
            assert_eq!(limbs[0], expect[0]);
            assert_eq!(limbs[1], expect[1]);
            assert_eq!(limbs[2], expect[2]);
        }
        other => panic!("expected Big, got {:?}", other.is_some()),
    }
}

#[test]
fn int_big_negative() {
    let n: u128 = 99999999999999999999;
    match decode_int("-99999999999999999999") {
        Some(Int::Big(limbs)) => {
            assert_eq!(limbs.len(), 3);
            assert_eq!(limbs[0], -((n % (1u128 << 32)) as i64));
            assert_eq!(limbs[1], -(((n >> 32) % (1u128 << 32)) as i64));
            assert_eq!(limbs[2], -((n >> 64) as i64));
        }
        _ => panic!("expected Big"),
    }
}

#[test]
fn int_rejects() {
    assert!(decode_int("").is_none());
    assert!(decode_int("+").is_none());
    assert!(decode_int("-").is_none());
    assert!(decode_int("12a").is_none());
    assert!(decode_int("1.5").is_none());
}

#[test]
fn number_grammar() {
    assert_eq!(decode_number("3.14").as_deref(), Some("3.14"));
    assert_eq!(decode_number("-2.5E-3").as_deref(), Some("-2.5E-3"));
    assert_eq!(decode_number("1e10").as_deref(), Some("1e10"));
    assert_eq!(decode_number("42").as_deref(), Some("42"));
    assert_eq!(decode_number("inf").as_deref(), Some("inf"));
    assert_eq!(decode_number("-inf").as_deref(), Some("-inf"));
    assert_eq!(decode_number("NaN").as_deref(), Some("NaN"));
    assert!(decode_number("1.").is_none());
    assert!(decode_number(".5").is_none());
    assert!(decode_number("1e").is_none());
    assert!(decode_number("nan").is_none());
    assert!(decode_number("Infinity").is_none());
    assert!(decode_number("abc").is_none());
}

#[test]
fn date_fields_round_trip() {
    let d = decode_date("2020-02-29").expect("leap day");
    assert_eq!(d.year(), 2020);
    assert_eq!(d.month(), 2);
    assert_eq!(d.day(), 29);
    assert_eq!(d.to_text(), "2020-02-29");
}

#[test]
fn date_range_checks() {
    assert!(decode_date("2021-02-29").is_none());
    assert!(decode_date("2000-02-29").is_some());
    assert!(decode_date("1900-02-29").is_none());
    assert!(decode_date("2020-13-01").is_none());
    assert!(decode_date("2020-00-10").is_none());
    assert!(decode_date("2020-04-31").is_none());
    assert!(decode_date("2020-12-31").is_some());
    assert!(decode_date("2020-1-05").is_none());
    assert!(decode_date("20200105").is_none());
}

#[test]
fn time_fields_round_trip() {
    let t = decode_time("23:59:58").expect("valid time");
    assert_eq!(t.hour(), 23);
    assert_eq!(t.minute(), 59);
    assert_eq!(t.second(), 58);
    assert_eq!(t.to_text(), "23:59:58");
}

#[test]
fn time_suffixes() {
    assert!(decode_time("12:00:00.5").is_some());
    assert!(decode_time("12:00:00.250Z").is_some());
    assert!(decode_time("12:00:00Z").is_some());
    assert!(decode_time("12:00:00+05:30").is_some());
    assert!(decode_time("12:00:00-23:59").is_some());
    assert!(decode_time("24:00:00").is_none());
    assert!(decode_time("12:60:00").is_none());
    assert!(decode_time("12:00:60").is_none());
    assert!(decode_time("12:00:00.").is_none());
    assert!(decode_time("12:00:00+24:00").is_none());
    assert!(decode_time("12:00:00x").is_none());
}

#[test]
fn datetime_round_trip() {
    let dt = decode_datetime("2020-01-15T08:30:05").expect("valid date-time");
    assert_eq!(dt.date().year(), 2020);
    assert_eq!(dt.date().month(), 1);
    assert_eq!(dt.date().day(), 15);
    assert_eq!(dt.time().hour(), 8);
    assert_eq!(dt.time().minute(), 30);
    assert_eq!(dt.time().second(), 5);
    assert!(decode_datetime("2020-01-15 08:30:05").is_none());
    assert!(decode_datetime("2020-01-15T24:00:00").is_none());
}

#[test]
fn text_unescape() {
    assert_eq!(decode_text("plain").as_deref(), Some("plain"));
    assert_eq!(decode_text("a\\:b").as_deref(), Some("a:b"));
    assert_eq!(decode_text("a\\nb").as_deref(), Some("a\nb"));
    assert_eq!(decode_text("a\\#b").as_deref(), Some("a#b"));
    assert_eq!(decode_text("a\\\\b").as_deref(), Some("a\\b"));
    assert!(decode_text("bad\\qescape").is_none());
    assert!(decode_text("trailing\\").is_none());
}

#[test]
fn any_priority_int_over_text_and_number() {
    // "42" is an integer first, never text or a number.
    match decode_any("42") {
        Ok(Value::Int(Int::ByteS(42))) => {}
        _ => panic!("expected Int"),
    }
}

#[test]
fn any_priority_order() {
    assert!(matches!(decode_any("true"), Ok(Value::Bool(true))));
    assert!(matches!(decode_any("3.5"), Ok(Value::Number(_))));
    assert!(matches!(decode_any("2020-01-15"), Ok(Value::Date(_))));
    assert!(matches!(decode_any("08:30:00"), Ok(Value::Time(_))));
    assert!(matches!(decode_any("2020-01-15T08:30:00"), Ok(Value::DateTime(_))));
    assert!(matches!(decode_any("hello world"), Ok(Value::Text(_))));
    assert!(matches!(decode_any("2020-13-01"), Ok(Value::Text(_))));
    assert!(matches!(decode_any("bad\\q"), Err(muon::Error::Scalar)));
}
