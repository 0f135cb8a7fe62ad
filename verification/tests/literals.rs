use veryl_css::constant::value_to_css_int;
use veryl_css::literal::literal_to_css_int;
use veryl_css::value::{format_value, Value};

fn css(text: &str) -> Result<String, String> {
    literal_to_css_int(text).map_err(|e| e.message)
}

fn value(bits: u64, width: u32, signed: bool) -> Value {
    Value { payload: vec![bits as u32, (bits >> 32) as u32], mask_xz: vec![], width, signed, big: false }
}

fn constant(value: &Value) -> Result<String, String> {
    value_to_css_int(value).map_err(|e| e.message)
}

#[test]
fn plain_decimals_are_kept() {
    assert_eq!(css("42"), Ok("42".to_string()));
    assert_eq!(css("-1"), Ok("-1".to_string()));
    assert_eq!(css("007"), Ok("007".to_string()));
    assert_eq!(css(" 1_000\n"), Ok("1000".to_string()));
    assert_eq!(css("-0"), Ok("-0".to_string()));
}

#[test]
fn based_literals_are_read() {
    assert_eq!(css("32'sh00000001"), Ok("1".to_string()));
    assert_eq!(css("8'b10101010"), Ok("170".to_string()));
    assert_eq!(css("8'sb10101010"), Ok("-86".to_string()));
    assert_eq!(css("12'o777"), Ok("511".to_string()));
    assert_eq!(css("'d12"), Ok("12".to_string()));
    assert_eq!(css("8'HFF"), Ok("255".to_string()));
    assert_eq!(css("32'shffffffff"), Ok("-1".to_string()));
    assert_eq!(css("32'sh80000000"), Ok("-2147483648".to_string()));
    assert_eq!(css("'shff"), Ok("255".to_string()));
    assert_eq!(css("8'h+f"), Ok("15".to_string()));
}

#[test]
fn wide_literals_are_read_as_128_bits() {
    assert_eq!(
        css("128'sh80000000000000000000000000000000"),
        Ok("-170141183460469231731687303715884105728".to_string())
    );
    assert_eq!(css("128'hffffffffffffffffffffffffffffffff"), Ok("-1".to_string()));
    assert_eq!(
        css("127'h7fffffffffffffffffffffffffffffff"),
        Ok("170141183460469231731687303715884105727".to_string())
    );
}

#[test]
fn unknown_digits_are_refused() {
    assert_eq!(css("4'bx"), Err("x/z literal is unsupported: 4'bx".to_string()));
    assert_eq!(css("8'hZZ"), Err("x/z literal is unsupported: 8'hZZ".to_string()));
    assert_eq!(css(" X "), Err("x/z literal is unsupported:  X ".to_string()));
}

#[test]
fn malformed_literals_are_refused() {
    assert_eq!(css("abc"), Err("unsupported literal syntax: abc".to_string()));
    for text in ["-abc", "", "-", " _ ", "--1", "1-", "-1a"] {
        assert_eq!(css(text), Err(format!("unsupported literal syntax: {text}")));
    }
    for text in ["8'", "'", "8's", "8'\u{e9}1", "8's\u{e9}"] {
        assert_eq!(css(text), Err(format!("unsupported literal base in: {text}")));
    }
    assert_eq!(css("8'q1"), Err("unsupported literal base in: 8'q1".to_string()));
    assert_eq!(css("8'b2"), Err("invalid digit found in string".to_string()));
    assert_eq!(css("8'd"), Err("cannot parse integer from empty string".to_string()));
    assert_eq!(css("8'd+"), Err("invalid digit found in string".to_string()));
    assert_eq!(
        css("200'h100000000000000000000000000000000"),
        Err("number too large to fit in target type".to_string())
    );
}

#[test]
fn values_are_written_in_veryl_notation() {
    assert_eq!(format_value(&value(1, 32, true)), "32'sh00000001");
    assert_eq!(format_value(&value(0xab, 8, false)), "8'hab");
    assert_eq!(format_value(&value(5, 6, false)), "6'h05");
    assert_eq!(format_value(&value(0, 0, false)), "'0");
    assert_eq!(format_value(&value(1, 0, false)), "'1");
    let wide = Value { payload: vec![0, 0, 1], mask_xz: vec![], width: 68, signed: false, big: false };
    assert_eq!(format_value(&wide), "68'h10000000000000000");
    let partly = Value { payload: vec![0xf0], mask_xz: vec![0x0f], width: 8, signed: false, big: false };
    assert_eq!(format_value(&partly), "8'hfx");
    let mixed = Value { payload: vec![0x80], mask_xz: vec![0x81], width: 8, signed: false, big: false };
    assert_eq!(format_value(&mixed), "8'hZX");
}

#[test]
fn value_notation_is_that_of_the_analyzer() {
    for (bits, width, signed) in [(7u64, 3u32, false), (0x1234, 16, true), (u64::MAX, 64, false)] {
        let outside = veryl_analyzer::value::Value::new(bits, width as usize, signed);
        assert_eq!(format_value(&value(bits, width, signed)), format!("{outside:x}"));
    }
}

#[test]
fn big_values_are_written_in_full() {
    let empty = Value { payload: vec![], mask_xz: vec![], width: 0, signed: true, big: true };
    assert_eq!(format_value(&empty), "0'sh");
    assert_eq!(constant(&empty), Err("cannot parse integer from empty string".to_string()));
    let outside = veryl_analyzer::value::ValueBigUint::new(0, 0, true);
    let outside = veryl_analyzer::value::Value::BigUint(outside);
    assert_eq!(format!("{outside:x}"), "0'sh");
    let narrow = Value { payload: vec![0xab], mask_xz: vec![], width: 8, signed: false, big: true };
    assert_eq!(format_value(&narrow), "8'hab");
}

#[test]
fn known_constants_stand_for_their_integers() {
    assert_eq!(constant(&value(1, 32, true)), Ok("1".to_string()));
    assert_eq!(constant(&value(0xffff_fffe, 32, true)), Ok("-2".to_string()));
    assert_eq!(constant(&value(0xffff_fffe, 32, false)), Ok("4294967294".to_string()));
    assert_eq!(constant(&value(1, 1, true)), Ok("-1".to_string()));
    let wide = Value { payload: vec![0, 0, 0, 0, 1], mask_xz: vec![], width: 129, signed: false, big: false };
    assert_eq!(constant(&wide), Err("number too large to fit in target type".to_string()));
    let below = Value { payload: vec![0, 0, 1], mask_xz: vec![], width: 100, signed: false, big: false };
    assert_eq!(constant(&below), Ok("18446744073709551616".to_string()));
}

#[test]
fn unknown_constants_are_refused() {
    let x = Value { payload: vec![0], mask_xz: vec![0xf], width: 4, signed: false, big: false };
    assert_eq!(constant(&x), Err("x/z literal is unsupported: 4'hx".to_string()));
    let z = Value { payload: vec![1], mask_xz: vec![1], width: 0, signed: false, big: false };
    assert_eq!(constant(&z), Err("x/z literal is unsupported: 'z".to_string()));
    let fill = Value { payload: vec![1], mask_xz: vec![], width: 0, signed: false, big: false };
    assert_eq!(constant(&fill), Err("unsupported literal base in: '1".to_string()));
}
