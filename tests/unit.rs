use homestar::codec::{decode, encode};
use homestar::unit::Unit;
use homestar::value::Value;

#[test]
fn unit_ser_de() {
    let unit = Unit;
    let ser = encode(&unit.to_value());
    let de = Unit::from_value(decode(&ser).unwrap());

    assert_eq!(unit, de);
}

#[test]
fn unit_is_null() {
    assert_eq!(Unit.to_value(), Value::Null);
    assert_eq!(encode(&Unit.to_value()), vec![0xf6]);
}
