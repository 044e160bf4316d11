use homestar::codec::{decode, encode};
use homestar::instruction_result::{InstructionResult, ResultShapeError};
use homestar::value::Value;

fn text(s: &str) -> Value {
    Value::Text(s.to_string())
}

#[test]
fn ipld_roundtrip() {
    let res1 = InstructionResult::Error(text("bad stuff"));
    let res2 = InstructionResult::Success(text("ok stuff"));
    let res3 = InstructionResult::Just(text("just the right stuff"));
    let ipld1 = res1.copy().to_value();
    let ipld2 = res2.copy().to_value();
    let ipld3 = res3.copy().to_value();

    assert_eq!(ipld1, Value::List(vec![text("error"), text("bad stuff")]));
    assert_eq!(ipld2, Value::List(vec![text("ok"), text("ok stuff")]));
    assert_eq!(ipld3, Value::List(vec![text("just"), text("just the right stuff")]));

    assert_eq!(res1, InstructionResult::try_from_value(ipld1).unwrap());
    assert_eq!(res2, InstructionResult::try_from_value(ipld2).unwrap());
    assert_eq!(res3, InstructionResult::try_from_value(ipld3).unwrap());
}

#[test]
fn instruction_result_ser_de() {
    let res1 = InstructionResult::Error(text("bad stuff"));
    let res2 = InstructionResult::Success(text("ok stuff"));
    let res3 = InstructionResult::Just(text("just the right stuff"));

    let ser = encode(&res1.copy().to_value());
    let de = InstructionResult::try_from_value(decode(&ser).unwrap()).unwrap();
    assert_eq!(res1, de);

    let ser = encode(&res2.copy().to_value());
    let de = InstructionResult::try_from_value(decode(&ser).unwrap()).unwrap();
    assert_eq!(res2, de);

    let ser = encode(&res3.copy().to_value());
    let de = InstructionResult::try_from_value(decode(&ser).unwrap()).unwrap();
    assert_eq!(res3, de);
}

#[test]
fn inner_and_into_inner_ignore_the_tag() {
    let r = InstructionResult::Error(Value::Integer(7));
    assert_eq!(r.inner(), &Value::Integer(7));
    assert_eq!(r.into_inner(), Value::Integer(7));
    let r = InstructionResult::Just(Value::Bool(true));
    assert_eq!(r.into_inner(), Value::Bool(true));
}

#[test]
fn result_from_non_list_is_refused() {
    assert_eq!(
        InstructionResult::try_from_value(Value::Integer(1)),
        Err(ResultShapeError::NotAList)
    );
}

#[test]
fn result_with_unknown_tag_is_refused() {
    let v = Value::List(vec![text("maybe"), Value::Integer(1)]);
    assert_eq!(
        InstructionResult::try_from_value(v),
        Err(ResultShapeError::UnexpectedShape)
    );
    let v = Value::List(vec![text("ok")]);
    assert_eq!(
        InstructionResult::try_from_value(v),
        Err(ResultShapeError::UnexpectedShape)
    );
}
