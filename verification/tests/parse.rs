use datastruct::binary_util::Binary;
use datastruct::{DValue, Number, ValueParser};

fn num(x: f64) -> DValue {
    DValue::Number(Number::from_text(&x.to_string()).unwrap())
}

#[test]
fn parse_list() {
    assert_eq!(
        ValueParser::parse("[1,2,3,4,5]"),
        Ok((
            "",
            DValue::List(vec![num(1.0), num(2.0), num(3.0), num(4.0), num(5.0)])
        ))
    );
}

#[test]
fn parse_tuple() {
    assert_eq!(
        ValueParser::parse("(true,1)"),
        Ok((
            "",
            DValue::Tuple((Box::new(DValue::Boolean(true)), Box::new(num(1_f64))))
        ))
    );
}

#[test]
fn parse_binary() {
    let message = "binary!(bWVtZW50byBtb3Jp)";
    assert_eq!(
        ValueParser::parse(message),
        Ok((
            "",
            DValue::BinaryUtil(Binary::new(
                [109, 101, 109, 101, 110, 116, 111, 32, 109, 111, 114, 105].to_vec()
            ))
        ))
    )
}
