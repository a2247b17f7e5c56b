use command_parser::integer::{format_integer, parse_integer};
use command_parser::value::{format_value, parse_value, same_value, Value, ValueType};
use command_parser::{
    parse_command, parse_multiple_commands, parse_optional_command, parse_str, CommandParse,
};

#[derive(PartialEq, Eq, Debug)]
pub struct MyInt(i32);

impl CommandParse for MyInt {
    type Model = i32;

    fn parse_from_command(val: &str) -> Result<(&str, Self), &str> {
        let mut split = val.split(" ");
        let val = split.next().ok_or(val)?;
        let rest = split.next().unwrap_or("");
        let int = val.parse().map_err(|_err| rest)?;
        Ok((rest, MyInt(int)))
    }

    fn format_command(&self) -> String {
        format!("{}", self.0)
    }

    fn same_command(&self, other: &Self) -> bool {
        self.0 == other.0
    }

    fn clone_command(&self) -> Self {
        MyInt(self.0)
    }
}

#[test]
fn parse_str_splits_at_the_first_space() {
    assert_eq!(parse_str("gamerule foo bar"), ("foo bar", "gamerule"));
    assert_eq!(parse_str("gamerule"), ("", "gamerule"));
    assert_eq!(parse_str(""), ("", ""));
    assert_eq!(parse_str("a  b"), (" b", "a"));
    assert_eq!(parse_str(" b"), ("b", ""));
    assert_eq!(parse_str("h\u{e9}llo w\u{f6}rld"), ("w\u{f6}rld", "h\u{e9}llo"));
}

#[test]
fn a_type_of_the_caller_reads_through_the_protocol() {
    assert_eq!(parse_command::<MyInt>("42"), Ok(MyInt(42)));
    assert_eq!(parse_optional_command::<MyInt>("x"), ("x", None));
    assert_eq!(parse_optional_command::<MyInt>("7 rest"), ("rest", Some(MyInt(7))));
    assert_eq!(parse_command::<String>("word"), Ok("word".to_string()));
    assert_eq!(parse_command::<String>("two words"), Err("words"));
    assert_eq!(parse_command::<Box<String>>("word"), Ok(Box::new("word".to_string())));
}

#[test]
fn an_integer_takes_every_digit_and_nothing_else() {
    assert_eq!(i32::parse_from_command("17, 34"), Ok((", 34", 17)));
    assert_eq!(i32::parse_from_command("abcd 123"), Err("abcd 123"));
    assert_eq!(i32::parse_from_command("-5x"), Ok(("x", -5)));
    assert_eq!(i32::parse_from_command("42"), Ok(("", 42)));
    assert_eq!(i32::parse_from_command("42 7"), Ok((" 7", 42)));
    assert_eq!(i32::parse_from_command("-"), Err("-"));
    assert_eq!(i32::parse_from_command(""), Err(""));
    assert_eq!(i32::parse_from_command("+5"), Err("+5"));
    assert_eq!(i32::parse_from_command("007"), Ok(("", 7)));
    assert_eq!(parse_integer("0000000000000000000012z"), Ok(("z", 12)));
}

#[test]
fn an_integer_must_fit_in_32_bits() {
    assert_eq!(parse_integer("2147483647"), Ok(("", 2147483647)));
    assert_eq!(parse_integer("2147483648"), Err("2147483648"));
    assert_eq!(parse_integer("-2147483648"), Ok(("", -2147483648)));
    assert_eq!(parse_integer("-2147483649"), Err("-2147483649"));
    assert_eq!(parse_integer("99999999999999999999999"), Err("99999999999999999999999"));
}

#[test]
fn an_integer_is_written_in_decimal() {
    assert_eq!(format_integer(0), "0");
    assert_eq!(format_integer(7), "7");
    assert_eq!(format_integer(-7), "-7");
    assert_eq!(format_integer(1203), "1203");
    assert_eq!(format_integer(i32::MAX), "2147483647");
    assert_eq!(format_integer(i32::MIN), "-2147483648");
    assert_eq!(897.format_command(), "897");
}

#[test]
fn a_written_integer_reads_back() {
    for n in [0, 1, -1, 9, 10, 99, 100, -100, 2147483647, -2147483648, 23874] {
        let text = format_integer(n);
        assert_eq!(parse_integer(&text), Ok(("", n)));
    }
}

#[test]
fn a_word_ends_at_the_first_space() {
    assert_eq!(String::parse_from_command("foo bar"), Ok(("bar", "foo".to_string())));
    assert_eq!(String::parse_from_command("foo"), Ok(("", "foo".to_string())));
    assert_eq!(String::parse_from_command(""), Err(""));
    assert_eq!(String::parse_from_command(" foo"), Err("foo"));
}

#[test]
fn repeated_reads_collect_every_success() {
    let (rest, words) = parse_multiple_commands::<String>("a b c");
    assert_eq!(rest, "");
    assert_eq!(words, vec!["a".to_string(), "b".to_string(), "c".to_string()]);
    let (rest, numbers) = parse_multiple_commands::<i32>("12x");
    assert_eq!(rest, "x");
    assert_eq!(numbers, vec![12]);
    let (rest, numbers) = parse_multiple_commands::<i32>("x");
    assert_eq!(rest, "x");
    assert_eq!(numbers, Vec::<i32>::new());
}

#[test]
fn values_of_each_kind_read_and_write() {
    let word = parse_value::<MyInt>(&ValueType::Word, "foo bar");
    assert_eq!(word, Ok(("bar", Value::Word("foo".to_string()))));
    let number = parse_value::<MyInt>(&ValueType::Integer, "-12, 3");
    assert_eq!(number, Ok((", 3", Value::Integer(-12))));
    let custom = parse_value::<MyInt>(&ValueType::Custom, "15 x");
    assert_eq!(custom, Ok(("x", Value::Custom(MyInt(15)))));
    let optional = ValueType::Optional(Box::new(ValueType::Integer));
    assert_eq!(
        parse_value::<MyInt>(&optional, "5"),
        Ok(("", Value::Optional(Some(Box::new(Value::Integer(5))))))
    );
    assert_eq!(parse_value::<MyInt>(&optional, "x"), Ok(("x", Value::Optional(None))));
    let repeated = ValueType::Repeated(Box::new(ValueType::Word));
    let many = parse_value::<MyInt>(&repeated, "a b c").unwrap();
    assert_eq!(
        many,
        (
            "",
            Value::Repeated(vec![
                Value::Word("a".to_string()),
                Value::Word("b".to_string()),
                Value::Word("c".to_string())
            ])
        )
    );
    assert_eq!(format_value(&many.1), "a b c");
    assert_eq!(parse_value::<MyInt>(&repeated, ""), Err(""));
    assert_eq!(format_value::<MyInt>(&Value::Optional(None)), "");
    assert_eq!(format_value(&Value::Custom(MyInt(3))), "3");
    assert_eq!(format_value::<MyInt>(&Value::Integer(-3)), "-3");
}

#[test]
fn a_repeated_optional_value_ends_the_run() {
    let kind = ValueType::Repeated(Box::new(ValueType::Optional(Box::new(ValueType::Word))));
    assert_eq!(
        parse_value::<MyInt>(&kind, "a"),
        Ok(("", Value::Repeated(vec![Value::Optional(Some(Box::new(Value::Word("a".to_string()))))])))
    );
    assert_eq!(parse_value::<MyInt>(&kind, ""), Err(""));
}

#[test]
fn values_are_compared_by_what_they_hold() {
    let a: Value<MyInt> = Value::Repeated(vec![Value::Integer(1), Value::Custom(MyInt(2))]);
    let b: Value<MyInt> = Value::Repeated(vec![Value::Integer(1), Value::Custom(MyInt(2))]);
    let c: Value<MyInt> = Value::Repeated(vec![Value::Integer(1), Value::Custom(MyInt(3))]);
    assert!(same_value(&a, &b));
    assert!(!same_value(&a, &c));
    assert!(!same_value(&a, &Value::Integer(1)));
    assert!(same_value::<MyInt>(&Value::Optional(None), &Value::Optional(None)));
}
