use command_parser::engine::{parse_input, Command};
use command_parser::error::GrammarError;
use command_parser::grammar::{compile, Family, FieldsDesc, ItemDesc, StructDesc, TemplateDesc};
use command_parser::parse_tree::{ParseNode, ParseTree};
use command_parser::render::try_render;
use command_parser::template::{split_words, ParseAttr};
use command_parser::value::{Value, ValueType};
use command_parser::CommandParse;

#[derive(PartialEq, Eq, Debug)]
pub struct MyInt(i32);

impl CommandParse for MyInt {
    type Model = i32;

    fn parse_from_command(val: &str) -> Result<(&str, Self), &str> {
        let mut split = val.split(" ");
        let val = split.next().ok_or(val)?;
        let rest = split.next().unwrap_or("");
        let int = val.parse().map_err(|_err| rest)?;
        Ok((rest, MyInt(int)))
    }

    fn format_command(&self) -> String {
        format!("{}", self.0)
    }

    fn same_command(&self, other: &Self) -> bool {
        self.0 == other.0
    }

    fn clone_command(&self) -> Self {
        MyInt(self.0)
    }
}

fn template(text: &str, defaults: Vec<(&str, Value<MyInt>)>) -> TemplateDesc<MyInt> {
    TemplateDesc {
        text: text.to_string(),
        defaults: defaults.into_iter().map(|(name, value)| (name.to_string(), value)).collect(),
    }
}

fn command(
    name: &str,
    fields: Vec<(&str, ValueType)>,
    templates: Vec<TemplateDesc<MyInt>>,
) -> ItemDesc<MyInt> {
    ItemDesc::Struct(StructDesc {
        name: name.to_string(),
        fields: if fields.is_empty() {
            FieldsDesc::Unit
        } else {
            FieldsDesc::Named(
                fields.into_iter().map(|(name, kind)| (name.to_string(), kind)).collect(),
            )
        },
        templates,
    })
}

fn target() -> ItemDesc<MyInt> {
    ItemDesc::Enum { name: "Command".to_string(), variants: 0 }
}

fn value(name: &str, fields: Vec<(&str, Value<MyInt>)>) -> Command<MyInt> {
    Command {
        name: name.to_string(),
        fields: fields.into_iter().map(|(name, value)| (name.to_string(), value)).collect(),
    }
}

fn my_module() -> Family<MyInt> {
    compile(
        0,
        vec![
            target(),
            ItemDesc::Other,
            command(
                "Foo",
                vec![("baz", ValueType::Custom)],
                vec![template("Foo Bar $baz", vec![])],
            ),
            command(
                "Bar",
                vec![("foo", ValueType::Custom)],
                vec![template("Bar Baz $foo", vec![])],
            ),
            command(
                "MultipleOptions",
                vec![("value", ValueType::Custom), ("my_int", ValueType::Custom)],
                vec![
                    template(
                        "This is a long command with option: $my_int",
                        vec![("value", Value::Custom(MyInt(0)))],
                    ),
                    template("Short version: $my_int $value", vec![]),
                ],
            ),
            command(
                "MultipleVariables",
                vec![
                    ("foo", ValueType::Word),
                    ("bar", ValueType::Optional(Box::new(ValueType::Word))),
                ],
                vec![
                    template("gamerule $foo", vec![("bar", Value::Optional(None))]),
                    template("gamerule $foo $bar", vec![]),
                ],
            ),
        ],
    )
    .unwrap()
}

#[test]
fn test_command_macro() {
    let family = my_module();

    let foo = family.parse("Foo Bar 42").unwrap();
    assert_eq!(family.render(&foo), "Foo Bar 42");

    let bar = family.parse("Bar Baz 150").unwrap();
    assert_eq!(family.render(&bar), "Bar Baz 150");

    let multiple_options_a = family.parse("This is a long command with option: 897").unwrap();
    let multiple_options_b = family.parse("Short version: 23874 15").unwrap();
    assert_eq!(
        multiple_options_a,
        value(
            "MultipleOptions",
            vec![("value", Value::Custom(MyInt(0))), ("my_int", Value::Custom(MyInt(897)))]
        )
    );
    assert_eq!(
        multiple_options_b,
        value(
            "MultipleOptions",
            vec![("value", Value::Custom(MyInt(15))), ("my_int", Value::Custom(MyInt(23874)))]
        )
    );
    assert_eq!(family.render(&multiple_options_a), "This is a long command with option: 897");
    assert_eq!(family.render(&multiple_options_b), "Short version: 23874 15");

    let baz = family.parse("gamerule foo").unwrap();
    assert_eq!(family.render(&baz), "gamerule foo")
}

#[test]
fn tests() {
    let it_works = compile(
        0,
        vec![
            target(),
            command("HelloWorld", vec![], vec![template("Foo", vec![])]),
            command("Bar", vec![], vec![template("Bar", vec![])]),
        ],
    );
    assert!(it_works.is_ok());
    let multiple_options = compile(
        0,
        vec![
            target(),
            command(
                "HelloWorld",
                vec![],
                vec![template("Foo Bar Baz", vec![]), template("Foo Bar Qux", vec![])],
            ),
        ],
    );
    assert!(multiple_options.is_ok());
    let default_args = compile(
        0,
        vec![
            target(),
            command(
                "HelloWorld",
                vec![("came_from", ValueType::Word)],
                vec![
                    template("Foo Bar", vec![("came_from", Value::Word("true".to_string()))]),
                    template("Foo Baz", vec![("came_from", Value::Word("false".to_string()))]),
                ],
            ),
        ],
    );
    assert!(default_args.is_ok());
    let captures = compile(
        0,
        vec![
            target(),
            command(
                "HelloWorld",
                vec![("baz", ValueType::Custom)],
                vec![template("Foo Bar $baz", vec![])],
            ),
        ],
    );
    assert!(captures.is_ok());
    let no_enum = compile(
        0,
        vec![
            command("HelloWorld", vec![], vec![template("Foo", vec![])]),
            command("Bar", vec![], vec![template("Bar", vec![])]),
        ],
    );
    assert_eq!(no_enum.err(), Some(GrammarError::MissingTargetEnum));
}

#[test]
fn a_built_family_lists_its_commands_in_order() {
    let family = my_module();
    assert_eq!(family.name, "Command");
    let names: Vec<&str> = family.variants.iter().map(|v| v.name.as_str()).collect();
    assert_eq!(names, vec!["Foo", "Bar", "MultipleOptions", "MultipleVariables"]);
    assert_eq!(family.variants[2].templates.len(), 2);
    assert_eq!(
        family.variants[0].templates[0].parse_template,
        vec![
            ParseNode::Literal("Foo".to_string()),
            ParseNode::Literal("Bar".to_string()),
            ParseNode::Function { name: ValueType::Custom, binding: "baz".to_string() },
        ]
    );
}

#[test]
fn a_command_without_a_template_is_no_variant() {
    let family = compile(
        0,
        vec![
            target(),
            command("Silent", vec![("x", ValueType::Word)], vec![]),
            command("Loud", vec![], vec![template("loud", vec![])]),
        ],
    )
    .unwrap();
    assert_eq!(family.variants.len(), 1);
    assert_eq!(family.variants[0].name, "Loud");
}

#[test]
fn a_keyword_is_taken_before_a_capture() {
    let family = compile(
        0,
        vec![
            target(),
            command("Any", vec![("x", ValueType::Word)], vec![template("cmd $x", vec![])]),
            command("Stop", vec![], vec![template("cmd stop", vec![])]),
        ],
    )
    .unwrap();
    assert_eq!(family.parse("cmd stop"), Ok(value("Stop", vec![])));
    assert_eq!(
        family.parse("cmd go"),
        Ok(value("Any", vec![("x", Value::Word("go".to_string()))]))
    );
}

#[test]
fn a_keyword_that_matched_is_not_read_again_as_a_capture() {
    let family = compile(
        0,
        vec![
            target(),
            command("Any", vec![("x", ValueType::Word)], vec![template("cmd $x", vec![])]),
            command("Stop", vec![], vec![template("cmd stop now", vec![])]),
        ],
    )
    .unwrap();
    assert_eq!(family.parse("cmd stop"), Err(""));
    assert_eq!(family.parse("cmd stop now"), Ok(value("Stop", vec![])));
}

#[test]
fn captures_are_tried_in_the_order_of_their_templates() {
    let family = compile(
        0,
        vec![
            target(),
            command("Number", vec![("n", ValueType::Integer)], vec![template("set $n", vec![])]),
            command("Name", vec![("w", ValueType::Word)], vec![template("set $w", vec![])]),
        ],
    )
    .unwrap();
    assert_eq!(family.parse("set 12"), Ok(value("Number", vec![("n", Value::Integer(12))])));
    assert_eq!(
        family.parse("set twelve"),
        Ok(value("Name", vec![("w", Value::Word("twelve".to_string()))]))
    );
    assert_eq!(
        family.parse("set 12th"),
        Ok(value("Name", vec![("w", Value::Word("12th".to_string()))]))
    );
}

#[test]
fn a_field_without_a_capture_takes_its_default() {
    let family = compile(
        0,
        vec![
            target(),
            command(
                "Cmd",
                vec![("x", ValueType::Integer), ("y", ValueType::Word)],
                vec![
                    template("cmd $x", vec![("y", Value::Word("D".to_string()))]),
                    template("cmd $y $x", vec![]),
                ],
            ),
        ],
    )
    .unwrap();
    let parsed = family.parse("cmd 5").unwrap();
    assert_eq!(
        parsed,
        value("Cmd", vec![("x", Value::Integer(5)), ("y", Value::Word("D".to_string()))])
    );
    assert_eq!(family.render(&parsed), "cmd 5");
    let other = family.parse("cmd E 5").unwrap();
    assert_eq!(
        other,
        value("Cmd", vec![("x", Value::Integer(5)), ("y", Value::Word("E".to_string()))])
    );
    assert_eq!(family.render(&other), "cmd E 5");
    let same = family.parse("cmd D 5").unwrap();
    assert_eq!(same, parsed);
    assert_eq!(family.render(&same), "cmd 5");
}

#[test]
fn input_left_over_fails_the_parse() {
    let family = compile(
        0,
        vec![target(), command("Only", vec![], vec![template("Foo Bar Baz", vec![])])],
    )
    .unwrap();
    assert_eq!(family.parse("Foo Bar Baz"), Ok(value("Only", vec![])));
    assert_eq!(family.parse("Foo Bar Baz extra"), Err("extra"));
    assert_eq!(family.parse("Foo Bar"), Err(""));
    assert_eq!(family.parse("Foo  Bar Baz"), Err(" Bar Baz"));
    assert_eq!(family.parse(""), Err(""));
}

#[test]
fn templates_with_a_common_start_share_their_path() {
    let family = compile(
        0,
        vec![
            target(),
            command("Baz", vec![], vec![template("Foo Bar Baz", vec![])]),
            command("Qux", vec![], vec![template("Foo Bar Qux", vec![])]),
        ],
    )
    .unwrap();
    assert_eq!(family.tree.options.len(), 1);
    assert_eq!(family.tree.options[0].payload, ParseNode::Literal("Foo".to_string()));
    assert_eq!(family.tree.options[0].options.len(), 1);
    assert_eq!(family.tree.options[0].options[0].payload, ParseNode::Literal("Bar".to_string()));
    assert_eq!(family.tree.options[0].options[0].options.len(), 2);
    assert_eq!(family.parse("Foo Bar Baz"), Ok(value("Baz", vec![])));
    assert_eq!(family.parse("Foo Bar Qux"), Ok(value("Qux", vec![])));
}

#[test]
fn a_rendered_command_parses_to_itself() {
    let family = my_module();
    for line in [
        "Foo Bar 42",
        "Bar Baz -150",
        "This is a long command with option: 897",
        "Short version: 23874 15",
        "Short version: 23874 0",
        "gamerule foo",
        "gamerule foo bar",
    ] {
        let parsed = family.parse(line).unwrap();
        let text = family.render(&parsed);
        assert_eq!(family.parse(&text), Ok(parsed));
    }
}

#[test]
fn a_command_that_no_template_makes_is_not_rendered() {
    let family = my_module();
    let unknown = value("Nothing", vec![]);
    assert_eq!(family.try_render(&unknown), None);
    let short = value("Foo", vec![]);
    assert_eq!(family.try_render(&short), None);
    let templates = vec![ParseAttr::<MyInt>::new(
        "on",
        vec![("flag".to_string(), Value::Integer(1))],
        &vec![("flag".to_string(), ValueType::Integer)],
    )
    .unwrap()];
    assert_eq!(try_render(&templates, &value("Switch", vec![("flag", Value::Integer(0))])), None);
    assert_eq!(
        try_render(&templates, &value("Switch", vec![("flag", Value::Integer(1))])),
        Some("on".to_string())
    );
}

#[test]
fn the_words_of_a_template_are_its_tokens() {
    assert_eq!(split_words("  Foo \t Bar\n$baz "), vec!["Foo", "Bar", "$baz"]);
    assert_eq!(split_words(""), Vec::<String>::new());
    assert_eq!(split_words(" \r\n"), Vec::<String>::new());
    let attr = ParseAttr::<MyInt>::new(
        "give $who  $count",
        vec![],
        &vec![("count".to_string(), ValueType::Integer), ("who".to_string(), ValueType::Word)],
    )
    .unwrap();
    assert_eq!(
        attr.parse_template,
        vec![
            ParseNode::Literal("give".to_string()),
            ParseNode::Function { name: ValueType::Word, binding: "who".to_string() },
            ParseNode::Function { name: ValueType::Integer, binding: "count".to_string() },
        ]
    );
}

#[test]
fn each_fault_of_a_grammar_is_reported() {
    let ok = || command("A", vec![], vec![template("a", vec![])]);
    assert_eq!(compile(1, vec![target(), ok()]).err(), Some(GrammarError::UnexpectedArguments));
    assert_eq!(compile(0, vec![ok()]).err(), Some(GrammarError::MissingTargetEnum));
    assert_eq!(
        compile(0, vec![ItemDesc::Enum { name: "Command".to_string(), variants: 2 }, ok()]).err(),
        Some(GrammarError::TargetEnumNotEmpty)
    );
    let tuple = ItemDesc::Struct(StructDesc {
        name: "HelloWorld".to_string(),
        fields: FieldsDesc::Unnamed,
        templates: vec![template("Foo $0", vec![])],
    });
    assert_eq!(compile(0, vec![target(), tuple]).err(), Some(GrammarError::TupleStruct));
    let unknown = command("A", vec![("x", ValueType::Word)], vec![template("a $y", vec![])]);
    assert_eq!(compile(0, vec![target(), unknown]).err(), Some(GrammarError::UnknownField));
    let stray = command(
        "A",
        vec![("x", ValueType::Word)],
        vec![template("a $x", vec![("z", Value::Integer(1))])],
    );
    assert_eq!(compile(0, vec![target(), stray]).err(), Some(GrammarError::UnknownField));
    let twice = command(
        "A",
        vec![("x", ValueType::Word)],
        vec![template("a $x", vec![("x", Value::Word("w".to_string()))])],
    );
    assert_eq!(compile(0, vec![target(), twice]).err(), Some(GrammarError::FieldCoveredTwice));
    let uncovered = command(
        "A",
        vec![("x", ValueType::Word), ("y", ValueType::Word)],
        vec![template("a $x", vec![])],
    );
    assert_eq!(compile(0, vec![target(), uncovered]).err(), Some(GrammarError::UncoveredField));
    let repeated = command(
        "A",
        vec![("x", ValueType::Word), ("x", ValueType::Word)],
        vec![template("a $x", vec![])],
    );
    assert_eq!(compile(0, vec![target(), repeated]).err(), Some(GrammarError::RepeatedName));
    let same = vec![
        target(),
        command("A", vec![], vec![template("a b", vec![])]),
        command("B", vec![], vec![template("a  b", vec![])]),
    ];
    assert_eq!(compile(0, same).err(), Some(GrammarError::DuplicateTerminal));
    let mut tree: ParseTree<MyInt> = ParseTree::new();
    assert_eq!(
        tree.insert(vec![ParseNode::Pass], "A".to_string(), vec![], vec![]),
        Err(GrammarError::InvalidToken)
    );
    assert_eq!(tree, ParseTree::new());
}

#[test]
fn a_refused_template_leaves_the_tree_as_it_was() {
    let mut tree: ParseTree<MyInt> = ParseTree::new();
    let path = || vec![ParseNode::Literal("a".to_string())];
    assert_eq!(tree.insert(path(), "A".to_string(), vec![], vec![]), Ok(()));
    assert_eq!(
        tree.insert(path(), "B".to_string(), vec![], vec![]),
        Err(GrammarError::DuplicateTerminal)
    );
    assert_eq!(tree.options.len(), 1);
    assert_eq!(tree.options[0].options.len(), 1);
    assert_eq!(parse_input(&tree, "a"), Ok(value("A", vec![])));
}

#[test]
fn a_keyword_of_another_command_can_take_a_rendered_word() {
    let family = compile(
        0,
        vec![
            target(),
            command(
                "Any",
                vec![("x", ValueType::Word)],
                vec![template("cmd $x", vec![]), template("run $x", vec![])],
            ),
            command("Stop", vec![], vec![template("cmd stop", vec![])]),
        ],
    )
    .unwrap();
    let parsed = family.parse("run stop").unwrap();
    assert_eq!(parsed, value("Any", vec![("x", Value::Word("stop".to_string()))]));
    assert_eq!(family.render(&parsed), "cmd stop");
    assert_eq!(family.parse("cmd stop"), Ok(value("Stop", vec![])));
}

#[test]
fn an_integer_in_the_middle_leaves_its_space_behind() {
    let family = compile(
        0,
        vec![
            target(),
            command(
                "Give",
                vec![("n", ValueType::Integer), ("who", ValueType::Word)],
                vec![template("give $n $who", vec![])],
            ),
        ],
    )
    .unwrap();
    assert_eq!(family.parse("give 5 bob"), Err(" bob"));
    let made = value(
        "Give",
        vec![("n", Value::Integer(5)), ("who", Value::Word("bob".to_string()))],
    );
    assert_eq!(family.render(&made), "give 5 bob");
}
