use command_parser::capture::NoExtension;
use command_parser::parse_tree::{ParseNode, ParseTree};

#[test]
fn test_build_tree() {
    let idents: Vec<String> = Vec::new();
    let struct_name = "Foo".to_string();

    let mut tree: ParseTree<NoExtension> = ParseTree::new();

    tree.insert(
        vec![
            ParseNode::Literal("execute".to_string()),
            ParseNode::Literal("store".to_string()),
            ParseNode::Literal("foo".to_string()),
        ],
        struct_name.clone(),
        Vec::new(),
        idents.clone(),
    )
    .unwrap();

    tree.insert(
        vec![
            ParseNode::Literal("execute".to_string()),
            ParseNode::Literal("store".to_string()),
            ParseNode::Literal("bar".to_string()),
        ],
        struct_name.clone(),
        Vec::new(),
        idents.clone(),
    )
    .unwrap();

    assert_eq!(
        tree.options,
        vec![ParseTree {
            options: vec![ParseTree {
                options: vec![
                    ParseTree {
                        options: vec![ParseTree {
                            options: vec![],
                            payload: ParseNode::EndOfInput {
                                struct_name: struct_name.clone(),
                                defaults: Vec::new(),
                                idents: idents.clone(),
                            },
                        }],
                        payload: ParseNode::Literal("foo".to_string())
                    },
                    ParseTree {
                        options: vec![ParseTree {
                            options: vec![],
                            payload: ParseNode::EndOfInput {
                                struct_name: struct_name.clone(),
                                defaults: Vec::new(),
                                idents: idents.clone(),
                            }
                        }],
                        payload: ParseNode::Literal("bar".to_string()),
                    }
                ],
                payload: ParseNode::Literal("store".to_string())
            }],
            payload: ParseNode::Literal("execute".to_string())
        }]
    );
}
