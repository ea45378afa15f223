use protoschema::Enum;
use protoschema::EnumField;
use protoschema::Frequency;
use protoschema::Message;
use protoschema::MessageField;
use protoschema::Oneof;
use protoschema::Parser;

#[test]
fn parse_recursive_message() {
    let input = "
            // haha
            // next

        message blah {

            repeated int32 first = 1;

            enum Person {
                name = 1; // name of person
                id = 2;  // Unique ID number for this person
                age = 3;  // age of person
            }

            enum Other {
                one = 1; // third field
                two = 2;  // second field
                three = 3;  // third field
            }

            repeated string second = 2;
            optional string third = 3;

            message inner {
                optional string inner_field = 1;

                enum inner_enum {
                    one = 1;
                }

                repeated int32 second_inner_field = 2;

                message inner_inner {

                    optional string inner_inner_field = 1;

                    enum inner_inner_enum {
                        one = 1;
                    }

                    repeated int32 second_inner_inner_field = 2;
                }

                message second_inner_inner {
                    repeated int32 inner_field = 1;

                    enum inner_inner_inner_enum {
                        one = 1;
                        two = 2;
                    }
                }
            }
        }
//  xd";
    let mut parser = Parser::new(input);

    let output = parser.consume_message().unwrap();
    let expected = Message {
        name: "blah".to_string(),
        oneofs: vec![],
        messages: vec![Message {
            name: "inner".to_string(),
            oneofs: vec![],
            messages: vec![
                Message {
                    name: "inner_inner".to_string(),
                    messages: vec![],
                    enums: vec![Enum {
                        name: "inner_inner_enum".to_string(),
                        fields: vec![EnumField {
                            name: "one".to_string(),
                            position: 1,
                        }],
                    }],
                    fields: vec![
                        MessageField::String(
                            Some(Frequency::Optional),
                            "inner_inner_field".to_string(),
                            1,
                        ),
                        MessageField::Int32(
                            Some(Frequency::Repeated),
                            "second_inner_inner_field".to_string(),
                            2,
                        ),
                    ],
                    oneofs: vec![],
                },
                Message {
                    name: "second_inner_inner".to_string(),
                    messages: vec![],
                    enums: vec![Enum {
                        name: "inner_inner_inner_enum".to_string(),
                        fields: vec![
                            EnumField {
                                name: "one".to_string(),
                                position: 1,
                            },
                            EnumField {
                                name: "two".to_string(),
                                position: 2,
                            },
                        ],
                    }],
                    fields: vec![MessageField::Int32(
                        Some(Frequency::Repeated),
                        "inner_field".to_string(),
                        1,
                    )],
                    oneofs: vec![],
                },
            ],
            enums: vec![Enum {
                name: "inner_enum".to_string(),
                fields: vec![EnumField {
                    name: "one".to_string(),
                    position: 1,
                }],
            }],
            fields: vec![
                MessageField::String(Some(Frequency::Optional), "inner_field".to_string(), 1),
                MessageField::Int32(
                    Some(Frequency::Repeated),
                    "second_inner_field".to_string(),
                    2,
                ),
            ],
        }],
        enums: vec![
            Enum {
                name: "Person".to_string(),
                fields: vec![
                    EnumField {
                        name: "name".to_string(),
                        position: 1,
                    },
                    EnumField {
                        name: "id".to_string(),
                        position: 2,
                    },
                    EnumField {
                        name: "age".to_string(),
                        position: 3,
                    },
                ],
            },
            Enum {
                name: "Other".to_string(),
                fields: vec![
                    EnumField {
                        name: "one".to_string(),
                        position: 1,
                    },
                    EnumField {
                        name: "two".to_string(),
                        position: 2,
                    },
                    EnumField {
                        name: "three".to_string(),
                        position: 3,
                    },
                ],
            },
        ],
        fields: vec![
            MessageField::Int32(Some(Frequency::Repeated), "first".to_string(), 1),
            MessageField::String(Some(Frequency::Repeated), "second".to_string(), 2),
            MessageField::String(Some(Frequency::Optional), "third".to_string(), 3),
        ],
    };

    assert_eq!(output, expected);
    assert!(parser.is_finished());
}

#[test]
fn parse_enum() {
    let input = "
            // haha
            // next

        enum  Person {
            name = 1; // name of person
            id = 2;  // Unique ID number for this person
            age = 3;  // age of person
    }
//  xd";
    let mut parser = Parser::new(input);

    let output = parser.consume_enum().unwrap();

    assert!(parser.is_finished());

    assert_eq!(
        output,
        Enum {
            name: "Person".to_string(),
            fields: vec![
                EnumField {
                    name: "name".to_string(),
                    position: 1
                },
                EnumField {
                    name: "id".to_string(),
                    position: 2
                },
                EnumField {
                    name: "age".to_string(),
                    position: 3
                }
            ]
        }
    );
}

#[test]
fn parse_basic_message() {
    let input = "
            // haha
            // next

        message   Person {
            string name = 1; // name of person
            int32 id = 2;  // Unique ID number for this person
            required int32 age = 3;  // age of person
    }
//  xd";
    let mut parser = Parser::new(input);

    let res = parser.consume_message().unwrap();

    assert!(parser.is_finished());

    assert_eq!(
        res,
        Message {
            name: "Person".to_string(),
            messages: vec![],
            enums: vec![],
            fields: vec![
                MessageField::String(None, "name".to_string(), 1),
                MessageField::Int32(None, "id".to_string(), 2),
                MessageField::Int32(Some(Frequency::Required), "age".to_string(), 3)
            ],
            oneofs: vec![],
        },
    );
}

#[test]
fn parse_oneof() {
    let input = "message SampleMessage {
  oneof test_oneof {
    string name = 4;
    int32 sub_message = 9;
  }
  }";

    let mut parser = Parser::new(input);

    let res = parser.consume_message().unwrap();

    assert!(parser.is_finished());

    assert_eq!(
        res,
        Message {
            name: "SampleMessage".to_string(),
            messages: vec![],
            enums: vec![],
            fields: vec![],
            oneofs: vec![Oneof {
                name: "test_oneof".to_string(),
                fields: vec![
                    MessageField::String(None, "name".to_string(), 4),
                    MessageField::Int32(None, "sub_message".to_string(), 9)
                ],
                messages: vec![],
                enums: vec![],
                oneofs: vec![]
            }]
        }
    );
}

#[test]
fn parse_rejects_wrong_keyword() {
    let mut parser = Parser::new("enum Person { a = 1; }");
    assert!(parser.consume_message().is_err());
}

#[test]
fn parse_rejects_truncated_message() {
    let mut parser = Parser::new("message Person {");
    let res = parser.consume_message();
    assert!(res.is_err());
}

#[test]
fn parse_error_carries_position() {
    let mut parser = Parser::new("oneof x");
    let err = parser.consume_message().unwrap_err();
    assert_eq!(err.position, 0);
}

#[test]
fn parse_printer_style_field_without_equals() {
    // The printer's canonical form has no `=` before the field number; the
    // parser accepts that form too, because `=` and `;` are optional.
    let mut parser = Parser::new("message Person {\nstring name 1;\nint32 id 2;\n}");
    let res = parser.consume_message().unwrap();
    assert!(parser.is_finished());
    assert_eq!(
        res,
        Message {
            name: "Person".to_string(),
            messages: vec![],
            enums: vec![],
            fields: vec![
                MessageField::String(None, "name".to_string(), 1),
                MessageField::Int32(None, "id".to_string(), 2),
            ],
            oneofs: vec![],
        },
    );
}

#[test]
fn parse_comments_between_tokens_are_invisible() {
    let with_comments = "message // a comment\n A { // another\n int32 x = 1; }";
    let without_comments = "message \n A { \n int32 x = 1; }";
    let mut p1 = Parser::new(with_comments);
    let mut p2 = Parser::new(without_comments);
    assert_eq!(p1.consume_message().unwrap(), p2.consume_message().unwrap());
}

#[test]
fn parse_empty_message_body() {
    let mut parser = Parser::new("message Empty {}");
    let res = parser.consume_message().unwrap();
    assert!(parser.is_finished());
    assert_eq!(res.name, "Empty".to_string());
    assert!(res.fields.is_empty());
    assert!(res.enums.is_empty());
    assert!(res.messages.is_empty());
    assert!(res.oneofs.is_empty());
}

#[test]
fn parse_largest_field_number() {
    let mut parser = Parser::new("message M { int32 x = 4294967295; }");
    let res = parser.consume_message().unwrap();
    assert_eq!(
        res.fields,
        vec![MessageField::Int32(None, "x".to_string(), 4294967295)]
    );
}

#[test]
fn parse_number_wraps_past_u32() {
    // 4294967296 == 2^32 wraps to 0: accumulation is unchecked by design.
    let mut parser = Parser::new("message M { int32 x = 4294967296; }");
    let res = parser.consume_message().unwrap();
    assert_eq!(res.fields, vec![MessageField::Int32(None, "x".to_string(), 0)]);
}

#[test]
fn parse_empty_names_round_trip() {
    // Names may be empty: the grammar accepts a maximal (possibly empty)
    // run of name characters, and the printer's output reparses.
    let mut parser = Parser::new("message  { int32  = 1; }");
    let res = parser.consume_message().unwrap();
    assert_eq!(res.name, "".to_string());
    assert_eq!(res.fields, vec![MessageField::Int32(None, "".to_string(), 1)]);
    let text = res.pretty_print(0);
    let mut reparse = Parser::new(&text);
    assert_eq!(reparse.consume_message().unwrap(), res);
    assert!(reparse.is_finished());
}

#[test]
fn parse_rejects_stuck_enum_body() {
    // A character that no enum-field token can consume aborts the parse
    // instead of spinning forever.
    let mut parser = Parser::new("enum E { $ }");
    assert!(parser.consume_enum().is_err());
}

#[test]
fn parse_stops_at_unknown_member() {
    // The member loop simply stops at a token that starts no member; the
    // closing brace is optional, so the message parses but the cursor is
    // left on the unknown token.
    let mut parser = Parser::new("message M { xyz }");
    let res = parser.consume_message().unwrap();
    assert_eq!(res.name, "M".to_string());
    assert!(res.fields.is_empty());
    assert!(!parser.is_finished());
}
