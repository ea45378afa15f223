use protoschema::Enum;
use protoschema::EnumField;
use protoschema::Frequency;
use protoschema::Message;
use protoschema::MessageField;
use protoschema::Oneof;
use protoschema::Parser;

#[test]
fn codegen() {
    let input = Message {
        name: "SampleMessage".to_string(),
        messages: vec![],
        enums: vec![],
        fields: vec![],
        oneofs: vec![Oneof {
            name: "test_oneof".to_string(),
            fields: vec![
                MessageField::String(None, "name".to_string(), 4),
                MessageField::Int32(None, "sub_message".to_string(), 9),
            ],
            messages: vec![],
            enums: vec![],
            oneofs: vec![],
        }],
    };

    assert_eq!(
        input.pretty_print(0),
        "message SampleMessage {\noneof test_oneof {\n\tstring name 4;\n\tint32 sub_message 9;\n}}"
    );
}

#[test]
fn basic_message() {
    let input = Message {
        name: "Person".to_string(),
        messages: vec![],
        enums: vec![],
        fields: vec![
            MessageField::String(None, "name".to_string(), 1),
            MessageField::Int32(None, "id".to_string(), 2),
            MessageField::Int32(Some(Frequency::Required), "age".to_string(), 3),
        ],
        oneofs: vec![],
    };

    assert_eq!(
        input.pretty_print(0),
        "message Person {\nstring name 1;\nint32 id 2;\nrequired int32 age 3;\n}"
    );
}

#[test]
fn enum_f() {
    let input = Enum {
        name: "Person".to_string(),
        fields: vec![
            EnumField {
                name: "name".to_string(),
                position: 1,
            },
            EnumField {
                name: "id".to_string(),
                position: 2,
            },
            EnumField {
                name: "age".to_string(),
                position: 3,
            },
        ],
    };

    assert_eq!(
        input.pretty_print(0),
        "enum Person {\n\tname = 1;\n\tid = 2;\n\tage = 3;\n}"
    );
}

#[test]
fn recursive_message() {
    let input = Message {
        name: "blah".to_string(),
        oneofs: vec![],
        messages: vec![Message {
            name: "inner".to_string(),
            oneofs: vec![],
            messages: vec![
                Message {
                    name: "inner_inner".to_string(),
                    messages: vec![],
                    enums: vec![Enum {
                        name: "inner_inner_enum".to_string(),
                        fields: vec![EnumField {
                            name: "one".to_string(),
                            position: 1,
                        }],
                    }],
                    fields: vec![
                        MessageField::String(
                            Some(Frequency::Optional),
                            "inner_inner_field".to_string(),
                            1,
                        ),
                        MessageField::Int32(
                            Some(Frequency::Repeated),
                            "second_inner_inner_field".to_string(),
                            2,
                        ),
                    ],
                    oneofs: vec![],
                },
                Message {
                    name: "second_inner_inner".to_string(),
                    messages: vec![],
                    enums: vec![Enum {
                        name: "inner_inner_inner_enum".to_string(),
                        fields: vec![
                            EnumField {
                                name: "one".to_string(),
                                position: 1,
                            },
                            EnumField {
                                name: "two".to_string(),
                                position: 2,
                            },
                        ],
                    }],
                    fields: vec![MessageField::Int32(
                        Some(Frequency::Repeated),
                        "inner_field".to_string(),
                        1,
                    )],
                    oneofs: vec![],
                },
            ],
            enums: vec![Enum {
                name: "inner_enum".to_string(),
                fields: vec![EnumField {
                    name: "one".to_string(),
                    position: 1,
                }],
            }],
            fields: vec![
                MessageField::String(Some(Frequency::Optional), "inner_field".to_string(), 1),
                MessageField::Int32(
                    Some(Frequency::Repeated),
                    "second_inner_field".to_string(),
                    2,
                ),
            ],
        }],
        enums: vec![
            Enum {
                name: "Person".to_string(),
                fields: vec![
                    EnumField {
                        name: "name".to_string(),
                        position: 1,
                    },
                    EnumField {
                        name: "id".to_string(),
                        position: 2,
                    },
                    EnumField {
                        name: "age".to_string(),
                        position: 3,
                    },
                ],
            },
            Enum {
                name: "Other".to_string(),
                fields: vec![
                    EnumField {
                        name: "one".to_string(),
                        position: 1,
                    },
                    EnumField {
                        name: "two".to_string(),
                        position: 2,
                    },
                    EnumField {
                        name: "three".to_string(),
                        position: 3,
                    },
                ],
            },
        ],
        fields: vec![
            MessageField::Int32(Some(Frequency::Repeated), "first".to_string(), 1),
            MessageField::String(Some(Frequency::Repeated), "second".to_string(), 2),
            MessageField::String(Some(Frequency::Optional), "third".to_string(), 3),
        ],
    };

    assert_eq!(input.pretty_print(0),
    "message blah {\nrepeated int32 first 1;\nrepeated string second 2;\noptional string third 3;\nenum Person {\n\t\tname = 1;\n\t\tid = 2;\n\t\tage = 3;\n}enum Other {\n\t\tone = 1;\n\t\ttwo = 2;\n\t\tthree = 3;\n}message inner {\n\toptional string inner_field 1;\n\trepeated int32 second_inner_field 2;\nenum inner_enum {\n\t\t\tone = 1;\n}message inner_inner {\n\t\toptional string inner_inner_field 1;\n\t\trepeated int32 second_inner_inner_field 2;\nenum inner_inner_enum {\n\t\t\t\tone = 1;\n}}message second_inner_inner {\n\t\trepeated int32 inner_field 1;\nenum inner_inner_inner_enum {\n\t\t\t\tone = 1;\n\t\t\t\ttwo = 2;\n}}}}");
}

#[test]
fn parse_canonical_person_then_print() {
    // One concrete scenario both ways: the grammar form with `=`, and the
    // printer's canonical form with a bare space before the number.
    let mut parser = Parser::new(
        "message Person {\n string name = 1;\n int32 id = 2;\n required int32 age = 3;\n}",
    );
    let res = parser.consume_message().unwrap();
    assert!(parser.is_finished());
    assert_eq!(
        res,
        Message {
            name: "Person".to_string(),
            messages: vec![],
            enums: vec![],
            fields: vec![
                MessageField::String(None, "name".to_string(), 1),
                MessageField::Int32(None, "id".to_string(), 2),
                MessageField::Int32(Some(Frequency::Required), "age".to_string(), 3),
            ],
            oneofs: vec![],
        },
    );
    assert_eq!(
        res.pretty_print(0),
        "message Person {\nstring name 1;\nint32 id 2;\nrequired int32 age 3;\n}"
    );
}

#[test]
fn print_then_reparse_round_trip() {
    let original = Message {
        name: "Outer".to_string(),
        messages: vec![Message {
            name: "Inner".to_string(),
            messages: vec![],
            enums: vec![],
            fields: vec![MessageField::Int32(None, "a".to_string(), 7)],
            oneofs: vec![],
        }],
        enums: vec![Enum {
            name: "Kind".to_string(),
            fields: vec![EnumField {
                name: "first".to_string(),
                position: 1,
            }],
        }],
        fields: vec![MessageField::String(
            Some(Frequency::Repeated),
            "tags".to_string(),
            2,
        )],
        oneofs: vec![Oneof {
            name: "choice".to_string(),
            messages: vec![],
            enums: vec![],
            fields: vec![MessageField::Int32(None, "b".to_string(), 3)],
            oneofs: vec![],
        }],
    };
    let text = original.pretty_print(0);
    let mut parser = Parser::new(&text);
    let reparsed = parser.consume_message().unwrap();
    assert!(parser.is_finished());
    assert_eq!(reparsed, original);
}

#[test]
fn print_field_at_depth_indents_with_tabs() {
    let field = MessageField::Int32(None, "x".to_string(), 5);
    assert_eq!(field.pretty_print(0), "int32 x 5;\n");
    assert_eq!(field.pretty_print(1), "\tint32 x 5;\n");
    assert_eq!(field.pretty_print(2), "\t\tint32 x 5;\n");
    let ef = EnumField {
        name: "y".to_string(),
        position: 6,
    };
    assert_eq!(ef.pretty_print(2), "\t\ty = 6;\n");
}

#[test]
fn print_field_frequencies() {
    let f1 = MessageField::String(Some(Frequency::Optional), "a".to_string(), 1);
    let f2 = MessageField::String(Some(Frequency::Repeated), "b".to_string(), 2);
    let f3 = MessageField::String(Some(Frequency::Required), "c".to_string(), 3);
    let f4 = MessageField::String(None, "d".to_string(), 4);
    assert_eq!(f1.pretty_print(0), "optional string a 1;\n");
    assert_eq!(f2.pretty_print(0), "repeated string b 2;\n");
    assert_eq!(f3.pretty_print(0), "required string c 3;\n");
    assert_eq!(f4.pretty_print(0), "string d 4;\n");
}

#[test]
fn print_multi_digit_numbers() {
    let field = MessageField::Int32(None, "n".to_string(), 1234567890);
    assert_eq!(field.pretty_print(0), "int32 n 1234567890;\n");
    let zero = MessageField::Int32(None, "z".to_string(), 0);
    assert_eq!(zero.pretty_print(0), "int32 z 0;\n");
}
