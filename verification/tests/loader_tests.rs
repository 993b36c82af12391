use program_loader::artifact::Node;
use program_loader::bignum::BigNat;
use program_loader::program::{
    encode_word, HintParams, Identifier, Program, ProgramError, Reference, ReferenceManager,
};
use program_loader::relocatable::{MaybeRelocatable, Relocatable, ValueOrder};

const PRIME_DEC: &str =
    "3618502788666131213697322783095070105623107215331596699973092056135872020481";

fn text(s: &str) -> Node {
    Node::Text(s.to_string())
}

fn obj(entries: Vec<(&str, Node)>) -> Node {
    Node::Object(entries.into_iter().map(|(k, v)| (k.to_string(), v)).collect())
}

fn ident(pc: Option<usize>, type_: Option<&str>, value: Option<Node>) -> Node {
    let mut entries: Vec<(&str, Node)> = Vec::new();
    if let Some(p) = pc {
        entries.push(("pc", Node::Uint(p)));
    }
    if let Some(t) = type_ {
        entries.push(("type", text(t)));
    }
    if let Some(v) = value {
        entries.push(("value", v));
    }
    obj(entries)
}

fn valid_artifact() -> Node {
    obj(vec![
        ("prime", text(PRIME_DEC)),
        (
            "data",
            Node::List(vec![
                text("5189976364521848832"),
                text("1000"),
                text("5189976364521848832"),
                text("2000"),
                text("5201798304953696256"),
                text("2345108766317314046"),
            ]),
        ),
        (
            "identifiers",
            obj(vec![
                ("__main__.main", ident(Some(0), Some("function"), None)),
                ("__main__.main.Args", ident(None, Some("struct"), None)),
                ("__main__.main.ImplicitArgs", ident(None, Some("struct"), None)),
                ("__main__.main.Return", ident(None, Some("struct"), None)),
                (
                    "__main__.main.SIZEOF_LOCALS",
                    ident(None, Some("const"), Some(Node::Uint(0))),
                ),
            ]),
        ),
        ("reference_manager", obj(vec![("references", Node::List(vec![]))])),
        ("builtins", Node::List(vec![])),
    ])
}

fn owned_ident(pc: Option<usize>, type_: Option<&str>, value: Option<BigNat>) -> Identifier {
    Identifier {
        pc,
        type_: type_.map(|t| t.to_string()),
        value,
    }
}

#[test]
fn deserialize_program_test() {
    let program: Program =
        Program::new(&valid_artifact(), "main").expect("Failed to deserialize program");

    let builtins: Vec<String> = Vec::new();
    let data: Vec<MaybeRelocatable> = vec![
        MaybeRelocatable::from(BigNat::from_u64(5189976364521848832)),
        MaybeRelocatable::from(BigNat::from_u64(1000)),
        MaybeRelocatable::from(BigNat::from_u64(5189976364521848832)),
        MaybeRelocatable::from(BigNat::from_u64(2000)),
        MaybeRelocatable::from(BigNat::from_u64(5201798304953696256)),
        MaybeRelocatable::from(BigNat::from_u64(2345108766317314046)),
    ];

    let identifiers: Vec<(String, Identifier)> = vec![
        (
            String::from("__main__.main"),
            owned_ident(Some(0), Some("function"), None),
        ),
        (
            String::from("__main__.main.Args"),
            owned_ident(None, Some("struct"), None),
        ),
        (
            String::from("__main__.main.ImplicitArgs"),
            owned_ident(None, Some("struct"), None),
        ),
        (
            String::from("__main__.main.Return"),
            owned_ident(None, Some("struct"), None),
        ),
        (
            String::from("__main__.main.SIZEOF_LOCALS"),
            owned_ident(None, Some("const"), Some(BigNat::from_u64(0))),
        ),
    ];

    assert_eq!(program.prime, BigNat::from_decimal(PRIME_DEC).unwrap());
    assert_eq!(program.builtins, builtins);
    assert_eq!(program.data, data);
    assert_eq!(program.main, Some(0));
    assert_eq!(program.identifiers, identifiers);
}

#[test]
fn concrete_scenario_four_identifiers() {
    let art = obj(vec![
        ("prime", text(PRIME_DEC)),
        (
            "data",
            Node::List(vec![
                text("5189976364521848832"),
                text("1000"),
                text("5189976364521848832"),
                text("2000"),
                text("5201798304953696256"),
                text("2345108766317314046"),
            ]),
        ),
        (
            "identifiers",
            obj(vec![
                ("__main__.main", ident(Some(0), Some("function"), None)),
                ("__main__.main.Args", ident(None, Some("struct"), None)),
                ("__main__.main.ImplicitArgs", ident(None, Some("struct"), None)),
                ("__main__.main.Return", ident(None, Some("struct"), None)),
            ]),
        ),
        ("reference_manager", obj(vec![("references", Node::List(vec![]))])),
    ]);
    let program = Program::new(&art, "main").unwrap();
    assert_eq!(program.main, Some(0));
    assert_eq!(program.builtins, Vec::<String>::new());
    assert_eq!(program.data.len(), 6);
    let expected: Vec<(String, Identifier)> = vec![
        (
            String::from("__main__.main"),
            owned_ident(Some(0), Some("function"), None),
        ),
        (
            String::from("__main__.main.Args"),
            owned_ident(None, Some("struct"), None),
        ),
        (
            String::from("__main__.main.ImplicitArgs"),
            owned_ident(None, Some("struct"), None),
        ),
        (
            String::from("__main__.main.Return"),
            owned_ident(None, Some("struct"), None),
        ),
    ];
    assert_eq!(program.identifiers, expected);
}

#[test]
fn missing_prime_fails_malformed() {
    let art = obj(vec![
        ("data", Node::List(vec![])),
        ("identifiers", obj(vec![])),
        ("reference_manager", obj(vec![("references", Node::List(vec![]))])),
    ]);
    assert_eq!(
        Program::new(&art, "main"),
        Err(ProgramError::MalformedArtifact)
    );
}

#[test]
fn non_record_artifact_fails_malformed() {
    assert_eq!(
        Program::new(&text("nope"), "main"),
        Err(ProgramError::MalformedArtifact)
    );
}

#[test]
fn bad_identifier_shape_fails() {
    let art = obj(vec![
        ("prime", text("7")),
        ("data", Node::List(vec![])),
        (
            "identifiers",
            obj(vec![("x", obj(vec![("pc", text("zero"))]))]),
        ),
        ("reference_manager", obj(vec![("references", Node::List(vec![]))])),
    ]);
    assert_eq!(
        Program::new(&art, "main"),
        Err(ProgramError::InvalidIdentifier)
    );
}

#[test]
fn duplicate_identifier_name_fails() {
    let art = obj(vec![
        ("prime", text("7")),
        ("data", Node::List(vec![])),
        (
            "identifiers",
            obj(vec![
                ("x", ident(Some(1), None, None)),
                ("x", ident(Some(2), None, None)),
            ]),
        ),
        ("reference_manager", obj(vec![("references", Node::List(vec![]))])),
    ]);
    assert_eq!(
        Program::new(&art, "main"),
        Err(ProgramError::InvalidIdentifier)
    );
}

#[test]
fn bad_hint_shape_fails() {
    let art = obj(vec![
        ("prime", text("7")),
        ("data", Node::List(vec![])),
        ("identifiers", obj(vec![])),
        ("hints", obj(vec![("0", text("not a list"))])),
        ("reference_manager", obj(vec![("references", Node::List(vec![]))])),
    ]);
    assert_eq!(Program::new(&art, "main"), Err(ProgramError::InvalidHint));
}

#[test]
fn oversized_hint_key_fails() {
    let art = obj(vec![
        ("prime", text("7")),
        ("data", Node::List(vec![])),
        ("identifiers", obj(vec![])),
        (
            "hints",
            obj(vec![("340282366920938463463374607431768211456", Node::List(vec![]))]),
        ),
        ("reference_manager", obj(vec![("references", Node::List(vec![]))])),
    ]);
    assert_eq!(Program::new(&art, "main"), Err(ProgramError::InvalidHint));
}

#[test]
fn bad_reference_shape_fails() {
    let art = obj(vec![
        ("prime", text("7")),
        ("data", Node::List(vec![])),
        ("identifiers", obj(vec![])),
        ("reference_manager", obj(vec![])),
    ]);
    assert_eq!(
        Program::new(&art, "main"),
        Err(ProgramError::InvalidReference)
    );
}

#[test]
fn prime_mismatch_fails() {
    let expected = BigNat::from_u64(11);
    let art = obj(vec![
        ("prime", text("7")),
        ("data", Node::List(vec![])),
        ("identifiers", obj(vec![])),
        ("reference_manager", obj(vec![("references", Node::List(vec![]))])),
    ]);
    assert_eq!(
        Program::new_with_prime(&art, "main", &expected),
        Err(ProgramError::PrimeMismatch)
    );
    let matching = BigNat::from_u64(7);
    assert!(Program::new_with_prime(&art, "main", &matching).is_ok());
}

#[test]
fn entrypoint_absent_gives_no_main() {
    let program = Program::new(&valid_artifact(), "not_there").unwrap();
    assert_eq!(program.main, None);
}

#[test]
fn entrypoint_without_pc_gives_no_main() {
    let art = obj(vec![
        ("prime", text("7")),
        ("data", Node::List(vec![])),
        (
            "identifiers",
            obj(vec![("__main__.start", ident(None, Some("function"), None))]),
        ),
        ("reference_manager", obj(vec![("references", Node::List(vec![]))])),
    ]);
    let program = Program::new(&art, "start").unwrap();
    assert_eq!(program.main, None);
}

#[test]
fn field_elements_are_reduced() {
    // 12 mod 7 == 5, and a value one short of a multiple stays put.
    let art = obj(vec![
        ("prime", text("7")),
        ("data", Node::List(vec![text("12"), Node::Uint(6)])),
        ("identifiers", obj(vec![])),
        ("reference_manager", obj(vec![("references", Node::List(vec![]))])),
    ]);
    let program = Program::new(&art, "main").unwrap();
    assert_eq!(
        program.data,
        vec![
            MaybeRelocatable::from(BigNat::from_u64(5)),
            MaybeRelocatable::from(BigNat::from_u64(6)),
        ]
    );
}

#[test]
fn huge_value_is_reduced_modulo_prime() {
    // The declared prime plus five must decode to five.
    let prime_plus_five =
        "3618502788666131213697322783095070105623107215331596699973092056135872020486";
    let art = obj(vec![
        ("prime", text(PRIME_DEC)),
        ("data", Node::List(vec![text(prime_plus_five)])),
        ("identifiers", obj(vec![])),
        ("reference_manager", obj(vec![("references", Node::List(vec![]))])),
    ]);
    let program = Program::new(&art, "main").unwrap();
    assert_eq!(
        program.data,
        vec![MaybeRelocatable::from(BigNat::from_u64(5))]
    );
}

#[test]
fn builtins_keep_artifact_order() {
    let art = obj(vec![
        ("prime", text("7")),
        ("data", Node::List(vec![])),
        ("identifiers", obj(vec![])),
        ("reference_manager", obj(vec![("references", Node::List(vec![]))])),
        (
            "builtins",
            Node::List(vec![text("output"), text("pedersen"), text("range_check")]),
        ),
    ]);
    let program = Program::new(&art, "main").unwrap();
    assert_eq!(
        program.builtins,
        vec![
            "output".to_string(),
            "pedersen".to_string(),
            "range_check".to_string()
        ]
    );
}

fn hint(code: &str) -> Node {
    obj(vec![
        ("code", text(code)),
        ("accessible_scopes", Node::List(vec![text("__main__")])),
        ("flow_tracking_data", Node::List(vec![])),
    ])
}

#[test]
fn hints_keep_artifact_order() {
    let art = obj(vec![
        ("prime", text("7")),
        ("data", Node::List(vec![Node::Uint(1), Node::Uint(2)])),
        ("identifiers", obj(vec![])),
        (
            "hints",
            obj(vec![
                ("1", Node::List(vec![hint("first"), hint("second")])),
                ("0", Node::List(vec![hint("third")])),
            ]),
        ),
        ("reference_manager", obj(vec![("references", Node::List(vec![]))])),
    ]);
    let program = Program::new(&art, "main").unwrap();
    let at1: &Vec<HintParams> = program.hints_at(1).unwrap();
    assert_eq!(at1.len(), 2);
    assert_eq!(at1[0].code, "first");
    assert_eq!(at1[1].code, "second");
    assert_eq!(at1[0].accessible_scopes, vec!["__main__".to_string()]);
    let at0 = program.hints_at(0).unwrap();
    assert_eq!(at0.len(), 1);
    assert_eq!(at0[0].code, "third");
    assert!(program.hints_at(2).is_none());
}

#[test]
fn duplicate_hint_pc_fails() {
    let art = obj(vec![
        ("prime", text("7")),
        ("data", Node::List(vec![])),
        ("identifiers", obj(vec![])),
        (
            "hints",
            obj(vec![
                ("4", Node::List(vec![hint("a")])),
                ("4", Node::List(vec![hint("b")])),
            ]),
        ),
        ("reference_manager", obj(vec![("references", Node::List(vec![]))])),
    ]);
    assert_eq!(Program::new(&art, "main"), Err(ProgramError::InvalidHint));
}

#[test]
fn reference_shadowing_returns_later_entry() {
    let rm = ReferenceManager {
        references: vec![
            Reference {
                name: "x".to_string(),
                value_type: "felt".to_string(),
                definition: "first".to_string(),
            },
            Reference {
                name: "y".to_string(),
                value_type: "felt".to_string(),
                definition: "other".to_string(),
            },
            Reference {
                name: "x".to_string(),
                value_type: "felt*".to_string(),
                definition: "second".to_string(),
            },
        ],
    };
    let got = rm.get(&"x".to_string()).unwrap();
    assert_eq!(got.definition, "second");
    assert_eq!(got.value_type, "felt*");
    assert_eq!(rm.get(&"y".to_string()).unwrap().definition, "other");
    assert!(rm.get(&"z".to_string()).is_none());
}

#[test]
fn references_load_in_order() {
    let art = obj(vec![
        ("prime", text("7")),
        ("data", Node::List(vec![])),
        ("identifiers", obj(vec![])),
        (
            "reference_manager",
            obj(vec![(
                "references",
                Node::List(vec![
                    obj(vec![
                        ("name", text("a")),
                        ("value_type", text("felt")),
                        ("definition", text("d0")),
                    ]),
                    obj(vec![
                        ("name", text("b")),
                        ("value_type", text("felt")),
                        ("definition", text("d1")),
                    ]),
                ]),
            )]),
        ),
    ]);
    let program = Program::new(&art, "main").unwrap();
    assert_eq!(program.reference_manager.references.len(), 2);
    assert_eq!(program.reference_manager.references[0].name, "a");
    assert_eq!(program.reference_manager.references[1].name, "b");
}

#[test]
fn round_trip_field_element() {
    let prime = BigNat::from_decimal(PRIME_DEC).unwrap();
    let word = MaybeRelocatable::from(BigNat::from_u64(2345108766317314046));
    let encoded = encode_word(&word, &prime);
    let art = obj(vec![
        ("prime", text(PRIME_DEC)),
        ("data", Node::List(vec![encoded])),
        ("identifiers", obj(vec![])),
        ("reference_manager", obj(vec![("references", Node::List(vec![]))])),
    ]);
    let program = Program::new(&art, "main").unwrap();
    assert_eq!(program.data.len(), 1);
    assert!(program.data[0].eq_value(&word));
}

#[test]
fn round_trip_relocatable() {
    let prime = BigNat::from_u64(7);
    let word = MaybeRelocatable::RelocatableValue(program_loader::relocatable::Relocatable {
        segment_index: 2,
        offset: 5,
    });
    let encoded = encode_word(&word, &prime);
    let art = obj(vec![
        ("prime", text("7")),
        ("data", Node::List(vec![encoded])),
        ("identifiers", obj(vec![])),
        ("reference_manager", obj(vec![("references", Node::List(vec![]))])),
    ]);
    let program = Program::new(&art, "main").unwrap();
    assert_eq!(program.data.len(), 1);
    assert!(program.data[0].eq_value(&word));
    assert!(!program.data[0].eq_value(&MaybeRelocatable::from(BigNat::from_u64(2))));
}

#[test]
fn loading_twice_gives_equal_programs() {
    let p1 = Program::new(&valid_artifact(), "main").unwrap();
    let p2 = Program::new(&valid_artifact(), "main").unwrap();
    assert_eq!(p1, p2);
}

#[test]
fn decimal_parsing_and_printing_agree() {
    let n = BigNat::from_decimal("256").unwrap();
    assert_eq!(n, BigNat::from_u64(256));
    assert_eq!(n.to_decimal_string(), "256");
    assert_eq!(BigNat::from_u64(0).to_decimal_string(), "0");
    assert!(BigNat::from_decimal("12a3").is_none());
    assert!(BigNat::from_decimal("").is_none());
    let big = BigNat::from_decimal(PRIME_DEC).unwrap();
    assert_eq!(big.to_decimal_string(), PRIME_DEC);
    assert!(!big.eq_val(&n));
    assert!(n.eq_val(&BigNat::from_u64(256)));
}

#[test]
fn relocatable_data_word_loads() {
    let art = obj(vec![
        ("prime", text("7")),
        (
            "data",
            Node::List(vec![obj(vec![
                ("segment_index", Node::Uint(1)),
                ("offset", Node::Uint(4)),
            ])]),
        ),
        ("identifiers", obj(vec![])),
        ("reference_manager", obj(vec![("references", Node::List(vec![]))])),
    ]);
    let program = Program::new(&art, "main").unwrap();
    assert_eq!(
        program.data,
        vec![MaybeRelocatable::RelocatableValue(
            program_loader::relocatable::Relocatable {
                segment_index: 1,
                offset: 4,
            }
        )]
    );
}

#[test]
fn ordering_within_variants_only() {
    let a = MaybeRelocatable::from(BigNat::from_u64(3));
    let b = MaybeRelocatable::from(BigNat::from_decimal(PRIME_DEC).unwrap());
    assert_eq!(a.compare_value(&b), Some(ValueOrder::Less));
    assert_eq!(b.compare_value(&a), Some(ValueOrder::Greater));
    assert_eq!(
        a.compare_value(&MaybeRelocatable::from(BigNat::from_u64(3))),
        Some(ValueOrder::Equal)
    );
    let r1 = MaybeRelocatable::RelocatableValue(Relocatable {
        segment_index: 1,
        offset: 9,
    });
    let r2 = MaybeRelocatable::RelocatableValue(Relocatable {
        segment_index: 2,
        offset: 0,
    });
    assert_eq!(r1.compare_value(&r2), Some(ValueOrder::Less));
    assert_eq!(r2.compare_value(&r1), Some(ValueOrder::Greater));
    assert_eq!(r1.compare_value(&a), None);
    assert_eq!(a.compare_value(&r1), None);
}

#[test]
fn describe_is_stable() {
    let a = MaybeRelocatable::from(BigNat::from_u64(1000));
    assert_eq!(a.describe(), "1000");
    let r = MaybeRelocatable::RelocatableValue(Relocatable {
        segment_index: 2,
        offset: 5,
    });
    assert_eq!(r.describe(), "2:5");
}

#[test]
fn identifier_lookup_finds_entry() {
    let program = Program::new(&valid_artifact(), "main").unwrap();
    let id = program
        .get_identifier(&"__main__.main.SIZEOF_LOCALS".to_string())
        .unwrap();
    assert_eq!(id.type_, Some("const".to_string()));
    assert_eq!(id.value, Some(BigNat::from_u64(0)));
    assert!(program.get_identifier(&"missing".to_string()).is_none());
}
