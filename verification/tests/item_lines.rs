use poe_optimizer_import::item_lines::aggregate::{
    ItemField, ItemTextProblem, SourceLine, SourceLinePending,
};
use poe_optimizer_import::item_lines::convert::{
    decode, decode_integer, ConvertedItemEmission, ItemLineInput, ItemLineOutcome,
};
use poe_optimizer_import::item_lines::schema::{
    IntegerRange, ItemLineSchema, ItemTemplateSchema, KeySet, ParameterSite, ParameterSlotSchema,
    SchemaEntry, SlotEntry, SlotPresence, SlotSet, TemplateEntry, ValueSchema,
};
use poe_optimizer_import::item_lines::{
    BooleanToken, DeclaredSlot, SlotOwner, ItemCapture, ItemCaptureCodec, ItemEmission, ItemLineBudget, ItemLineError,
    ItemLineLimits, ItemLinePending, ItemLinePolicyInput, ItemLineRule, ItemLineValue,
    ItemLineViolation, ItemNumericSign, ItemNumericSyntax, ItemPatternPart, OwnedItemLinePolicy,
    ParameterValue, ValueCodecInput, ValueCodecKind, WhitespacePolicy,
    OWNED_ITEM_LINE_POLICY_VERSION,
};

const NS: &[u8] = b"poe2/items";
const DEFS: &[u8] = b"defs-1";

fn limits() -> ItemLineLimits {
    ItemLineLimits {
        max_rules: 64,
        max_parts: 256,
        max_captures: 64,
        max_emissions: 64,
        max_rolls: 64,
        max_policy_text_bytes: 4096,
        max_schema_work: 100_000,
        max_line_bytes: 1024,
        max_source_bytes: 65_536,
        max_lines: 256,
        max_work: 1_000_000,
        max_output_declarations: 256,
    }
}

fn literal(s: &str) -> ItemPatternPart {
    ItemPatternPart::Literal(s.as_bytes().to_vec())
}

fn rarity_rule() -> ItemLineRule {
    ItemLineRule {
        id: b"rarity".to_vec(),
        pattern: vec![literal("Rarity: "), ItemPatternPart::Capture(b"r".to_vec())],
        captures: vec![ItemCapture { id: b"r".to_vec(), codec: ItemCaptureCodec::OpaqueText }],
        emissions: vec![ItemEmission::Metadata { role: b"rarity".to_vec() }],
    }
}

fn base_rule() -> ItemLineRule {
    ItemLineRule {
        id: b"base".to_vec(),
        pattern: vec![literal("Base: Sword")],
        captures: vec![],
        emissions: vec![ItemEmission::Template { definition: b"sword".to_vec() }],
    }
}

fn level_rule() -> ItemLineRule {
    ItemLineRule {
        id: b"level".to_vec(),
        pattern: vec![
            literal("Item Level: "),
            ItemPatternPart::NumericCapture {
                capture: b"lvl".to_vec(),
                syntax: ItemNumericSyntax::Integer,
                sign: ItemNumericSign::Forbidden,
            },
        ],
        captures: vec![ItemCapture {
            id: b"lvl".to_vec(),
            codec: ItemCaptureCodec::Value(ValueCodecInput {
                namespace: NS.to_vec(),
                codec: ValueCodecKind::Integer,
            }),
        }],
        emissions: vec![ItemEmission::ItemLevel { value: ItemLineValue::Capture(b"lvl".to_vec()) }],
    }
}

fn policy_input(rules: Vec<ItemLineRule>) -> ItemLinePolicyInput {
    ItemLinePolicyInput {
        schema_version: OWNED_ITEM_LINE_POLICY_VERSION,
        namespace: NS.to_vec(),
        definitions: DEFS.to_vec(),
        whitespace: WhitespacePolicy::TrimAscii,
        rules,
    }
}

fn schema() -> ItemLineSchema {
    ItemLineSchema {
        namespace: NS.to_vec(),
        identity: DEFS.to_vec(),
        templates: vec![TemplateEntry {
            id: b"sword".to_vec(),
            schema: SchemaEntry::Known(ItemTemplateSchema {
                item_level: IntegerRange { minimum: 1, maximum: 100 },
                modifiers: KeySet { members: vec![], complete: true },
                parameters: SlotSet { members: vec![], complete: true },
            }),
        }],
        modifiers: vec![],
        options: vec![],
        slots: vec![],
    }
}

fn policy() -> OwnedItemLinePolicy {
    OwnedItemLinePolicy::new(
        policy_input(vec![rarity_rule(), base_rule(), level_rule()]),
        &schema(),
        limits(),
    )
    .unwrap()
}

#[test]
fn integers_decode_as_safe_ascii_decimals() {
    assert_eq!(decode_integer(b"42"), Some(42));
    assert_eq!(decode_integer(b"-7"), Some(-7));
    assert_eq!(decode_integer(b"+7"), Some(7));
    assert_eq!(decode_integer(b"9007199254740991"), Some(9_007_199_254_740_991));
    assert_eq!(decode_integer(b"9007199254740992"), None);
    assert_eq!(decode_integer(b""), None);
    assert_eq!(decode_integer(b"1a"), None);
}

#[test]
fn token_codecs_match_exactly() {
    let codec = ValueCodecKind::Boolean {
        tokens: vec![
            BooleanToken { token: b"yes".to_vec(), value: true },
            BooleanToken { token: b"no".to_vec(), value: false },
        ],
    };
    assert!(matches!(decode(&codec, b"yes"), Some(ParameterValue::Boolean(true))));
    assert!(matches!(decode(&codec, b"no"), Some(ParameterValue::Boolean(false))));
    assert!(decode(&codec, b"Yes").is_none());
    assert!(matches!(decode(&ValueCodecKind::Integer, b"-12"), Some(ParameterValue::Integer(-12))));
}

#[test]
fn a_full_item_text_converts_to_its_fields() {
    let policy = policy();
    let text = b"Rarity: Rare\nBase: Sword\r\nItem Level: 82\n";
    let c = policy.convert_text(text).unwrap();
    assert_eq!(c.lines.len(), 3);
    assert_eq!(c.lines[1].index, 2);
    assert_eq!(c.lines[1].text, b"Base: Sword".to_vec());
    match &c.lines[0].outcome {
        ItemLineOutcome::Known { rule, emissions } => {
            assert_eq!(rule, &b"rarity".to_vec());
            assert!(matches!(
                &emissions[0],
                ConvertedItemEmission::Metadata { role } if role == b"rarity"
            ));
        }
        other => panic!("unexpected outcome {:?}", other),
    }
    match &c.lines[2].outcome {
        ItemLineOutcome::Known { emissions, .. } => {
            assert!(matches!(emissions[0], ConvertedItemEmission::ItemLevel { value: 82 }));
        }
        other => panic!("unexpected outcome {:?}", other),
    }
    assert!(matches!(&c.template, ItemField::Known { value, line: 2 } if value == b"sword"));
    assert!(matches!(c.item_level, ItemField::Known { value: 82, line: 3 }));
    assert!(c.issues.is_empty());
    assert!(c.modifiers.is_empty());
    assert!(c.parameters.is_empty());
}

#[test]
fn a_level_outside_the_template_range_is_left_pending() {
    let c = policy().convert_text(b"Base: Sword\nItem Level: 150").unwrap();
    assert!(matches!(&c.item_level, ItemField::Pending { lines } if lines == &vec![2]));
    assert_eq!(c.issues.len(), 1);
    assert_eq!(c.issues[0].problem, ItemTextProblem::LevelOutsideSchema);
    assert_eq!(c.issues[0].lines, vec![2]);
}

#[test]
fn unknown_and_malformed_lines_stay_pending() {
    let c = policy()
        .convert_text(b"Base: Sword\nCorrupted\nItem Level: 99999999999999999999")
        .unwrap();
    assert!(matches!(
        &c.lines[1].outcome,
        ItemLineOutcome::Pending { reason: ItemLinePending::UnknownLine, candidates } if candidates.is_empty()
    ));
    match &c.lines[2].outcome {
        ItemLineOutcome::Pending { reason: ItemLinePending::MalformedCapture { capture }, candidates } => {
            assert_eq!(capture, &b"lvl".to_vec());
            assert_eq!(candidates, &vec![b"level".to_vec()]);
        }
        other => panic!("unexpected outcome {:?}", other),
    }
    assert!(matches!(&c.item_level, ItemField::Pending { lines } if lines == &vec![3]));
}

#[test]
fn a_repeated_header_is_reported_with_both_lines() {
    let c = policy().convert_text(b"Base: Sword\nBase: Sword").unwrap();
    assert!(matches!(&c.template, ItemField::Pending { lines } if lines == &vec![1, 2]));
    assert_eq!(c.issues[0].problem, ItemTextProblem::DuplicateHeader);
    assert_eq!(c.issues[0].lines, vec![1, 2]);
}

#[test]
fn without_a_template_the_level_cannot_be_checked() {
    let c = policy().convert_text(b"Item Level: 12").unwrap();
    assert!(matches!(c.template, ItemField::Absent));
    assert!(matches!(&c.item_level, ItemField::Pending { lines } if lines == &vec![1]));
    assert!(c.issues.iter().any(|i| i.problem == ItemTextProblem::TemplateUnavailable));
}

#[test]
fn line_inputs_must_come_in_order() {
    let lines = vec![
        ItemLineInput { index: 2, text: b"Base: Sword".to_vec(), properties: None },
        ItemLineInput { index: 1, text: b"Item Level: 3".to_vec(), properties: None },
    ];
    assert!(matches!(policy().convert_lines(lines), Err(ItemLineError::LineOrder)));
}

#[test]
fn oversized_sources_are_refused() {
    let mut l = limits();
    l.max_source_bytes = 4;
    let p = OwnedItemLinePolicy::new(policy_input(vec![base_rule()]), &schema(), l).unwrap();
    assert!(matches!(
        p.convert_text(b"Base: Sword"),
        Err(ItemLineError::Limit(ItemLineBudget::SourceBytes))
    ));
}

#[test]
fn policies_bind_to_one_schema() {
    let mut input = policy_input(vec![base_rule()]);
    input.definitions = b"defs-2".to_vec();
    assert!(matches!(
        OwnedItemLinePolicy::new(input, &schema(), limits()),
        Err(ItemLineError::Binding)
    ));
    let mut duplicate = policy_input(vec![base_rule(), base_rule()]);
    duplicate.whitespace = WhitespacePolicy::Exact;
    assert!(matches!(
        OwnedItemLinePolicy::new(duplicate, &schema(), limits()),
        Err(ItemLineError::Invalid { violation: ItemLineViolation::DuplicateRuleId, .. })
    ));
    let mut version = policy_input(vec![base_rule()]);
    version.schema_version = 9;
    assert!(matches!(
        OwnedItemLinePolicy::new(version, &schema(), limits()),
        Err(ItemLineError::UnsupportedVersion(9))
    ));
}

#[test]
fn source_rule_captures_keep_the_spelling() {
    let p = policy();
    let mut work = 10_000;
    let mut output = 100;
    let caps = p.source_rule_captures(0, b"  Rarity: Unique ", &mut work, &mut output).unwrap().unwrap();
    assert_eq!(caps.len(), 1);
    assert_eq!(caps[0].id, b"r".to_vec());
    assert_eq!(caps[0].text, b"Unique".to_vec());
    assert!(p.source_rule_captures(1, b"Rarity: Unique", &mut work, &mut output).unwrap().is_none());
    assert!(matches!(
        p.source_rule_captures(9, b"Rarity: Unique", &mut work, &mut output),
        Err(ItemLineError::Binding)
    ));
}

#[test]
fn probed_lines_share_the_callers_budget() {
    let p = policy();
    let mut work = 10_000;
    let mut output = 100;
    let ev = p.probe_source_line(4, b"Item Level: 7".to_vec(), &mut work, &mut output).unwrap();
    assert_eq!(ev.index, 4);
    assert!(matches!(
        &ev.outcome,
        ItemLineOutcome::Known { emissions, .. } if matches!(emissions[0], ConvertedItemEmission::ItemLevel { value: 7 })
    ));
    assert!(work < 10_000);
    assert!(p.probe_source_line(0, b"Item Level: 7".to_vec(), &mut work, &mut output).is_err());
}

#[test]
fn blocked_source_lines_keep_the_adapters_reason() {
    let p = policy();
    let mut work = 100_000;
    let mut output = 1_000;
    let lines = vec![
        SourceLine {
            input: ItemLineInput { index: 1, text: b"Base: Sword".to_vec(), properties: None },
            pending: None,
        },
        SourceLine {
            input: ItemLineInput { index: 2, text: b"Item Level: 40".to_vec(), properties: None },
            pending: Some(SourceLinePending {
                reason: ItemLinePending::SourcePresentation,
                candidates: vec![b"level".to_vec()],
            }),
        },
    ];
    let c = p.convert_source_lines(lines, &mut work, &mut output).unwrap();
    assert!(matches!(&c.template, ItemField::Known { value, line: 1 } if value == b"sword"));
    assert!(matches!(
        &c.lines[1].outcome,
        ItemLineOutcome::Pending { reason: ItemLinePending::SourcePresentation, candidates } if candidates == &vec![b"level".to_vec()]
    ));
    assert!(matches!(&c.item_level, ItemField::Pending { lines } if lines == &vec![2]));
    let reversed = vec![
        SourceLine {
            input: ItemLineInput { index: 3, text: b"Base: Sword".to_vec(), properties: None },
            pending: None,
        },
        SourceLine {
            input: ItemLineInput { index: 2, text: b"Base: Sword".to_vec(), properties: None },
            pending: None,
        },
    ];
    assert!(matches!(
        p.convert_source_lines(reversed, &mut work, &mut output),
        Err(ItemLineError::LineOrder)
    ));
}

fn sockets_slot() -> DeclaredSlot {
    DeclaredSlot { declaration: SlotOwner::ItemTemplate(b"sword".to_vec()), slot: b"sockets".to_vec() }
}

fn sockets_rule() -> ItemLineRule {
    ItemLineRule {
        id: b"sockets".to_vec(),
        pattern: vec![
            literal("Sockets: "),
            ItemPatternPart::NumericCapture {
                capture: b"n".to_vec(),
                syntax: ItemNumericSyntax::Integer,
                sign: ItemNumericSign::Forbidden,
            },
        ],
        captures: vec![ItemCapture {
            id: b"n".to_vec(),
            codec: ItemCaptureCodec::Value(ValueCodecInput {
                namespace: NS.to_vec(),
                codec: ValueCodecKind::Integer,
            }),
        }],
        emissions: vec![ItemEmission::ItemParameter {
            slot: sockets_slot(),
            value: ItemLineValue::Capture(b"n".to_vec()),
        }],
    }
}

fn sockets_schema() -> ItemLineSchema {
    ItemLineSchema {
        namespace: NS.to_vec(),
        identity: DEFS.to_vec(),
        templates: vec![TemplateEntry {
            id: b"sword".to_vec(),
            schema: SchemaEntry::Known(ItemTemplateSchema {
                item_level: IntegerRange { minimum: 1, maximum: 100 },
                modifiers: KeySet { members: vec![], complete: true },
                parameters: SlotSet { members: vec![sockets_slot()], complete: true },
            }),
        }],
        modifiers: vec![],
        options: vec![],
        slots: vec![SlotEntry {
            slot: sockets_slot(),
            schema: SchemaEntry::Known(ParameterSlotSchema {
                sites: vec![ParameterSite::ItemParameter],
                presence: SlotPresence::OptionalOnce,
                value: ValueSchema::Integer(IntegerRange { minimum: 0, maximum: 6 }),
            }),
        }],
    }
}

#[test]
fn a_parameter_declared_on_two_lines_is_not_kept() {
    let policy = OwnedItemLinePolicy::new(
        policy_input(vec![base_rule(), sockets_rule()]),
        &sockets_schema(),
        limits(),
    )
    .unwrap();
    let once = policy.convert_text(b"Base: Sword\nSockets: 2").unwrap();
    assert_eq!(once.parameters.len(), 1);
    assert_eq!(once.parameters[0].line, 2);
    let twice = policy.convert_text(b"Base: Sword\nSockets: 2\nSockets: 3").unwrap();
    assert!(twice.parameters.is_empty());
    let dup: Vec<_> =
        twice.issues.iter().filter(|i| i.problem == ItemTextProblem::DuplicateParameter).collect();
    assert_eq!(dup.len(), 1);
    assert_eq!(dup[0].lines, vec![2, 3]);
}

fn links_slot() -> DeclaredSlot {
    DeclaredSlot { declaration: SlotOwner::ItemTemplate(b"sword".to_vec()), slot: b"links".to_vec() }
}

fn links_rule() -> ItemLineRule {
    let mut rule = sockets_rule();
    rule.id = b"links".to_vec();
    rule.pattern[0] = literal("Links: ");
    rule.emissions = vec![ItemEmission::ItemParameter {
        slot: links_slot(),
        value: ItemLineValue::Capture(b"n".to_vec()),
    }];
    rule
}

#[test]
fn duplicate_parameters_are_reported_in_slot_order() {
    let mut schema = sockets_schema();
    if let SchemaEntry::Known(t) = &mut schema.templates[0].schema {
        t.parameters.members.insert(0, links_slot());
    }
    schema.slots.insert(
        0,
        SlotEntry {
            slot: links_slot(),
            schema: SchemaEntry::Known(ParameterSlotSchema {
                sites: vec![ParameterSite::ItemParameter],
                presence: SlotPresence::OptionalOnce,
                value: ValueSchema::Integer(IntegerRange { minimum: 0, maximum: 6 }),
            }),
        },
    );
    let policy = OwnedItemLinePolicy::new(
        policy_input(vec![base_rule(), sockets_rule(), links_rule()]),
        &schema,
        limits(),
    )
    .unwrap();
    let c = policy
        .convert_text(b"Base: Sword\nSockets: 2\nSockets: 3\nLinks: 1\nLinks: 2")
        .unwrap();
    assert!(c.parameters.is_empty());
    let dup: Vec<_> =
        c.issues.iter().filter(|i| i.problem == ItemTextProblem::DuplicateParameter).collect();
    assert_eq!(dup.len(), 2);
    assert_eq!(dup[0].lines, vec![4, 5]);
    assert_eq!(dup[1].lines, vec![2, 3]);
}
