use poe_optimizer_import::gems::{selected, GemSchemaRefinement, GEM_SCHEMA_REFINEMENT_VERSION};
use poe_optimizer_import::item_lines::schema::{
    IntegerRange, ItemLineSchema, ItemTemplateSchema, KeySet, SchemaEntry, SlotSet, TemplateEntry,
};
use poe_optimizer_import::item_lines::{
    ItemEmission, ItemLineLimits, ItemLinePolicyInput, ItemLineRule, ItemPatternPart,
    OwnedItemLinePolicy, WhitespacePolicy, OWNED_ITEM_LINE_POLICY_VERSION,
};
use poe_optimizer_import::item_source::{
    ItemLoadIndexPrefix, ItemRuleSourceLayout, ItemRuleSourceRole, ItemSourceDialect,
    ItemSourceError, ItemSourceLayoutPolicy, ItemSourceLayoutPolicyInput, ItemSourceLimits,
    ItemTemplateSourceLayout, OWNED_ITEM_SOURCE_POLICY_VERSION,
};
use poe_optimizer_import::observation_policy::{
    compile_owned_item_observations, ItemObservationDeclaration, ItemObservationPolicyRequest,
    OWNED_ITEM_OBSERVATION_REQUEST_VERSION,
};
use poe_optimizer_import::normalize::{
    validate_action_targets, ImportActionTarget, ImportActorTarget, ImportProviderTarget,
    ImportSkillUseLocator, NormalizationError, QueryTargetLimits,
};
use poe_optimizer_import::observations::{
    finite_bits_exec, validate_item_observation_catalog, ItemObservationArmourField,
    ItemObservationPolicyError, ItemObservationPolicyLimits,
    ItemObservationBaseRow, ItemObservationCatalog, ItemObservationError, ItemObservationFamily,
    ItemObservationLimits, ItemObservationNumericField, ItemObservationRetarget,
    ItemObservationWeaponBranch, OWNED_ITEM_OBSERVATION_VERSION,
};
use poe_optimizer_import::provenance::{ExternalSourceSystem, SourceFilePin, SourcePin};
use poe_optimizer_import::registry::{DefinitionAddress, DefinitionDomain, SlotAddress, SlotDomain};

const SHA: &[u8] = b"e3b0c44298fc1c149afbf4c8996fb92427ae41e4649b934ca495991b7852b855";

fn finite(v: f64) -> ItemObservationNumericField {
    ItemObservationNumericField::Finite { bits: v.to_bits() }
}

fn row(name: &str) -> ItemObservationBaseRow {
    ItemObservationBaseRow {
        source_base: name.as_bytes().to_vec(),
        weapon_branch: ItemObservationWeaponBranch::Absent,
        armour: ItemObservationArmourField::Table {
            armour: finite(12.0),
            evasion: ItemObservationNumericField::Absent,
            energy_shield: ItemObservationNumericField::Absent,
            ward: ItemObservationNumericField::Absent,
            block_chance: ItemObservationNumericField::Absent,
            movement_penalty: ItemObservationNumericField::Absent,
        },
        spirit: ItemObservationNumericField::Absent,
        charm_slots: finite(0.0),
        defence_base_retarget: ItemObservationRetarget::NoRetarget,
    }
}

fn source(files: Vec<&str>) -> SourcePin {
    SourcePin {
        system: ExternalSourceSystem::PathOfBuilding2,
        revision: b"v0.9.0".to_vec(),
        files: files
            .into_iter()
            .map(|p| SourceFilePin { path: p.as_bytes().to_vec(), sha256: SHA.to_vec() })
            .collect(),
    }
}

fn catalog(bases: Vec<ItemObservationBaseRow>) -> ItemObservationCatalog {
    ItemObservationCatalog {
        schema_version: OWNED_ITEM_OBSERVATION_VERSION,
        source: source(vec!["src/Data/Bases/body.lua"]),
        bases,
    }
}

#[test]
fn finite_bits_follow_ieee_exponents() {
    assert!(finite_bits_exec(1.5f64.to_bits()));
    assert!(finite_bits_exec(0.0f64.to_bits()));
    assert!(!finite_bits_exec(f64::INFINITY.to_bits()));
    assert!(!finite_bits_exec(f64::NAN.to_bits()));
}

#[test]
fn observation_families_need_their_source_numbers() {
    let r = row("Plate Vest");
    assert!(ItemObservationFamily::Defences.permits(&r));
    assert!(ItemObservationFamily::CharmSlots.permits(&r));
    assert!(!ItemObservationFamily::Spirit.permits(&r));
    let mut weapon = row("Plate Vest");
    weapon.weapon_branch = ItemObservationWeaponBranch::Truthy;
    assert!(!ItemObservationFamily::Defences.permits(&weapon));
    let mut retarget = row("Plate Vest");
    retarget.defence_base_retarget = ItemObservationRetarget::Possible;
    assert!(!retarget.can_observe_defences());
    let mut unsupported = row("Plate Vest");
    unsupported.armour = ItemObservationArmourField::Unsupported;
    assert!(!unsupported.can_observe_defences());
}

#[test]
fn catalogs_are_canonical_and_finite() {
    let limits = ItemObservationLimits::default();
    assert!(validate_item_observation_catalog(&catalog(vec![row("A"), row("B")]), limits).is_ok());
    assert!(validate_item_observation_catalog(&catalog(vec![row("B"), row("A")]), limits).is_err());
    assert!(validate_item_observation_catalog(&catalog(vec![row("A"), row("A")]), limits).is_err());
    assert!(validate_item_observation_catalog(&catalog(vec![row(" A")]), limits).is_err());
    assert!(matches!(
        validate_item_observation_catalog(&catalog(vec![]), limits),
        Err(ItemObservationError::Limit(_))
    ));
    let mut infinite = row("A");
    infinite.spirit = finite(f64::INFINITY);
    assert!(validate_item_observation_catalog(&catalog(vec![infinite]), limits).is_err());
    let mut version = catalog(vec![row("A")]);
    version.schema_version = 2;
    assert!(matches!(
        validate_item_observation_catalog(&version, limits),
        Err(ItemObservationError::Invalid(_))
    ));
}

fn gem(ns: &str, key: &str) -> DefinitionAddress {
    DefinitionAddress {
        domain: DefinitionDomain::Gem,
        namespace: ns.as_bytes().to_vec(),
        key: key.as_bytes().to_vec(),
    }
}

fn slot(ns: &str, key: &str) -> SlotAddress {
    SlotAddress {
        declaration: gem(ns, "def.0000000000000001"),
        domain: SlotDomain::Grant,
        namespace: ns.as_bytes().to_vec(),
        key: key.as_bytes().to_vec(),
    }
}

#[test]
fn gem_refinements_list_their_gems_in_canonical_order() {
    let mut policy = GemSchemaRefinement {
        schema_version: GEM_SCHEMA_REFINEMENT_VERSION,
        before: b"schema-a".to_vec(),
        after: b"schema-b".to_vec(),
        prior_mapping: b"m".to_vec(),
        prior_roles: b"r".to_vec(),
        gems: vec![gem("a", "k2"), gem("b", "k1")],
        parameters: vec![slot("a", "p1"), slot("a", "p2")],
    };
    let gems = selected(&policy).unwrap();
    assert_eq!(gems, vec![gem("a", "k2"), gem("b", "k1")]);
    policy.gems.reverse();
    assert!(selected(&policy).is_err());
    policy.gems.reverse();
    policy.after = b"schema-a".to_vec();
    assert!(selected(&policy).is_err());
}

fn provider(ns: &str) -> ImportProviderTarget {
    ImportProviderTarget {
        skill_use: ImportSkillUseLocator {
            source_sha256: SHA.to_vec(),
            occurrence_ordinal: 0,
            expected_gem: gem(ns, "def.0000000000000001"),
        },
        grant_path: vec![slot(ns, "def.0000000000000002")],
    }
}

fn action(ns: &str) -> ImportActionTarget {
    ImportActionTarget {
        provider: provider(ns),
        actor: ImportActorTarget::Player,
        output: slot(ns, "def.0000000000000003"),
        part: gem(ns, "def.0000000000000004"),
        mode: gem(ns, "def.0000000000000005"),
        stat_set: gem(ns, "def.0000000000000006"),
    }
}

#[test]
fn action_targets_stay_in_their_gem_namespace() {
    let limits = QueryTargetLimits { max_work: 10_000, max_provider_steps: 8, max_collection_entries: 8 };
    assert_eq!(validate_action_targets(&vec![action("ns")], None, limits).unwrap(), 71);
    let expected = b"ns".to_vec();
    assert!(validate_action_targets(&vec![action("ns")], Some(&expected), limits).is_ok());
    let other = b"other".to_vec();
    assert!(validate_action_targets(&vec![action("ns")], Some(&other), limits).is_err());
    let mut mixed = action("ns");
    mixed.part = gem("other", "def.0000000000000004");
    assert!(validate_action_targets(&vec![mixed], None, limits).is_err());
    let mut owned = action("ns");
    owned.actor = ImportActorTarget::Owned {
        provider: Box::new(provider("ns")),
        slot: slot("ns", "def.0000000000000007"),
    };
    assert_eq!(validate_action_targets(&vec![owned], None, limits).unwrap(), 71 + 67);
    let tight = QueryTargetLimits { max_work: 70, ..limits };
    assert!(matches!(
        validate_action_targets(&vec![action("ns")], None, tight),
        Err(NormalizationError::Limit(_))
    ));
}

fn lines_policy() -> (OwnedItemLinePolicy, ItemLineSchema) {
    let schema = || ItemLineSchema {
        namespace: b"ns".to_vec(),
        identity: b"defs".to_vec(),
        templates: vec![TemplateEntry {
            id: b"vest".to_vec(),
            schema: SchemaEntry::Known(ItemTemplateSchema {
                item_level: IntegerRange { minimum: 1, maximum: 100 },
                modifiers: KeySet { members: vec![], complete: true },
                parameters: SlotSet { members: vec![], complete: true },
            }),
        }],
        modifiers: vec![],
        options: vec![],
        slots: vec![],
    };
    let input = ItemLinePolicyInput {
        schema_version: OWNED_ITEM_LINE_POLICY_VERSION,
        namespace: b"ns".to_vec(),
        definitions: b"defs".to_vec(),
        whitespace: WhitespacePolicy::Exact,
        rules: vec![ItemLineRule {
            id: b"base".to_vec(),
            pattern: vec![ItemPatternPart::Literal(b"Plate Vest".to_vec())],
            captures: vec![],
            emissions: vec![ItemEmission::Template { definition: b"vest".to_vec() }],
        }],
    };
    let limits = ItemLineLimits {
        max_rules: 8,
        max_parts: 8,
        max_captures: 8,
        max_emissions: 8,
        max_rolls: 8,
        max_policy_text_bytes: 1024,
        max_schema_work: 1024,
        max_line_bytes: 1024,
        max_source_bytes: 1024,
        max_lines: 8,
        max_work: 1024,
        max_output_declarations: 8,
    };
    let policy = OwnedItemLinePolicy::new(input, &schema(), limits).unwrap();
    (policy, schema())
}

fn layout(rule: &str, template: &str) -> ItemSourceLayoutPolicyInput {
    ItemSourceLayoutPolicyInput {
        schema_version: OWNED_ITEM_SOURCE_POLICY_VERSION,
        namespace: b"ns".to_vec(),
        version: b"1".to_vec(),
        source: source(vec!["src/Classes/Item.lua"]),
        item_lines: b"lines-digest".to_vec(),
        dialect: ItemSourceDialect::PobExportedSingleTextV1,
        rule_layouts: vec![ItemRuleSourceLayout {
            rule: rule.as_bytes().to_vec(),
            role: ItemRuleSourceRole::Header,
        }],
        template_layouts: vec![ItemTemplateSourceLayout {
            template: template.as_bytes().to_vec(),
            load_index_prefix: ItemLoadIndexPrefix::NoGeneratedBuffMembers,
        }],
    }
}

#[test]
fn layout_policies_name_known_rules_and_templates() {
    let (lines, schema) = lines_policy();
    let limits = ItemSourceLimits::default();
    let ok = ItemSourceLayoutPolicy::new(layout("base", "vest"), &lines, b"lines-digest", &schema, limits);
    assert!(ok.is_ok());
    assert_eq!(ok.unwrap().input().rule_layouts[0].rule, b"base".to_vec());
    assert!(ItemSourceLayoutPolicy::new(layout("other", "vest"), &lines, b"lines-digest", &schema, limits)
        .is_err());
    assert!(ItemSourceLayoutPolicy::new(layout("base", "ring"), &lines, b"lines-digest", &schema, limits)
        .is_err());
    assert!(ItemSourceLayoutPolicy::new(layout("base", "vest"), &lines, b"other-digest", &schema, limits)
        .is_err());
    let mut blank = layout("base", "vest");
    blank.source.revision = b"  ".to_vec();
    assert!(ItemSourceLayoutPolicy::new(blank, &lines, b"lines-digest", &schema, limits).is_err());
    let mut version = layout("base", "vest");
    version.schema_version = 3;
    assert!(matches!(
        ItemSourceLayoutPolicy::new(version, &lines, b"lines-digest", &schema, limits),
        Err(ItemSourceError::UnsupportedVersion(3))
    ));
    let mut bad = ItemSourceLimits::default();
    bad.max_rules = 0;
    assert!(matches!(
        ItemSourceLayoutPolicy::new(layout("base", "vest"), &lines, b"lines-digest", &schema, bad),
        Err(ItemSourceError::InvalidLimit)
    ));
}

const CATALOG_SHA: &[u8] = b"652f55016243bf1b9f1bbea46d5749ef892dbe394e46de9d66ab1aacf0b4af57";

fn request(family: ItemObservationFamily, sha: &[u8]) -> ItemObservationPolicyRequest {
    ItemObservationPolicyRequest {
        schema_version: OWNED_ITEM_OBSERVATION_REQUEST_VERSION,
        version: b"2".to_vec(),
        catalog_sha256: sha.to_vec(),
        observations: vec![ItemObservationDeclaration {
            rule: ItemLineRule {
                id: b"armour-line".to_vec(),
                pattern: vec![ItemPatternPart::Literal(b"Armour: 12".to_vec())],
                captures: vec![],
                emissions: vec![ItemEmission::Metadata { role: b"armour".to_vec() }],
            },
            field: b"armour".to_vec(),
            family,
        }],
    }
}

fn observation_limits() -> ItemObservationPolicyLimits {
    let (lines, _) = lines_policy();
    ItemObservationPolicyLimits {
        max_request_bytes: 1 << 20,
        max_observations: 64,
        max_work: 1 << 26,
        catalog: ItemObservationLimits::default(),
        items: lines.limits(),
        item_source: ItemSourceLimits::default(),
    }
}

#[test]
fn observations_list_the_templates_their_bases_support() {
    let (lines, schema) = lines_policy();
    let source = ItemSourceLayoutPolicy::new(
        layout("base", "vest"),
        &lines,
        b"lines-digest",
        &schema,
        ItemSourceLimits::default(),
    )
    .unwrap();
    let mut cat = catalog(vec![row("Plate Vest"), row("Unbound Robe")]);
    cat.source.files[0].path = b"src/Data/Bases/body.lua".to_vec();
    let staged = compile_owned_item_observations(
        b"catalog",
        &cat,
        request(ItemObservationFamily::Defences, CATALOG_SHA),
        lines,
        &schema,
        &source,
        vec![],
        10,
        10,
        observation_limits(),
    )
    .unwrap();
    assert_eq!(staged.catalog_sha256, CATALOG_SHA.to_vec());
    assert_eq!(staged.catalog_bases, 2);
    assert_eq!(staged.exact_base_bindings, 1);
    assert_eq!(staged.added_observations, 1);
    assert_eq!(staged.added_template_references, 1);
    let rules = &staged.items.input().rules;
    assert_eq!(rules[rules.len() - 1].id, b"armour-line".to_vec());
    assert_eq!(staged.rule_layouts[0].role, ItemRuleSourceRole::Unresolved);
    assert_eq!(staged.observations[0].templates, vec![b"vest".to_vec()]);
    assert_eq!(staged.observations[0].field, b"armour".to_vec());
    let paths: Vec<Vec<u8>> = staged.source.files.iter().map(|f| f.path.clone()).collect();
    assert_eq!(paths, vec![b"src/Classes/Item.lua".to_vec(), b"src/Data/Bases/body.lua".to_vec()]);
    assert!(staged.work_used > 0);
}

#[test]
fn observations_without_compatible_templates_or_digest_are_refused() {
    let (lines, schema) = lines_policy();
    let source = ItemSourceLayoutPolicy::new(
        layout("base", "vest"),
        &lines,
        b"lines-digest",
        &schema,
        ItemSourceLimits::default(),
    )
    .unwrap();
    let cat = catalog(vec![row("Plate Vest")]);
    assert!(matches!(
        compile_owned_item_observations(
            b"catalog",
            &cat,
            request(ItemObservationFamily::Spirit, CATALOG_SHA),
            lines_policy().0,
            &schema,
            &source,
            vec![],
            0,
            0,
            observation_limits(),
        ),
        Err(ItemObservationPolicyError::Invalid(_))
    ));
    assert!(matches!(
        compile_owned_item_observations(
            b"catalog!",
            &cat,
            request(ItemObservationFamily::Defences, CATALOG_SHA),
            lines_policy().0,
            &schema,
            &source,
            vec![],
            0,
            0,
            observation_limits(),
        ),
        Err(ItemObservationPolicyError::Binding)
    ));
    let mut foreign = catalog(vec![row("Plate Vest")]);
    foreign.source.revision = b"v0.8.0".to_vec();
    assert!(matches!(
        compile_owned_item_observations(
            b"catalog",
            &foreign,
            request(ItemObservationFamily::Defences, CATALOG_SHA),
            lines_policy().0,
            &schema,
            &source,
            vec![],
            0,
            0,
            observation_limits(),
        ),
        Err(ItemObservationPolicyError::Binding)
    ));
}
