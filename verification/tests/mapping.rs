use poe_optimizer_import::mapping::index::{
    AddressSet, MappingDefinitionRow, MappingPackageInput, MappingSchemaIndex, MappingSlotRow,
    OutputSchema, OwnedMappingIndex, SocketSchema,
};
use poe_optimizer_import::mapping::{
    ActionAlternativeKind, ExternalOwnerSelector, ExternalSelector, ExternalSlotKind, MappingBasis,
    MappingEntry, MappingOutcome, SourceComponent, OWNED_MAPPING_PACKAGE_VERSION,
};
use poe_optimizer_import::provenance::{ExternalSourceSystem, SourceFilePin, SourcePin};
use poe_optimizer_import::registry::{
    DefinitionAddress, DefinitionDomain, OwnedIdRegistry, OwnedMappingError, OwnedMappingErrorKind,
    OwnedMappingLimits, SchemaSubject, SlotAddress, SlotDomain,
};

const NS: &[u8] = b"poe2/test";
const REGISTRY_ID: &[u8] = b"registry-1";
const SCHEMA_ID: &[u8] = b"schema-1";

fn kind_of<T>(r: Result<T, OwnedMappingError>) -> OwnedMappingErrorKind {
    match r {
        Err(OwnedMappingError::Invalid { kind, .. }) => kind,
        Err(OwnedMappingError::UnsupportedVersion { .. }) => panic!("unexpected version error"),
        Ok(_) => panic!("expected an error"),
    }
}

fn text(s: &str) -> SourceComponent {
    SourceComponent::Text(s.as_bytes().to_vec())
}

fn skill(effect: &str) -> ExternalOwnerSelector {
    ExternalOwnerSelector::Skill { effect_id: text(effect) }
}

fn file(path: &str, digit: u8) -> SourceFilePin {
    SourceFilePin { path: path.as_bytes().to_vec(), sha256: vec![digit; 64] }
}

fn pin() -> SourcePin {
    SourcePin {
        system: ExternalSourceSystem::PathOfBuilding2,
        revision: b"abc123".to_vec(),
        files: vec![file("src/Modules/Skills.lua", b'b'), file("src/Data/Gems.lua", b'a')],
    }
}

fn exact(target: SchemaSubject) -> MappingOutcome {
    MappingOutcome::Mapped { target, basis: MappingBasis::Exact }
}

fn package(entries: Vec<MappingEntry>) -> MappingPackageInput {
    MappingPackageInput {
        schema_version: OWNED_MAPPING_PACKAGE_VERSION,
        namespace: NS.to_vec(),
        registry: REGISTRY_ID.to_vec(),
        definitions: SCHEMA_ID.to_vec(),
        source: pin(),
        policy_version: b"policy.1".to_vec(),
        entries,
    }
}

struct World {
    registry: OwnedIdRegistry,
    fireball: DefinitionAddress,
    frostbolt: DefinitionAddress,
    level: SlotAddress,
    output: SlotAddress,
    part: DefinitionAddress,
    stray_part: DefinitionAddress,
    index: MappingSchemaIndex,
}

fn set(members: Vec<DefinitionAddress>) -> AddressSet {
    AddressSet { members, complete: true }
}

fn world() -> World {
    let mut registry = OwnedIdRegistry::empty(NS.to_vec(), OwnedMappingLimits::default()).unwrap();
    let fireball = registry.allocate_definition(DefinitionDomain::Skill).unwrap();
    let frostbolt = registry.allocate_definition(DefinitionDomain::Skill).unwrap();
    let level = registry.allocate_slot(fireball.clone(), SlotDomain::Parameter).unwrap();
    let output = registry.allocate_slot(fireball.clone(), SlotDomain::ActionOutput).unwrap();
    let part = registry.allocate_definition(DefinitionDomain::ActionPart).unwrap();
    let stray_part = registry.allocate_definition(DefinitionDomain::ActionPart).unwrap();
    let row = |a: &DefinitionAddress| MappingDefinitionRow { address: a.clone(), socket: None };
    let index = MappingSchemaIndex {
        namespace: NS.to_vec(),
        identity: SCHEMA_ID.to_vec(),
        definitions: vec![row(&fireball), row(&frostbolt), row(&part), row(&stray_part)],
        slots: vec![
            MappingSlotRow { address: level.clone(), output: None },
            MappingSlotRow {
                address: output.clone(),
                output: Some(OutputSchema {
                    parts: set(vec![part.clone()]),
                    modes: set(vec![]),
                    stat_sets: AddressSet { members: vec![], complete: false },
                }),
            },
        ],
    };
    World { registry, fireball, frostbolt, level, output, part, stray_part, index }
}

fn build(w: &World, entries: Vec<MappingEntry>) -> Result<OwnedMappingIndex, OwnedMappingError> {
    OwnedMappingIndex::new(package(entries), &w.registry, REGISTRY_ID, &w.index, OwnedMappingLimits::default())
}

fn definition_entry(effect: &str, target: &DefinitionAddress) -> MappingEntry {
    MappingEntry {
        source: ExternalSelector::Definition(skill(effect)),
        outcome: exact(SchemaSubject::Definition(target.clone())),
    }
}

fn level_entry(effect: &str, target: &SlotAddress) -> MappingEntry {
    MappingEntry {
        source: ExternalSelector::Slot { owner: skill(effect), kind: ExternalSlotKind::Parameter, key: text("level") },
        outcome: exact(SchemaSubject::Slot(target.clone())),
    }
}

#[test]
fn accepted_package_sorts_files_and_answers_lookups() {
    let w = world();
    let index = build(&w, vec![definition_entry("fireball", &w.fireball), level_entry("fireball", &w.level)]).unwrap();
    let files = &index.input().source.files;
    assert_eq!(files[0].path, b"src/Data/Gems.lua".to_vec());
    assert_eq!(files[1].path, b"src/Modules/Skills.lua".to_vec());
    match index.lookup(&ExternalSelector::Definition(skill("fireball"))) {
        Some(MappingOutcome::Mapped { target, .. }) => {
            assert_eq!(*target, SchemaSubject::Definition(w.fireball.clone()))
        }
        _ => panic!("fireball should be mapped"),
    }
    assert!(index.lookup(&ExternalSelector::Definition(skill("frostbolt"))).is_none());
    let used = index.resources();
    assert_eq!(used.entries, 4);
    assert!(index.validate_limits(OwnedMappingLimits::default()).is_ok());
}

#[test]
fn bindings_accept_the_same_source_in_any_order() {
    let w = world();
    let index = build(&w, vec![definition_entry("fireball", &w.fireball)]).unwrap();
    let limits = OwnedMappingLimits::default();
    let mut reordered = pin();
    reordered.files.reverse();
    assert!(index.verify_bindings(&w.registry, REGISTRY_ID, &w.index, &reordered, b"policy.1", limits).is_ok());
    assert_eq!(
        kind_of(index.verify_bindings(&w.registry, REGISTRY_ID, &w.index, &pin(), b"policy.2", limits)),
        OwnedMappingErrorKind::PolicyBindingMismatch
    );
    let mut changed = pin();
    changed.files[0].sha256 = vec![b'c'; 64];
    assert_eq!(
        kind_of(index.verify_bindings(&w.registry, REGISTRY_ID, &w.index, &changed, b"policy.1", limits)),
        OwnedMappingErrorKind::SourceBindingMismatch
    );
    let mut fewer = pin();
    fewer.files.pop();
    assert_eq!(
        kind_of(index.verify_bindings(&w.registry, REGISTRY_ID, &w.index, &fewer, b"policy.1", limits)),
        OwnedMappingErrorKind::SourceBindingMismatch
    );
    assert_eq!(
        kind_of(index.verify_bindings(&w.registry, b"registry-2", &w.index, &pin(), b"policy.1", limits)),
        OwnedMappingErrorKind::RegistryBindingMismatch
    );
}

#[test]
fn package_version_and_bindings_are_checked() {
    let w = world();
    let mut input = package(vec![]);
    input.schema_version = 2;
    let r = OwnedMappingIndex::new(input, &w.registry, REGISTRY_ID, &w.index, OwnedMappingLimits::default());
    assert!(matches!(r, Err(OwnedMappingError::UnsupportedVersion { version: 2 })));
    let mut input = package(vec![]);
    input.namespace = b"poe1/test".to_vec();
    let r = OwnedMappingIndex::new(input, &w.registry, REGISTRY_ID, &w.index, OwnedMappingLimits::default());
    assert_eq!(kind_of(r), OwnedMappingErrorKind::ForeignNamespace);
    let r = OwnedMappingIndex::new(package(vec![]), &w.registry, b"other", &w.index, OwnedMappingLimits::default());
    assert_eq!(kind_of(r), OwnedMappingErrorKind::RegistryBindingMismatch);
    let mut input = package(vec![]);
    input.definitions = b"schema-2".to_vec();
    let r = OwnedMappingIndex::new(input, &w.registry, REGISTRY_ID, &w.index, OwnedMappingLimits::default());
    assert_eq!(kind_of(r), OwnedMappingErrorKind::SchemaBindingMismatch);
    let mut limits = OwnedMappingLimits::default();
    limits.max_candidates = 0;
    let r = OwnedMappingIndex::new(package(vec![]), &w.registry, REGISTRY_ID, &w.index, limits);
    assert_eq!(kind_of(r), OwnedMappingErrorKind::InvalidLimit);
}

#[test]
fn source_pins_are_validated() {
    let w = world();
    let mut input = package(vec![]);
    input.source.files.push(file("src/Data/Gems.lua", b'a'));
    let r = OwnedMappingIndex::new(input, &w.registry, REGISTRY_ID, &w.index, OwnedMappingLimits::default());
    assert_eq!(kind_of(r), OwnedMappingErrorKind::InvalidSourcePin);
    let mut input = package(vec![]);
    input.source.files[0].sha256 = vec![b'G'; 64];
    let r = OwnedMappingIndex::new(input, &w.registry, REGISTRY_ID, &w.index, OwnedMappingLimits::default());
    assert_eq!(kind_of(r), OwnedMappingErrorKind::InvalidDigest);
    let mut input = package(vec![]);
    input.source.revision = b"  ".to_vec();
    let r = OwnedMappingIndex::new(input, &w.registry, REGISTRY_ID, &w.index, OwnedMappingLimits::default());
    assert_eq!(kind_of(r), OwnedMappingErrorKind::InvalidSourcePin);
}

#[test]
fn selectors_are_unique_and_exact_targets_one_to_one() {
    let w = world();
    let r = build(&w, vec![definition_entry("fireball", &w.fireball), definition_entry("fireball", &w.frostbolt)]);
    assert_eq!(kind_of(r), OwnedMappingErrorKind::DuplicateSelector);
    let r = build(&w, vec![definition_entry("fireball", &w.fireball), definition_entry("fire ball", &w.fireball)]);
    assert_eq!(kind_of(r), OwnedMappingErrorKind::UnreviewedAlias);
    let alias = MappingEntry {
        source: ExternalSelector::Definition(skill("fire ball")),
        outcome: MappingOutcome::Mapped {
            target: SchemaSubject::Definition(w.fireball.clone()),
            basis: MappingBasis::ReviewedAlias { reason: b"renamed".to_vec() },
        },
    };
    assert!(build(&w, vec![definition_entry("fireball", &w.fireball), alias]).is_ok());
}

#[test]
fn targets_must_fit_their_selector() {
    let w = world();
    let r = build(&w, vec![MappingEntry {
        source: ExternalSelector::Definition(skill("fireball")),
        outcome: exact(SchemaSubject::Slot(w.level.clone())),
    }]);
    assert_eq!(kind_of(r), OwnedMappingErrorKind::WrongTargetKind);
    let gem_owner = MappingEntry {
        source: ExternalSelector::Slot {
            owner: ExternalOwnerSelector::Gem { game_id: text("g"), variant_id: text("v") },
            kind: ExternalSlotKind::Parameter,
            key: text("level"),
        },
        outcome: exact(SchemaSubject::Slot(w.level.clone())),
    };
    assert_eq!(kind_of(build(&w, vec![gem_owner])), OwnedMappingErrorKind::WrongTargetOwner);
    let mut w2 = world();
    w2.index.definitions.truncate(1);
    let r = build(&w2, vec![definition_entry("frostbolt", &w2.frostbolt)]);
    assert_eq!(kind_of(r), OwnedMappingErrorKind::MissingSchemaTarget);
}

#[test]
fn socket_targets_follow_their_known_schema() {
    let mut w = world();
    let socket = w.registry.allocate_definition(DefinitionDomain::SocketSlot).unwrap();
    w.index.definitions.push(MappingDefinitionRow {
        address: socket.clone(),
        socket: Some(SocketSchema { owner: w.fireball.clone(), kind: 3 }),
    });
    let entry = |kind: u64, effect: &str| MappingEntry {
        source: ExternalSelector::Socket { owner: skill(effect), kind, key: text("s1") },
        outcome: exact(SchemaSubject::Definition(socket.clone())),
    };
    assert!(build(&w, vec![entry(3, "fireball")]).is_ok());
    assert_eq!(kind_of(build(&w, vec![entry(4, "fireball")])), OwnedMappingErrorKind::WrongSocketKind);
    let r = build(&w, vec![definition_entry("frostbolt", &w.frostbolt), entry(3, "frostbolt")]);
    assert_eq!(kind_of(r), OwnedMappingErrorKind::WrongTargetOwner);
}

#[test]
fn ambiguity_lists_distinct_fitting_candidates() {
    let w = world();
    let ambiguous = |candidates: Vec<SchemaSubject>| MappingEntry {
        source: ExternalSelector::Definition(skill("bolt")),
        outcome: MappingOutcome::Ambiguous { candidates, issue: b"two bolts".to_vec() },
    };
    let one = vec![SchemaSubject::Definition(w.frostbolt.clone())];
    assert_eq!(kind_of(build(&w, vec![ambiguous(one)])), OwnedMappingErrorKind::TooFewCandidates);
    let twice =
        vec![SchemaSubject::Definition(w.frostbolt.clone()), SchemaSubject::Definition(w.frostbolt.clone())];
    assert_eq!(kind_of(build(&w, vec![ambiguous(twice)])), OwnedMappingErrorKind::DuplicateCandidate);
    let wrong = vec![SchemaSubject::Definition(w.frostbolt.clone()), SchemaSubject::Slot(w.level.clone())];
    assert_eq!(kind_of(build(&w, vec![ambiguous(wrong)])), OwnedMappingErrorKind::WrongTargetKind);
    let good =
        vec![SchemaSubject::Definition(w.frostbolt.clone()), SchemaSubject::Definition(w.fireball.clone())];
    let index = build(&w, vec![ambiguous(good)]).unwrap();
    assert_eq!(index.resources().largest_candidates, 2);
    let mut limits = OwnedMappingLimits::default();
    limits.max_candidates = 1;
    let good =
        vec![SchemaSubject::Definition(w.frostbolt.clone()), SchemaSubject::Definition(w.fireball.clone())];
    let r = OwnedMappingIndex::new(package(vec![ambiguous(good)]), &w.registry, REGISTRY_ID, &w.index, limits);
    assert_eq!(kind_of(r), OwnedMappingErrorKind::LimitExceeded);
    assert_eq!(kind_of(index.validate_limits(limits)), OwnedMappingErrorKind::LimitExceeded);
}

#[test]
fn mapped_children_agree_with_their_mapped_owner() {
    let w = world();
    let r = build(&w, vec![definition_entry("fireball", &w.frostbolt), level_entry("fireball", &w.level)]);
    assert_eq!(kind_of(r), OwnedMappingErrorKind::WrongTargetOwner);
    assert!(build(&w, vec![level_entry("fireball", &w.level)]).is_ok());
}

#[test]
fn action_alternatives_stay_within_a_complete_output() {
    let w = world();
    let output = MappingEntry {
        source: ExternalSelector::Slot { owner: skill("fireball"), kind: ExternalSlotKind::ActionOutput, key: text("hit") },
        outcome: exact(SchemaSubject::Slot(w.output.clone())),
    };
    let alternative = |kind: ActionAlternativeKind, key: &str, target: &DefinitionAddress| MappingEntry {
        source: ExternalSelector::ActionAlternative {
            owner: skill("fireball"),
            output: text("hit"),
            key: text(key),
            kind,
        },
        outcome: exact(SchemaSubject::Definition(target.clone())),
    };
    let output_again = || MappingEntry {
        source: ExternalSelector::Slot { owner: skill("fireball"), kind: ExternalSlotKind::ActionOutput, key: text("hit") },
        outcome: exact(SchemaSubject::Slot(w.output.clone())),
    };
    assert!(build(&w, vec![output, alternative(ActionAlternativeKind::Part, "p", &w.part)]).is_ok());
    let r = build(&w, vec![output_again(), alternative(ActionAlternativeKind::Part, "p", &w.stray_part)]);
    assert_eq!(kind_of(r), OwnedMappingErrorKind::WrongOutputTopology);
    assert!(build(&w, vec![alternative(ActionAlternativeKind::Part, "p", &w.stray_part)]).is_ok());
}
