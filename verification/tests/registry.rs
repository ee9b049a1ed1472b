use poe_optimizer_import::registry::{
    allocated_key_exec, parse_allocated_key, DefinitionAddress, DefinitionDomain, OwnedIdRegistry,
    OwnedMappingError, OwnedMappingErrorKind, OwnedMappingLimits, RegistryEntry, RegistryInput,
    RegistryState, SchemaSubject, SlotDomain, check_wire_bytes, WireRefusal,
};

fn kind_of<T>(r: Result<T, OwnedMappingError>) -> OwnedMappingErrorKind {
    match r {
        Err(OwnedMappingError::Invalid { kind, .. }) => kind,
        Err(OwnedMappingError::UnsupportedVersion { .. }) => panic!("unexpected version error"),
        Ok(_) => panic!("expected an error"),
    }
}

fn fresh() -> OwnedIdRegistry {
    OwnedIdRegistry::empty(b"poe2/test".to_vec(), OwnedMappingLimits::default()).unwrap()
}

fn reload(registry: &OwnedIdRegistry) -> OwnedIdRegistry {
    OwnedIdRegistry::new(registry.input().clone(), OwnedMappingLimits::default()).unwrap()
}

#[test]
fn allocated_keys_are_def_and_sixteen_hex_digits() {
    assert_eq!(allocated_key_exec(1), b"def.0000000000000001".to_vec());
    assert_eq!(allocated_key_exec(0xabc), b"def.0000000000000abc".to_vec());
    assert_eq!(parse_allocated_key(b"def.00000000000000ff"), Some(255));
    assert_eq!(parse_allocated_key(b"def.00000000000000FF"), None);
    assert_eq!(parse_allocated_key(b"def.1"), None);
    assert_eq!(parse_allocated_key(b"key.0000000000000001"), None);
}

#[test]
fn allocation_issues_sequential_keys_and_bumps_counters() {
    let mut registry = fresh();
    let skill = registry.allocate_definition(DefinitionDomain::Skill).unwrap();
    assert_eq!(skill.key, b"def.0000000000000001".to_vec());
    assert_eq!(skill.namespace, b"poe2/test".to_vec());
    assert_eq!(skill.domain, DefinitionDomain::Skill);
    let slot = registry.allocate_slot(skill.clone(), SlotDomain::Parameter).unwrap();
    assert_eq!(slot.key, b"def.0000000000000002".to_vec());
    assert_eq!(slot.declaration, skill);
    let input = registry.input();
    assert_eq!(input.last_issued, 2);
    assert_eq!(input.revision, 2);
    assert_eq!(input.entries.len(), 2);
    assert_eq!(input.entries[0].sequence, 1);
    assert_eq!(input.entries[1].sequence, 2);
    assert!(registry.require_active(&SchemaSubject::Slot(slot)).is_ok());
}

#[test]
fn retirement_keeps_a_tombstone_and_blocks_reuse() {
    let mut registry = fresh();
    let gem = registry.allocate_definition(DefinitionDomain::Gem).unwrap();
    let target = SchemaSubject::Definition(gem.clone());
    let before = reload(&registry);
    registry.retire(&target, b"replaced".to_vec()).unwrap();
    let entry = registry.entry(&target).unwrap();
    assert_eq!(entry.state, RegistryState::Retired { reason: b"replaced".to_vec() });
    assert_eq!(registry.input().revision, 2);
    assert_eq!(registry.input().last_issued, 1);
    assert_eq!(kind_of(registry.require_active(&target)), OwnedMappingErrorKind::RetiredTarget);
    assert_eq!(
        kind_of(registry.retire(&target, b"again".to_vec())),
        OwnedMappingErrorKind::AlreadyRetired
    );
    assert_eq!(
        kind_of(registry.allocate_slot(gem, SlotDomain::Choice)),
        OwnedMappingErrorKind::RetiredTarget
    );
    assert!(before.validate_successor(&registry).is_ok());
    assert_eq!(
        kind_of(registry.validate_successor(&before)),
        OwnedMappingErrorKind::SuccessorConflict
    );
}

#[test]
fn a_definition_with_active_slots_cannot_be_retired() {
    let mut registry = fresh();
    let skill = registry.allocate_definition(DefinitionDomain::Skill).unwrap();
    let slot = registry.allocate_slot(skill.clone(), SlotDomain::Grant).unwrap();
    let owner = SchemaSubject::Definition(skill);
    assert_eq!(
        kind_of(registry.retire(&owner, b"gone".to_vec())),
        OwnedMappingErrorKind::ActiveDependentSlots
    );
    registry.retire(&SchemaSubject::Slot(slot), b"gone".to_vec()).unwrap();
    registry.retire(&owner, b"gone".to_vec()).unwrap();
    assert_eq!(registry.input().revision, 4);
}

#[test]
fn foreign_and_unknown_targets_are_refused() {
    let mut registry = fresh();
    let foreign = SchemaSubject::Definition(DefinitionAddress {
        domain: DefinitionDomain::Stat,
        namespace: b"poe2/other".to_vec(),
        key: b"def.0000000000000001".to_vec(),
    });
    assert_eq!(kind_of(registry.require_active(&foreign)), OwnedMappingErrorKind::ForeignNamespace);
    assert_eq!(
        kind_of(registry.retire(&foreign, b"x".to_vec())),
        OwnedMappingErrorKind::ForeignNamespace
    );
    let unknown = SchemaSubject::Definition(DefinitionAddress {
        domain: DefinitionDomain::Stat,
        namespace: b"poe2/test".to_vec(),
        key: b"def.0000000000000009".to_vec(),
    });
    assert_eq!(
        kind_of(registry.require_active(&unknown)),
        OwnedMappingErrorKind::UnknownRegistryTarget
    );
    assert!(registry.entry(&unknown).is_none());
}

#[test]
fn snapshots_are_sorted_by_sequence_on_load() {
    let mut registry = fresh();
    let a = registry.allocate_definition(DefinitionDomain::Class).unwrap();
    let b = registry.allocate_definition(DefinitionDomain::Reward).unwrap();
    let mut input = registry.input().clone();
    input.entries.reverse();
    let loaded = OwnedIdRegistry::new(input, OwnedMappingLimits::default()).unwrap();
    assert_eq!(loaded.input().entries[0].target, SchemaSubject::Definition(a));
    assert_eq!(loaded.input().entries[1].target, SchemaSubject::Definition(b));
}

#[test]
fn malformed_snapshots_are_refused() {
    let mut registry = fresh();
    registry.allocate_definition(DefinitionDomain::Option).unwrap();
    let good = registry.input().clone();

    let mut wrong_version = good.clone();
    wrong_version.schema_version = 2;
    assert!(matches!(
        OwnedIdRegistry::new(wrong_version, OwnedMappingLimits::default()),
        Err(OwnedMappingError::UnsupportedVersion { version: 2 })
    ));

    let mut gap = good.clone();
    gap.last_issued = 2;
    gap.revision = 2;
    assert_eq!(
        kind_of(OwnedIdRegistry::new(gap, OwnedMappingLimits::default())),
        OwnedMappingErrorKind::HistoryGap
    );

    let mut negative = good.clone();
    negative.revision = -1;
    assert_eq!(
        kind_of(OwnedIdRegistry::new(negative, OwnedMappingLimits::default())),
        OwnedMappingErrorKind::InvalidCounter
    );

    let mut wrong_key = good.clone();
    wrong_key.entries[0] = RegistryEntry {
        sequence: 1,
        target: SchemaSubject::Definition(DefinitionAddress {
            domain: DefinitionDomain::Option,
            namespace: b"poe2/test".to_vec(),
            key: b"def.0000000000000007".to_vec(),
        }),
        state: RegistryState::Active,
    };
    assert_eq!(
        kind_of(OwnedIdRegistry::new(wrong_key, OwnedMappingLimits::default())),
        OwnedMappingErrorKind::WrongAllocatedKey
    );

    let mut bad_limits = OwnedMappingLimits::default();
    bad_limits.max_candidates = 0;
    assert_eq!(
        kind_of(OwnedIdRegistry::new(good, bad_limits)),
        OwnedMappingErrorKind::InvalidLimit
    );
}

#[test]
fn limits_cap_the_number_of_entries() {
    let mut limits = OwnedMappingLimits::default();
    limits.max_entries = 1;
    let mut registry = OwnedIdRegistry::empty(b"ns".to_vec(), limits).unwrap();
    registry.allocate_definition(DefinitionDomain::Modifier).unwrap();
    assert_eq!(
        kind_of(registry.allocate_definition(DefinitionDomain::Modifier)),
        OwnedMappingErrorKind::LimitExceeded
    );
    assert_eq!(registry.input().entries.len(), 1);
    assert!(registry.validate_limits(OwnedMappingLimits::default()).is_ok());
}

#[test]
fn wire_bytes_are_checked_against_valid_limits() {
    let mut limits = OwnedMappingLimits::default();
    limits.max_wire_bytes = 4;
    assert!(check_wire_bytes(b"abcd", limits).is_ok());
    assert!(matches!(check_wire_bytes(b"abcde", limits), Err(WireRefusal::TooLarge { maximum: 4 })));
    limits.max_entries = 0;
    match check_wire_bytes(b"a", limits) {
        Err(WireRefusal::Limits(e)) => assert_eq!(kind_of(Err::<(), _>(e)), OwnedMappingErrorKind::InvalidLimit),
        _ => panic!("expected a limits refusal"),
    }
}
