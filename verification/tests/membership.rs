use poe_optimizer_import::gems::{index_parameters, SuccessorBundleError};
use poe_optimizer_import::membership::{
    refine_set, DeclaredSet, MembershipError, RefinementProblem, SchemaClosure, SchemaFacet,
    SchemaMembershipRefinement,
    SchemaGap,
};
use poe_optimizer_import::refinement::{
    preserve, validate_current, SchemaCatalog, SchemaDescriptor,
};
use poe_optimizer_import::registry::{
    DefinitionAddress, DefinitionDomain, SchemaSubject, SlotAddress, SlotDomain,
};

fn partial(members: Vec<u64>) -> DeclaredSet {
    DeclaredSet::partial(
        members,
        vec![SchemaGap {
            subject: SchemaSubject::Definition(DefinitionAddress {
                domain: DefinitionDomain::Skill,
                namespace: b"poe2/test".to_vec(),
                key: b"skill".to_vec(),
            }),
            facet: SchemaFacet::InputSchema,
            code: b"unconverted".to_vec(),
        }],
    )
}

fn check(
    old: &mut DeclaredSet,
    new: &DeclaredSet,
    budget: usize,
) -> Result<(bool, bool), MembershipError> {
    let mut left = budget;
    refine_set(&mut left, old, new)
}

#[test]
fn generic_membership_requires_additions_preserves_order_and_never_closes_gaps() {
    let initial = partial(vec![2, 4]);
    let mut old = initial.clone();
    let expected = partial(vec![1, 2, 3, 4, 5]);
    assert_eq!(check(&mut old, &expected, 100).unwrap(), (true, true));
    assert_eq!(old, expected);
    for members in [
        vec![4, 2, 5],
        vec![2, 5, 6],
        vec![2, 4, 4],
        vec![2],
        vec![4, 2],
    ] {
        assert!(check(&mut initial.clone(), &partial(members), 100).is_err());
    }
    let mut changed_gap = expected.clone();
    let SchemaClosure::Partial { gaps } = &mut changed_gap.closure else {
        panic!()
    };
    gaps[0].code = b"different".to_vec();
    assert!(check(&mut initial.clone(), &changed_gap, 100).is_err());
    assert!(check(
        &mut initial.clone(),
        &DeclaredSet::complete(vec![2, 4, 5]),
        100
    )
    .is_err());
    assert!(check(
        &mut DeclaredSet::complete(vec![2, 4]),
        &DeclaredSet::complete(vec![2, 4, 5]),
        100
    )
    .is_err());
    assert_eq!(
        check(
            &mut DeclaredSet::complete(vec![2, 4]),
            &DeclaredSet::complete(vec![2, 4]),
            100
        )
        .unwrap(),
        (false, false)
    );
}

#[test]
fn set_work_is_bounded_before_indexing_or_cloning_members() {
    let old = partial(vec![2, 4]);
    let new = partial(vec![1, 2, 3, 4, 5]);
    for budget in [0, 1, 2, 6] {
        let mut candidate = old.clone();
        assert!(check(&mut candidate, &new, budget).is_err());
        assert_eq!(candidate, old);
    }
    check(&mut old.clone(), &new, 7).unwrap();
}

#[test]
fn parameter_membership_index_charges_aggregate_original_lists_before_collection() {
    let namespace = b"test-game/test-version".to_vec();
    let owner = DefinitionAddress {
        domain: DefinitionDomain::Gem,
        namespace: namespace.clone(),
        key: b"gem".to_vec(),
    };
    let slot = |name: &str| SlotAddress {
        declaration: owner.clone(),
        domain: SlotDomain::Parameter,
        namespace: namespace.clone(),
        key: name.as_bytes().to_vec(),
    };
    let first = vec![slot("one"), slot("two")];
    let second = vec![slot("three"), slot("four")];
    let mut remaining = 3;
    let indexed = index_parameters(&first, &mut remaining).unwrap();
    assert_eq!(remaining, 1);
    assert_eq!(indexed.len(), 2);
    assert!(indexed.contains(&first[0]));
    assert!(matches!(
        index_parameters(&second, &mut remaining),
        Err(SuccessorBundleError::Limit(
            "gem migration parameter memberships"
        ))
    ));
    let mut exact = 4;
    index_parameters(&first, &mut exact).unwrap();
    index_parameters(&second, &mut exact).unwrap();
    assert_eq!(exact, 0);
    assert!(index_parameters(&first, &mut exact).is_err());
    // Deduplication must not erase the amount of supplied validation work.
    let mut tight = 1;
    assert!(index_parameters(&[first[0].clone(), first[0].clone()], &mut tight).is_err());
}

#[test]
fn refinement_problems_are_reported_by_kind() {
    let cases: Vec<(Vec<u64>, RefinementProblem)> = vec![
        (vec![4, 2, 5], RefinementProblem::Reordered),
        (vec![2, 5, 6], RefinementProblem::Removed),
        (vec![2, 4, 4], RefinementProblem::DuplicateAddedMember),
        (vec![2], RefinementProblem::NotAnAddition),
    ];
    for (members, problem) in cases {
        assert_eq!(
            check(&mut partial(vec![2, 4]), &partial(members), 100),
            Err(MembershipError::Refinement(problem))
        );
    }
    assert_eq!(
        check(&mut partial(vec![2, 2]), &partial(vec![2, 2, 3]), 100),
        Err(MembershipError::Refinement(RefinementProblem::DuplicatePreviousMember))
    );
    assert_eq!(
        check(&mut partial(vec![2, 4]), &partial(vec![1, 2, 3, 4, 5]), 6),
        Err(MembershipError::Limit)
    );
}

fn definition(key: &str) -> SchemaSubject {
    SchemaSubject::Definition(DefinitionAddress {
        domain: DefinitionDomain::ItemTemplate,
        namespace: b"poe2/test".to_vec(),
        key: key.as_bytes().to_vec(),
    })
}

fn descriptor(key: &str, facets: Vec<DeclaredSet>, rest: &str) -> SchemaDescriptor {
    SchemaDescriptor { subject: definition(key), known: true, facets, rest: rest.as_bytes().to_vec() }
}

fn catalog(definitions: Vec<SchemaDescriptor>) -> SchemaCatalog {
    SchemaCatalog { definitions, slots: vec![] }
}

fn policy(keys: &[&str]) -> SchemaMembershipRefinement {
    SchemaMembershipRefinement {
        schema_version: 3,
        before: b"before".to_vec(),
        after: b"after".to_vec(),
        subjects: keys.iter().map(|k| definition(k)).collect(),
    }
}

fn before() -> SchemaCatalog {
    catalog(vec![
        descriptor("a", vec![partial(vec![2, 4])], "x"),
        descriptor("b", vec![DeclaredSet::complete(vec![1])], "y"),
    ])
}

#[test]
fn a_preserved_successor_only_grows_selected_partial_facets() {
    let after = catalog(vec![
        descriptor("b", vec![DeclaredSet::complete(vec![1])], "y"),
        descriptor("a", vec![partial(vec![1, 2, 3, 4, 5])], "x"),
    ]);
    let mut left = 1000;
    assert_eq!(preserve(&policy(&["a"]), &before(), &after, &mut left).unwrap(), (1, 0));
    assert!(left < 1000);
}

#[test]
fn a_preserved_successor_refuses_other_changes() {
    let mut left = 1000;
    let changed_unselected = catalog(vec![
        descriptor("a", vec![partial(vec![2, 4, 5])], "x"),
        descriptor("b", vec![DeclaredSet::complete(vec![1, 7])], "y"),
    ]);
    assert_eq!(
        preserve(&policy(&["a"]), &before(), &changed_unselected, &mut left),
        Err(MembershipError::ChangedDeclaration)
    );
    let unchanged = before();
    assert_eq!(
        preserve(&policy(&["a"]), &before(), &unchanged, &mut left),
        Err(MembershipError::Refinement(RefinementProblem::NoAdditions))
    );
    let missing = catalog(vec![descriptor("a", vec![partial(vec![2, 4, 5])], "x")]);
    assert_eq!(
        preserve(&policy(&["a"]), &before(), &missing, &mut left),
        Err(MembershipError::Refinement(RefinementProblem::MissingSuccessor))
    );
    let scalar = catalog(vec![
        descriptor("a", vec![partial(vec![2, 4, 5])], "z"),
        descriptor("b", vec![DeclaredSet::complete(vec![1])], "y"),
    ]);
    assert_eq!(
        preserve(&policy(&["a"]), &before(), &scalar, &mut left),
        Err(MembershipError::Refinement(RefinementProblem::ChangedFields))
    );
    let grown = catalog(vec![
        descriptor("a", vec![partial(vec![2, 4, 5])], "x"),
        descriptor("b", vec![DeclaredSet::complete(vec![1])], "y"),
    ]);
    assert_eq!(
        preserve(&policy(&["a", "c"]), &before(), &grown, &mut left),
        Err(MembershipError::Refinement(RefinementProblem::ForeignOrAbsentSubject))
    );
    assert_eq!(
        preserve(&policy(&["a", "a"]), &before(), &grown, &mut left),
        Err(MembershipError::Refinement(RefinementProblem::DuplicateSubject))
    );
    let mut tiny = 1;
    assert_eq!(
        preserve(&policy(&["a"]), &before(), &grown, &mut tiny),
        Err(MembershipError::Limit)
    );
}

#[test]
fn current_subjects_need_a_nonempty_partial_facet() {
    let current = before();
    let ns = b"poe2/test".to_vec();
    let mut left = 1000;
    assert!(validate_current(&policy(&["a"]), &current, &ns, &mut left).is_ok());
    assert_eq!(
        validate_current(&policy(&["b"]), &current, &ns, &mut left),
        Err(MembershipError::Refinement(RefinementProblem::NotEligible))
    );
    assert_eq!(
        validate_current(&policy(&["c"]), &current, &ns, &mut left),
        Err(MembershipError::Refinement(RefinementProblem::UnknownSubject))
    );
    assert_eq!(
        validate_current(&policy(&["a"]), &current, &b"poe2/other".to_vec(), &mut left),
        Err(MembershipError::Refinement(RefinementProblem::ForeignSubject))
    );
}
