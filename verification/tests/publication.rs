use poe_optimizer_import::provenance::{
    has_control_exec, is_blank_exec, sha256_hex_ok_exec, source_path_ok_exec, ExternalSourceSystem,
    SourceFilePin, SourcePin,
};
use poe_optimizer_import::recipe::{
    check_registered, describe_artifacts, hex_lower, push_artifact, OwnedRecipeError,
    OwnedRecipeLimits,
};
use poe_optimizer_import::registry::{
    DefinitionAddress, DefinitionDomain, OwnedIdRegistry, OwnedMappingLimits, SchemaSubject,
};
use poe_optimizer_import::release::{
    check_query_set_names, describe_release_artifact, source_union, OwnedReleaseError,
};

const EMPTY_SHA256: &[u8] = b"e3b0c44298fc1c149afbf4c8996fb92427ae41e4649b934ca495991b7852b855";
const ABC_SHA256: &[u8] = b"ba7816bf8f01cfea414140de5dae2223b00361a396177a9cb410ff61f20015ad";

#[test]
fn hex_rendering_is_lowercase_and_two_digits_per_byte() {
    assert_eq!(hex_lower(&[0x00, 0x0f, 0xab, 0xff]), b"000fabff".to_vec());
    assert_eq!(hex_lower(&[]), Vec::<u8>::new());
}

#[test]
fn release_manifests_carry_size_and_sha256() {
    let m = describe_release_artifact(b"schema.json", b"abc");
    assert_eq!(m.file, b"schema.json".to_vec());
    assert_eq!(m.bytes, 3);
    assert_eq!(m.sha256, ABC_SHA256.to_vec());
    let e = describe_release_artifact(b"empty.json", b"");
    assert_eq!(e.sha256, EMPTY_SHA256.to_vec());
}

#[test]
fn artifacts_share_one_output_budget() {
    let mut output = Vec::new();
    let mut used = 0usize;
    push_artifact(&mut output, &mut used, 5, "a.json", b"abc".to_vec()).unwrap();
    assert_eq!(used, 3);
    assert!(matches!(
        push_artifact(&mut output, &mut used, 5, "b.json", b"xyz".to_vec()),
        Err(OwnedRecipeError::Limit(_))
    ));
    assert_eq!(used, 3);
    push_artifact(&mut output, &mut used, 5, "c.json", b"".to_vec()).unwrap();
    assert_eq!(output.len(), 2);
    assert_eq!(output[1].name(), "c.json");
    let manifests = describe_artifacts(&output);
    assert_eq!(manifests[0].file, "a.json");
    assert_eq!(manifests[0].bytes, 3);
    assert_eq!(manifests[0].sha256, ABC_SHA256.to_vec());
    assert_eq!(manifests[1].sha256, EMPTY_SHA256.to_vec());
}

#[test]
fn recipe_limits_are_bounded() {
    assert!(OwnedRecipeLimits::default().validate().is_ok());
    let mut l = OwnedRecipeLimits::default();
    l.max_registry_checks = 0;
    assert!(matches!(l.validate(), Err(OwnedRecipeError::InvalidLimit(_))));
}

#[test]
fn every_schema_address_must_be_registered_and_active() {
    let mut registry =
        OwnedIdRegistry::empty(b"poe2/test".to_vec(), OwnedMappingLimits::default()).unwrap();
    let stat = registry.allocate_definition(DefinitionDomain::Stat).unwrap();
    let subjects = vec![SchemaSubject::Definition(stat.clone())];
    assert!(check_registered(&registry, b"poe2/test", &subjects, OwnedRecipeLimits::default()).is_ok());
    assert!(matches!(
        check_registered(&registry, b"poe2/other", &subjects, OwnedRecipeLimits::default()),
        Err(OwnedRecipeError::Namespace)
    ));
    let missing = vec![SchemaSubject::Definition(DefinitionAddress {
        domain: DefinitionDomain::Stat,
        namespace: b"poe2/test".to_vec(),
        key: b"def.0000000000000002".to_vec(),
    })];
    assert!(matches!(
        check_registered(&registry, b"poe2/test", &missing, OwnedRecipeLimits::default()),
        Err(OwnedRecipeError::Unregistered(_))
    ));
    registry
        .retire(&SchemaSubject::Definition(stat), b"old".to_vec())
        .unwrap();
    assert!(matches!(
        check_registered(&registry, b"poe2/test", &subjects, OwnedRecipeLimits::default()),
        Err(OwnedRecipeError::Unregistered(_))
    ));
}

#[test]
fn source_paths_are_relative_and_clean() {
    assert!(source_path_ok_exec(b"src/Data/Skills.lua"));
    assert!(!source_path_ok_exec(b""));
    assert!(!source_path_ok_exec(b"src//x.lua"));
    assert!(!source_path_ok_exec(b"src/../x.lua"));
    assert!(!source_path_ok_exec(b"./x.lua"));
    assert!(!source_path_ok_exec(b"x/"));
    assert!(!source_path_ok_exec(b"C:/x.lua"));
    assert!(!source_path_ok_exec(b"src\\x.lua"));
    assert!(!source_path_ok_exec(b"src/x\n.lua"));
}

#[test]
fn text_checks_read_utf8_bytes() {
    assert!(has_control_exec(b"a\tb"));
    assert!(has_control_exec("a\u{85}b".as_bytes()));
    assert!(!has_control_exec("caf\u{e9}".as_bytes()));
    assert!(is_blank_exec(b""));
    assert!(is_blank_exec(" \t\r\n".as_bytes()));
    assert!(is_blank_exec("\u{a0}\u{3000}".as_bytes()));
    assert!(!is_blank_exec(b" x "));
    assert!(sha256_hex_ok_exec(EMPTY_SHA256));
    assert!(!sha256_hex_ok_exec(&EMPTY_SHA256[1..]));
    assert!(!sha256_hex_ok_exec(b"E3B0C44298FC1C149AFBF4C8996FB92427AE41E4649B934CA495991B7852B855"));
}

#[test]
fn query_set_names_are_lowercase_and_distinct() {
    assert!(check_query_set_names(&vec![b"main".to_vec(), b"alt_2-b".to_vec()]).is_ok());
    assert!(matches!(
        check_query_set_names(&vec![b"Main".to_vec()]),
        Err(OwnedReleaseError::QuerySetName)
    ));
    assert!(check_query_set_names(&vec![b"".to_vec()]).is_err());
    assert!(check_query_set_names(&vec![vec![b'a'; 65]]).is_err());
    assert!(check_query_set_names(&vec![b"a".to_vec(), b"a".to_vec()]).is_err());
}

fn file(path: &str, digit: u8) -> SourceFilePin {
    SourceFilePin { path: path.as_bytes().to_vec(), sha256: vec![digit; 64] }
}

fn pin(revision: &str, files: Vec<SourceFilePin>) -> SourcePin {
    SourcePin {
        system: ExternalSourceSystem::PathOfBuilding2,
        revision: revision.as_bytes().to_vec(),
        files,
    }
}

#[test]
fn source_union_lists_each_path_once_in_order() {
    let root = pin("r1", vec![file("b.lua", b'1'), file("a.lua", b'2')]);
    let others = vec![pin("r1", vec![file("c.lua", b'3'), file("a.lua", b'2')])];
    let u = source_union(&root, &others).unwrap();
    let paths: Vec<Vec<u8>> = u.files.iter().map(|f| f.path.clone()).collect();
    assert_eq!(paths, vec![b"a.lua".to_vec(), b"b.lua".to_vec(), b"c.lua".to_vec()]);
    assert_eq!(u.revision, b"r1".to_vec());
}

#[test]
fn source_union_refuses_conflicts() {
    let root = pin("r1", vec![file("a.lua", b'1')]);
    assert!(matches!(
        source_union(&root, &vec![pin("r2", vec![])]),
        Err(OwnedReleaseError::Invalid(_))
    ));
    assert!(matches!(
        source_union(&root, &vec![pin("r1", vec![file("a.lua", b'2')])]),
        Err(OwnedReleaseError::Invalid(_))
    ));
    let mut other = pin("r1", vec![]);
    other.system = ExternalSourceSystem::PathOfBuilding1;
    assert!(source_union(&root, &vec![other]).is_err());
}
