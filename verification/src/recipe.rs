//! Publication of owned recipe artifacts: fixed file names, shared output
//! accounting, SHA-256 manifests and the check that every schema address is
//! active in the supplied registry.
use crate::registry::{
    OwnedIdRegistry, OwnedMappingError, OwnedMappingLimits, SchemaSubject, SubjectView, active_target,
    mapping_limits_valid,
};
use sha2::Digest;
use vstd::prelude::*;

verus! {

pub const OWNED_RECIPE_VERSION: u32 = 1;

/// Bounds on a recipe's input and output bytes and its registry checks.
#[derive(Clone, Copy, Debug)]
pub struct OwnedRecipeLimits {
    pub max_wire_bytes: usize,
    pub max_output_bytes: usize,
    pub max_registry_checks: usize,
    pub registry: OwnedMappingLimits,
}

pub const RECIPE_MAX_WIRE_BYTES: usize = 64 * 1024 * 1024;
pub const RECIPE_MAX_OUTPUT_BYTES: usize = 64 * 1024 * 1024;
pub const RECIPE_MAX_REGISTRY_CHECKS: usize = 1_000_000;

impl Default for OwnedRecipeLimits {
    fn default() -> (r: Self)
        ensures
            r.max_wire_bytes == RECIPE_MAX_WIRE_BYTES,
            r.max_output_bytes == RECIPE_MAX_OUTPUT_BYTES,
            r.max_registry_checks == RECIPE_MAX_REGISTRY_CHECKS,
            mapping_limits_valid(r.registry),
    {
        OwnedRecipeLimits {
            max_wire_bytes: RECIPE_MAX_WIRE_BYTES,
            max_output_bytes: RECIPE_MAX_OUTPUT_BYTES,
            max_registry_checks: RECIPE_MAX_REGISTRY_CHECKS,
            registry: OwnedMappingLimits::default(),
        }
    }
}

#[derive(Debug)]
pub enum OwnedRecipeError {
    Version(u32),
    InvalidLimit(&'static str),
    Limit(&'static str),
    Namespace,
    Unregistered(SchemaSubject),
    Registry(OwnedMappingError),
}

/// Each recipe bound is positive and at most its default.
pub open spec fn recipe_limits_valid(l: OwnedRecipeLimits) -> bool {
    &&& 0 < l.max_wire_bytes <= RECIPE_MAX_WIRE_BYTES
    &&& 0 < l.max_output_bytes <= RECIPE_MAX_OUTPUT_BYTES
    &&& 0 < l.max_registry_checks <= RECIPE_MAX_REGISTRY_CHECKS
}

impl OwnedRecipeLimits {
    pub fn validate(self) -> (r: Result<(), OwnedRecipeError>)
        ensures
            r is Ok <==> recipe_limits_valid(self),
            r is Err ==> r matches Err(OwnedRecipeError::InvalidLimit(_)),
    {
        if self.max_wire_bytes == 0 || self.max_wire_bytes > RECIPE_MAX_WIRE_BYTES {
            return Err(OwnedRecipeError::InvalidLimit("input bytes"));
        }
        if self.max_output_bytes == 0 || self.max_output_bytes > RECIPE_MAX_OUTPUT_BYTES {
            return Err(OwnedRecipeError::InvalidLimit("output bytes"));
        }
        if self.max_registry_checks == 0 || self.max_registry_checks > RECIPE_MAX_REGISTRY_CHECKS {
            return Err(OwnedRecipeError::InvalidLimit("registry checks"));
        }
        Ok(())
    }
}

/// One published file: a fixed safe basename and its bytes.
#[derive(Debug)]
pub struct RecipeArtifact {
    name: &'static str,
    bytes: Vec<u8>,
}

impl RecipeArtifact {
    pub closed spec fn spec_name(self) -> &'static str {
        self.name
    }

    pub closed spec fn spec_bytes(self) -> Seq<u8> {
        self.bytes@
    }

    /// The file's basename.
    pub fn name(&self) -> (r: &'static str)
        ensures
            r == self.spec_name(),
    {
        self.name
    }

    /// The file's bytes.
    pub fn bytes(&self) -> (r: &[u8])
        ensures
            r@ == self.spec_bytes(),
    {
        self.bytes.as_slice()
    }
}

/// Total bytes of the artifacts.
pub open spec fn artifact_bytes(a: Seq<RecipeArtifact>) -> nat
    decreases a.len(),
{
    if a.len() == 0 {
        0
    } else {
        artifact_bytes(a.drop_last()) + a.last().spec_bytes().len()
    }
}

/// Retain one more artifact if the shared output budget allows it.
pub fn push_artifact(
    output: &mut Vec<RecipeArtifact>,
    used: &mut usize,
    maximum: usize,
    name: &'static str,
    bytes: Vec<u8>,
) -> (r: Result<(), OwnedRecipeError>)
    ensures
        r is Ok <==> *old(used) + bytes@.len() <= maximum,
        r is Ok ==> *final(used) == *old(used) + bytes@.len() && final(output)@.len() == old(output)@.len() + 1
            && final(output)@.drop_last() == old(output)@ && final(output)@.last().spec_name() == name
            && final(output)@.last().spec_bytes() == bytes@,
        r is Err ==> (r matches Err(OwnedRecipeError::Limit(_))) && final(output)@ == old(output)@,
{
    let total = match used.checked_add(bytes.len()) {
        Some(t) => t,
        None => {
            return Err(OwnedRecipeError::Limit("output bytes"));
        },
    };
    if total > maximum {
        return Err(OwnedRecipeError::Limit("output bytes"));
    }
    *used = total;
    let ghost before = output@;
    output.push(RecipeArtifact { name, bytes });
    assert(output@.drop_last() =~= before);
    Ok(())
}

// ---------------------------------------------------------------------------
// Manifest digests.

/// The SHA-256 digest of `data`.
pub uninterp spec fn sha256_of(data: Seq<u8>) -> Seq<u8>;

/// Calls `sha2::Sha256::digest`. Claims that the result is the SHA-256
/// digest of `data`, named `sha256_of`, and that it has 32 bytes, the output
/// size the crate declares for SHA-256.
#[verifier::external_body]
pub(crate) fn sha256_digest(data: &[u8]) -> (r: Vec<u8>)
    ensures
        r@ == sha256_of(data@),
        r@.len() == 32,
{
    sha2::Sha256::digest(data).to_vec()
}

pub open spec fn lower_hex_digit(d: u8) -> u8 {
    if d < 10 {
        (0x30 + d) as u8
    } else {
        (0x61 + d - 10) as u8
    }
}

/// Each byte as two lowercase hex digits, most significant first.
pub open spec fn hex_encode(s: Seq<u8>) -> Seq<u8>
    decreases s.len(),
{
    if s.len() == 0 {
        seq![]
    } else {
        hex_encode(s.drop_last()) + seq![lower_hex_digit(s.last() / 16), lower_hex_digit(s.last() % 16)]
    }
}

/// Lowercase hex rendering of bytes.
pub fn hex_lower(s: &[u8]) -> (r: Vec<u8>)
    ensures
        r@ == hex_encode(s@),
{
    let mut r: Vec<u8> = Vec::new();
    let mut k: usize = 0;
    while k < s.len()
        invariant
            k <= s@.len(),
            r@ == hex_encode(s@.take(k as int)),
        decreases s@.len() - k,
    {
        let b = s[k];
        let hi = b / 16;
        let lo = b % 16;
        let ghost before = r@;
        r.push(if hi < 10 {
            0x30u8 + hi
        } else {
            0x61u8 + (hi - 10)
        });
        r.push(if lo < 10 {
            0x30u8 + lo
        } else {
            0x61u8 + (lo - 10)
        });
        assert(s@.take(k + 1).drop_last() =~= s@.take(k as int));
        assert(r@ =~= before + seq![lower_hex_digit(b / 16), lower_hex_digit(b % 16)]);
        k = k + 1;
    }
    assert(s@.take(k as int) =~= s@);
    r
}

/// A manifest line for one artifact.
#[derive(Debug)]
pub struct RecipeArtifactManifest {
    pub file: &'static str,
    pub bytes: usize,
    pub sha256: Vec<u8>,
}

/// Describe an artifact: its name, size and lowercase hex SHA-256 digest.
pub fn describe_artifact(artifact: &RecipeArtifact) -> (r: RecipeArtifactManifest)
    ensures
        r.file == artifact.spec_name(),
        r.bytes == artifact.spec_bytes().len(),
        r.sha256@ == hex_encode(sha256_of(artifact.spec_bytes())),
{
    let digest = sha256_digest(artifact.bytes.as_slice());
    RecipeArtifactManifest { file: artifact.name, bytes: artifact.bytes.len(), sha256: hex_lower(digest.as_slice()) }
}

/// Describe every artifact, in order.
pub fn describe_artifacts(artifacts: &Vec<RecipeArtifact>) -> (r: Vec<RecipeArtifactManifest>)
    ensures
        r@.len() == artifacts@.len(),
        forall|i: int|
            0 <= i < r@.len() ==> {
                &&& #[trigger] r@[i].file == artifacts@[i].spec_name()
                &&& r@[i].bytes == artifacts@[i].spec_bytes().len()
                &&& r@[i].sha256@ == hex_encode(sha256_of(artifacts@[i].spec_bytes()))
            },
{
    let mut r: Vec<RecipeArtifactManifest> = Vec::new();
    let mut k: usize = 0;
    while k < artifacts.len()
        invariant
            k <= artifacts@.len(),
            r@.len() == k,
            forall|i: int|
                0 <= i < k ==> {
                    &&& #[trigger] r@[i].file == artifacts@[i].spec_name()
                    &&& r@[i].bytes == artifacts@[i].spec_bytes().len()
                    &&& r@[i].sha256@ == hex_encode(sha256_of(artifacts@[i].spec_bytes()))
                },
        decreases artifacts@.len() - k,
    {
        r.push(describe_artifact(&artifacts[k]));
        k = k + 1;
    }
    r
}

// ---------------------------------------------------------------------------
// Registry coverage of a schema.

/// Every listed schema address is active in the registry.
pub fn check_registered(
    registry: &OwnedIdRegistry,
    namespace: &[u8],
    subjects: &Vec<SchemaSubject>,
    limits: OwnedRecipeLimits,
) -> (r: Result<(), OwnedRecipeError>)
    ensures
        r is Ok <==> {
            &&& registry@.namespace == namespace@
            &&& subjects@.len() <= limits.max_registry_checks
            &&& forall|i: int| 0 <= i < subjects@.len() ==> active_target(registry@, #[trigger] subjects@[i]@)
        },
        registry@.namespace != namespace@ ==> r matches Err(OwnedRecipeError::Namespace),
        r matches Err(OwnedRecipeError::Unregistered(s)) ==> exists|i: int|
            0 <= i < subjects@.len() && s@ == #[trigger] subjects@[i]@,
{
    if !crate::text::bytes_eq(registry.input().namespace.as_slice(), namespace) {
        return Err(OwnedRecipeError::Namespace);
    }
    if subjects.len() > limits.max_registry_checks {
        return Err(OwnedRecipeError::Limit("registry checks"));
    }
    let mut k: usize = 0;
    while k < subjects.len()
        invariant
            k <= subjects@.len(),
            registry@.namespace == namespace@,
            forall|i: int| 0 <= i < k ==> active_target(registry@, #[trigger] subjects@[i]@),
        decreases subjects@.len() - k,
    {
        let active = match registry.entry(&subjects[k]) {
            Some(e) => match e.state {
                crate::registry::RegistryState::Active => true,
                _ => false,
            },
            None => false,
        };
        if !active {
            return Err(OwnedRecipeError::Unregistered(subjects[k].duplicate()));
        }
        k = k + 1;
    }
    Ok(())
}

} // verus!
