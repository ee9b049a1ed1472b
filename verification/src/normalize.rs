//! Normalization pieces that stand on their own: validation of action query
//! targets, gem parameter inputs, and the exact source-line provenance of
//! converted item text.
use crate::item_lines::aggregate::{ItemTextConversion, ItemTextIssue, LocatedItemModifier};
use crate::item_lines::convert::ItemLineOutcome;
use crate::item_lines::ParameterValue;
use crate::provenance::{sha256_hex_ok, sha256_hex_ok_exec};
use crate::registry::{AddressView, DefinitionAddress, SlotAddress, SlotAddressView};
use crate::text::bytes_eq;
use vstd::prelude::*;

verus! {

/// Ordinal in the exact collected source snapshot. The expected gem
/// identity guards against accidental selection.
#[derive(Debug)]
pub struct ImportSkillUseLocator {
    pub source_sha256: Vec<u8>,
    pub occurrence_ordinal: u32,
    pub expected_gem: DefinitionAddress,
}

#[derive(Debug)]
pub struct ImportProviderTarget {
    pub skill_use: ImportSkillUseLocator,
    pub grant_path: Vec<SlotAddress>,
}

#[derive(Debug)]
pub enum ImportActorTarget {
    Player,
    Owned { provider: Box<ImportProviderTarget>, slot: SlotAddress },
}

#[derive(Debug)]
pub struct ImportActionTarget {
    pub provider: ImportProviderTarget,
    pub actor: ImportActorTarget,
    pub output: SlotAddress,
    pub part: DefinitionAddress,
    pub mode: DefinitionAddress,
    pub stat_set: DefinitionAddress,
}

/// Bounds of standalone query target validation.
#[derive(Clone, Copy, Debug)]
pub struct QueryTargetLimits {
    pub max_work: usize,
    pub max_provider_steps: usize,
    pub max_collection_entries: usize,
}

#[derive(Debug)]
pub enum NormalizationError {
    Limit(&'static str),
    Policy(&'static str),
}

/// A declared slot and its declaring definition lie in `ns`.
pub open spec fn slot_in(s: SlotAddressView, ns: Seq<u8>) -> bool {
    s.declaration.namespace == ns && s.namespace == ns
}

pub open spec fn provider_ok(p: ImportProviderTarget, ns: Seq<u8>, limits: QueryTargetLimits) -> bool {
    &&& sha256_hex_ok(p.skill_use.source_sha256@)
    &&& p.skill_use.expected_gem@.namespace == ns
    &&& p.grant_path@.len() <= limits.max_provider_steps
    &&& p.grant_path@.len() <= limits.max_collection_entries
    &&& forall|i: int| 0 <= i < p.grant_path@.len() ==> slot_in(#[trigger] p.grant_path@[i]@, ns)
}

pub open spec fn provider_work(p: ImportProviderTarget) -> int {
    (p.skill_use.source_sha256@.len() + 1 + p.grant_path@.len()) as int
}

/// The namespace every part of an action target must share: its gem's.
pub open spec fn target_namespace(t: ImportActionTarget) -> Seq<u8> {
    t.provider.skill_use.expected_gem@.namespace
}

pub open spec fn action_ok(t: ImportActionTarget, expected: Option<Seq<u8>>, limits: QueryTargetLimits) -> bool {
    let ns = target_namespace(t);
    &&& (expected matches Some(e) ==> ns == e)
    &&& provider_ok(t.provider, ns, limits)
    &&& (t.actor matches ImportActorTarget::Owned { provider, slot } ==> provider_ok(*provider, ns, limits)
        && slot_in(slot@, ns))
    &&& slot_in(t.output@, ns)
    &&& t.part@.namespace == ns
    &&& t.mode@.namespace == ns
    &&& t.stat_set@.namespace == ns
}

pub open spec fn action_work(t: ImportActionTarget) -> int {
    1 + provider_work(t.provider) + match t.actor {
        ImportActorTarget::Owned { provider, .. } => provider_work(*provider) + 1,
        ImportActorTarget::Player => 0,
    } + 1 + 3
}

pub open spec fn targets_work(ts: Seq<ImportActionTarget>, n: int) -> int
    decreases n,
{
    if n <= 0 {
        0
    } else {
        targets_work(ts, n - 1) + action_work(ts[n - 1])
    }
}

struct Budget {
    used: usize,
    maximum: usize,
}

impl Budget {
    fn charge(&mut self, count: usize) -> (r: Result<(), NormalizationError>)
        requires
            old(self).used <= old(self).maximum,
        ensures
            final(self).maximum == old(self).maximum,
            final(self).used <= final(self).maximum,
            r is Ok <==> old(self).used + count <= old(self).maximum,
            r is Ok ==> final(self).used == old(self).used + count,
            r is Err ==> r matches Err(NormalizationError::Limit(_)),
    {
        if count > self.maximum - self.used {
            return Err(NormalizationError::Limit("query target work"));
        }
        self.used = self.used + count;
        Ok(())
    }
}

fn check_namespace(actual: &Vec<u8>, expected: &Vec<u8>) -> (r: Result<(), NormalizationError>)
    ensures
        r is Ok <==> actual@ == expected@,
        r is Err ==> r matches Err(NormalizationError::Policy(_)),
{
    if !bytes_eq(actual.as_slice(), expected.as_slice()) {
        return Err(NormalizationError::Policy("query target namespace"));
    }
    Ok(())
}

fn check_slot(value: &SlotAddress, expected: &Vec<u8>, budget: &mut Budget) -> (r: Result<(), NormalizationError>)
    requires
        old(budget).used <= old(budget).maximum,
    ensures
        final(budget).maximum == old(budget).maximum,
        final(budget).used <= final(budget).maximum,
        r is Ok <==> old(budget).used + 1 <= old(budget).maximum && slot_in(value@, expected@),
        r is Ok ==> final(budget).used == old(budget).used + 1,
        r is Err ==> (r matches Err(NormalizationError::Limit(_)) || r matches Err(NormalizationError::Policy(_))),
{
    budget.charge(1)?;
    check_namespace(&value.declaration.namespace, expected)?;
    check_namespace(&value.namespace, expected)
}

#[verifier::loop_isolation(false)]
fn check_provider(
    value: &ImportProviderTarget,
    expected: &Vec<u8>,
    limits: QueryTargetLimits,
    budget: &mut Budget,
) -> (r: Result<(), NormalizationError>)
    requires
        old(budget).used <= old(budget).maximum,
    ensures
        final(budget).maximum == old(budget).maximum,
        final(budget).used <= final(budget).maximum,
        r is Ok <==> old(budget).used + provider_work(*value) <= old(budget).maximum && provider_ok(
            *value,
            expected@,
            limits,
        ),
        r is Ok ==> final(budget).used == old(budget).used + provider_work(*value),
        r is Err ==> (r matches Err(NormalizationError::Limit(_)) || r matches Err(NormalizationError::Policy(_))),
{
    let ghost start = budget.used;
    let locator = &value.skill_use;
    budget.charge(locator.source_sha256.len().saturating_add(1))?;
    if !sha256_hex_ok_exec(locator.source_sha256.as_slice()) {
        return Err(NormalizationError::Policy("query target source SHA-256"));
    }
    check_namespace(&locator.expected_gem.namespace, expected)?;
    if value.grant_path.len() > limits.max_provider_steps || value.grant_path.len() > limits.max_collection_entries {
        return Err(NormalizationError::Limit("query target provider path"));
    }
    let mut i: usize = 0;
    while i < value.grant_path.len()
        invariant
            i <= value.grant_path@.len(),
            budget.maximum == old(budget).maximum,
            budget.used <= budget.maximum,
            budget.used == start + locator.source_sha256@.len() + 1 + i,
            forall|q: int| 0 <= q < i ==> slot_in(#[trigger] value.grant_path@[q]@, expected@),
        decreases value.grant_path@.len() - i,
    {
        let ghost before = budget.used;
        match check_slot(&value.grant_path[i], expected, budget) {
            Ok(()) => {},
            Err(e) => {
                assert(before + 1 > budget.maximum || !slot_in(value.grant_path@[i as int]@, expected@));
                return Err(e);
            },
        }
        i = i + 1;
    }
    Ok(())
}

/// Check the action query targets: every part of a target lies in its gem's
/// namespace (and in `expected`, when given), locators name a SHA-256 source
/// snapshot, provider paths are bounded, and the work stays within bounds.
/// Returns the work used.
#[verifier::loop_isolation(false)]
pub fn validate_action_targets(
    targets: &Vec<ImportActionTarget>,
    expected: Option<&Vec<u8>>,
    limits: QueryTargetLimits,
) -> (r: Result<usize, NormalizationError>)
    ensures
        r is Ok <==> (forall|i: int|
            0 <= i < targets@.len() ==> action_ok(
                #[trigger] targets@[i],
                match expected {
                    Some(e) => Some(e@),
                    None => None,
                },
                limits,
            )) && targets_work(targets@, targets@.len() as int) <= limits.max_work,
        r matches Ok(used) ==> used == targets_work(targets@, targets@.len() as int),
{
    let ghost ev = match expected {
        Some(e) => Some(e@),
        None => None::<Seq<u8>>,
    };
    let mut budget = Budget { used: 0, maximum: limits.max_work };
    let mut k: usize = 0;
    while k < targets.len()
        invariant
            k <= targets@.len(),
            budget.maximum == limits.max_work,
            budget.used <= budget.maximum,
            budget.used == targets_work(targets@, k as int),
            forall|i: int| 0 <= i < k ==> action_ok(#[trigger] targets@[i], ev, limits),
        decreases targets@.len() - k,
    {
        proof {
            lemma_targets_work_mono(targets@, k + 1, targets@.len() as int);
        }
        let t = &targets[k];
        budget.charge(1)?;
        let own = &t.provider.skill_use.expected_gem.namespace;
        if let Some(e) = expected {
            check_namespace(own, e)?;
        }
        check_provider(&t.provider, own, limits, &mut budget)?;
        if let ImportActorTarget::Owned { provider, slot } = &t.actor {
            check_provider(provider, own, limits, &mut budget)?;
            check_slot(slot, own, &mut budget)?;
        }
        check_slot(&t.output, own, &mut budget)?;
        budget.charge(1)?;
        check_namespace(&t.part.namespace, own)?;
        budget.charge(1)?;
        check_namespace(&t.mode.namespace, own)?;
        budget.charge(1)?;
        check_namespace(&t.stat_set.namespace, own)?;
        assert(action_ok(targets@[k as int], ev, limits));
        k = k + 1;
    }
    Ok(budget.used)
}

proof fn lemma_targets_work_mono(ts: Seq<ImportActionTarget>, m: int, n: int)
    requires
        0 <= m <= n,
    ensures
        0 <= targets_work(ts, m) <= targets_work(ts, n),
    decreases n,
{
    if m < n {
        lemma_targets_work_mono(ts, m, n - 1);
    } else if n > 0 {
        lemma_targets_work_mono(ts, n - 1, n - 1);
    }
}

/// A gem parameter slot with the literal value its reviewed recipe gives it.
#[derive(Debug)]
pub struct GemParameterInput {
    pub slot: SlotAddress,
    pub value: ParameterValue,
}

/// A converted physical item line with the modifiers it declared.
#[derive(Debug)]
pub struct NormalizedItemLine {
    pub index: usize,
    pub text: Vec<u8>,
    pub outcome: ItemLineOutcome,
    pub modifiers: Vec<u64>,
}

/// The converted text of one source item.
#[derive(Debug)]
pub struct NormalizedItemText {
    /// Ordinal of the source occurrence.
    pub source: u64,
    /// Index in the consumed source content, not an XML byte offset.
    pub content_entry: Option<usize>,
    pub skipped: Option<Vec<u8>>,
    pub lines: Vec<NormalizedItemLine>,
    pub issues: Vec<ItemTextIssue>,
}


/// An accepted action target keeps its output slot, part, mode and stat set
/// in its gem's namespace, and matches the expected namespace when one is
/// given.
pub proof fn law_action_target_in_gem_namespace(
    t: ImportActionTarget,
    expected: Option<Seq<u8>>,
    limits: QueryTargetLimits,
)
    ensures
        action_ok(t, expected, limits) ==> {
            let ns = t.provider.skill_use.expected_gem@.namespace;
            &&& t.part@.namespace == ns
            &&& t.mode@.namespace == ns
            &&& t.stat_set@.namespace == ns
            &&& slot_in(t.output@, ns)
            &&& (expected matches Some(e) ==> ns == e)
        },
{
}

} // verus!
