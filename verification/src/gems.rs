//! Exact, offline gem schema knowledge migration: the checks a migration
//! policy must pass on its own, and the bounded index of a gem's declared
//! parameter slots.
use crate::registry::{DefinitionAddress, SlotAddress, SlotAddressView};
use crate::text::copy_bytes;
use vstd::prelude::*;

verus! {

/// The only gem migration policy version.
pub const GEM_SCHEMA_REFINEMENT_VERSION: u32 = 4;

/// Why a successor bundle was refused.
#[derive(Debug)]
pub enum SuccessorBundleError {
    /// A validation budget, named, ran out.
    Limit(&'static str),
    /// A refinement policy was refused, with the reason.
    Refinement(&'static str),
}

/// Charge `count` units against `left`.
pub fn charge(left: &mut usize, count: usize, name: &'static str) -> (r: Result<(), SuccessorBundleError>)
    ensures
        count <= *old(left) ==> r is Ok && *final(left) == *old(left) - count,
        count > *old(left) ==> (r matches Err(SuccessorBundleError::Limit(n)) && n == name) && *final(left)
            == *old(left),
{
    if count <= *left {
        *left = *left - count;
        Ok(())
    } else {
        Err(SuccessorBundleError::Limit(name))
    }
}

impl SlotAddress {
    pub fn duplicate(&self) -> (r: SlotAddress)
        ensures
            r@ == self@,
    {
        SlotAddress {
            declaration: self.declaration.duplicate(),
            domain: self.domain,
            namespace: copy_bytes(self.namespace.as_slice()),
            key: copy_bytes(self.key.as_slice()),
        }
    }

    pub fn same(&self, other: &SlotAddress) -> (r: bool)
        ensures
            r == (self@ == other@),
    {
        self.declaration.same(&other.declaration) && self.domain == other.domain && crate::text::bytes_eq(
            self.namespace.as_slice(),
            other.namespace.as_slice(),
        ) && crate::text::bytes_eq(self.key.as_slice(), other.key.as_slice())
    }
}

pub open spec fn slots_view(s: Seq<SlotAddress>) -> Seq<SlotAddressView> {
    s.map_values(|x: SlotAddress| x@)
}

/// Index a gem's declared parameter slots. The whole supplied list is charged
/// before the index is built, so repeated members still cost their work.
pub fn index_parameters(members: &[SlotAddress], left: &mut usize) -> (r: Result<Vec<SlotAddress>, SuccessorBundleError>)
    ensures
        members@.len() > *old(left) ==> r is Err && *final(left) == *old(left),
        members@.len() <= *old(left) ==> r is Ok && *final(left) == *old(left) - members@.len(),
        r matches Err(e) ==> e == SuccessorBundleError::Limit("gem migration parameter memberships"),
        r matches Ok(index) ==> {
            &&& forall|a: int, b: int| 0 <= a < b < index@.len() ==> index@[a]@ != index@[b]@
            &&& forall|i: int| 0 <= i < members@.len() ==> slots_view(index@).contains(#[trigger] members@[i]@)
            &&& forall|i: int| 0 <= i < index@.len() ==> slots_view(members@).contains(#[trigger] index@[i]@)
        },
{
    charge(left, members.len(), "gem migration parameter memberships")?;
    let mut index: Vec<SlotAddress> = Vec::new();
    let mut i: usize = 0;
    while i < members.len()
        invariant
            i <= members@.len(),
            forall|a: int, b: int| 0 <= a < b < index@.len() ==> index@[a]@ != index@[b]@,
            forall|q: int| 0 <= q < i ==> slots_view(index@).contains(#[trigger] members@[q]@),
            forall|q: int| 0 <= q < index@.len() ==> slots_view(members@).contains(#[trigger] index@[q]@),
        decreases members@.len() - i,
    {
        let mut found = false;
        let mut k: usize = 0;
        while k < index.len()
            invariant
                k <= index@.len(),
                i < members@.len(),
                found ==> slots_view(index@).contains(members@[i as int]@),
                !found ==> forall|q: int| 0 <= q < k ==> index@[q]@ != members@[i as int]@,
            decreases index@.len() - k,
        {
            if !found && index[k].same(&members[i]) {
                found = true;
                assert(slots_view(index@)[k as int] == members@[i as int]@);
            }
            k = k + 1;
        }
        if !found {
            let ghost before = index@;
            index.push(members[i].duplicate());
            proof {
                assert(slots_view(index@) =~= slots_view(before).push(members@[i as int]@));
                assert(slots_view(members@)[i as int] == members@[i as int]@);
                assert forall|q: int| 0 <= q < i + 1 implies slots_view(index@).contains(#[trigger] members@[q]@) by {
                    if q < i {
                        let w = choose|w: int| 0 <= w < slots_view(before).len() && slots_view(before)[w] == members@[q]@;
                        assert(slots_view(index@)[w] == members@[q]@);
                    } else {
                        assert(slots_view(index@)[before.len() as int] == members@[q]@);
                    }
                }
            }
        }
        i = i + 1;
    }
    Ok(index)
}


/// Strict lexicographic order of byte strings from position `i` on, the
/// first `i` bytes being equal.
pub open spec fn lex_lt_from(a: Seq<u8>, b: Seq<u8>, i: int) -> bool
    decreases a.len() - i,
{
    if i < 0 || i >= a.len() {
        i >= 0 && i < b.len()
    } else if i >= b.len() {
        false
    } else if a[i] != b[i] {
        a[i] < b[i]
    } else {
        lex_lt_from(a, b, i + 1)
    }
}

/// `a` sorts strictly before `b`, bytewise.
pub open spec fn lex_lt(a: Seq<u8>, b: Seq<u8>) -> bool {
    lex_lt_from(a, b, 0)
}

pub fn lex_less(a: &[u8], b: &[u8]) -> (r: bool)
    ensures
        r == lex_lt(a@, b@),
{
    let mut i: usize = 0;
    while i < a.len() && i < b.len() && a[i] == b[i]
        invariant
            i <= a@.len(),
            i <= b@.len(),
            lex_lt(a@, b@) == lex_lt_from(a@, b@, i as int),
        decreases a@.len() - i,
    {
        i = i + 1;
    }
    if i >= a.len() {
        i < b.len()
    } else if i >= b.len() {
        false
    } else {
        a[i] < b[i]
    }
}

/// Canonical order of definition identifiers: by namespace, then key.
pub open spec fn address_lt(a: crate::registry::AddressView, b: crate::registry::AddressView) -> bool {
    lex_lt(a.namespace, b.namespace) || (a.namespace == b.namespace && lex_lt(a.key, b.key))
}

/// A gem migration policy: the gems whose unmapped schemas become known and
/// the new parameter slots they declare, between two schema identities.
#[derive(Debug)]
pub struct GemSchemaRefinement {
    pub schema_version: u32,
    pub before: Vec<u8>,
    pub after: Vec<u8>,
    pub prior_mapping: Vec<u8>,
    pub prior_roles: Vec<u8>,
    pub gems: Vec<DefinitionAddress>,
    pub parameters: Vec<SlotAddress>,
}

/// The policy's endpoints differ, its version is current and it lists a gem.
pub open spec fn endpoints_ok(p: GemSchemaRefinement) -> bool {
    p.schema_version == GEM_SCHEMA_REFINEMENT_VERSION && p.before@ != p.after@ && p.gems@.len() > 0
}

/// Gems are strictly increasing in canonical order, and so are parameter keys.
pub open spec fn canonical(p: GemSchemaRefinement) -> bool {
    &&& forall|i: int| 0 <= i < p.gems@.len() - 1 ==> address_lt(#[trigger] p.gems@[i]@, p.gems@[i + 1]@)
    &&& forall|i: int|
        0 <= i < p.parameters@.len() - 1 ==> lex_lt(#[trigger] p.parameters@[i]@.key, p.parameters@[i + 1]@.key)
}

/// Check a policy's endpoints and canonical order, and list its gems.
pub fn selected(policy: &GemSchemaRefinement) -> (r: Result<Vec<DefinitionAddress>, SuccessorBundleError>)
    ensures
        r is Ok <==> endpoints_ok(*policy) && canonical(*policy),
        r matches Ok(gems) ==> gems@.len() == policy.gems@.len() && forall|i: int|
            0 <= i < gems@.len() ==> #[trigger] gems@[i]@ == policy.gems@[i]@,
        r is Err ==> r matches Err(SuccessorBundleError::Refinement(_)),
{
    if policy.schema_version != GEM_SCHEMA_REFINEMENT_VERSION || crate::text::bytes_eq(
        policy.before.as_slice(),
        policy.after.as_slice(),
    ) || policy.gems.len() == 0 {
        return Err(SuccessorBundleError::Refinement("invalid gem migration endpoints or version"));
    }
    let mut i: usize = 0;
    while i < policy.gems.len() - 1
        invariant
            policy.gems@.len() > 0,
            i + 1 <= policy.gems@.len(),
            forall|q: int| 0 <= q < i ==> address_lt(#[trigger] policy.gems@[q]@, policy.gems@[q + 1]@),
        decreases policy.gems@.len() - i,
    {
        let a = &policy.gems[i];
        let b = &policy.gems[i + 1];
        let less = lex_less(a.namespace.as_slice(), b.namespace.as_slice()) || (crate::text::bytes_eq(
            a.namespace.as_slice(),
            b.namespace.as_slice(),
        ) && lex_less(a.key.as_slice(), b.key.as_slice()));
        if !less {
            assert(!address_lt(policy.gems@[i as int]@, policy.gems@[i + 1]@));
            return Err(SuccessorBundleError::Refinement("gem migration subjects need unique canonical order"));
        }
        i = i + 1;
    }
    let mut j: usize = 0;
    while j < policy.parameters.len() && j + 1 < policy.parameters.len()
        invariant
            j <= policy.parameters@.len(),
            forall|q: int| 0 <= q < policy.gems@.len() - 1 ==> address_lt(#[trigger] policy.gems@[q]@, policy.gems@[q + 1]@),
            forall|q: int| 0 <= q < j ==> lex_lt(#[trigger] policy.parameters@[q]@.key, policy.parameters@[q + 1]@.key),
        decreases policy.parameters@.len() - j,
    {
        if !lex_less(policy.parameters[j].key.as_slice(), policy.parameters[j + 1].key.as_slice()) {
            assert(!lex_lt(policy.parameters@[j as int]@.key, policy.parameters@[j + 1]@.key));
            return Err(SuccessorBundleError::Refinement("gem migration subjects need unique canonical order"));
        }
        j = j + 1;
    }
    let mut gems: Vec<DefinitionAddress> = Vec::new();
    let mut k: usize = 0;
    while k < policy.gems.len()
        invariant
            k <= policy.gems@.len(),
            gems@.len() == k,
            forall|q: int| 0 <= q < k ==> #[trigger] gems@[q]@ == policy.gems@[q]@,
        decreases policy.gems@.len() - k,
    {
        gems.push(policy.gems[k].duplicate());
        k = k + 1;
    }
    Ok(gems)
}

} // verus!
