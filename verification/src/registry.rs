//! Offline owned-ID allocation history. Every allocation issues the next
//! sequence number and the key `def.` followed by its sixteen lowercase hex
//! digits; retirement keeps a tombstone. Hosts persist edits only after
//! checking that the new snapshot is a successor of the stored one.
use crate::text::{bytes_eq, copy_bytes};
use vstd::prelude::*;

verus! {

/// The only registry schema version this library reads or writes.
pub const OWNED_ID_REGISTRY_VERSION: u32 = 1;

/// Largest magnitude of a bounded integer counter.
pub const BOUNDED_INTEGER_MAX: i64 = 9_007_199_254_740_991;

/// Per-artifact bounds.
#[derive(Clone, Copy, Debug, PartialEq, Eq, Structural)]
pub struct OwnedMappingLimits {
    pub max_entries: usize,
    pub max_collection_entries: usize,
    pub max_candidates: usize,
    pub max_string_bytes: usize,
    pub max_total_string_bytes: usize,
    pub max_wire_bytes: usize,
}

/// Every bound is positive and under its ceiling.
pub open spec fn mapping_limits_valid(l: OwnedMappingLimits) -> bool {
    &&& 0 < l.max_entries <= 4_000_000
    &&& 0 < l.max_collection_entries <= 1_000_000
    &&& 0 < l.max_candidates <= 4096
    &&& 0 < l.max_string_bytes <= 64 * 1024
    &&& 0 < l.max_total_string_bytes <= 64 * 1024 * 1024
    &&& 0 < l.max_wire_bytes <= 64 * 1024 * 1024
}

impl Default for OwnedMappingLimits {
    fn default() -> (r: Self)
        ensures
            r.max_entries == 1_000_000,
            r.max_collection_entries == 100_000,
            r.max_candidates == 64,
            r.max_string_bytes == 16 * 1024,
            r.max_total_string_bytes == 16 * 1024 * 1024,
            r.max_wire_bytes == 16 * 1024 * 1024,
    {
        OwnedMappingLimits {
            max_entries: 1_000_000,
            max_collection_entries: 100_000,
            max_candidates: 64,
            max_string_bytes: 16 * 1024,
            max_total_string_bytes: 16 * 1024 * 1024,
            max_wire_bytes: 16 * 1024 * 1024,
        }
    }
}

#[derive(Clone, Copy, Debug, PartialEq, Eq, Structural)]
pub enum OwnedMappingErrorKind {
    InvalidLimit,
    LimitExceeded,
    InvalidCounter,
    CounterOverflow,
    RevisionOverflow,
    HistoryGap,
    WrongAllocatedKey,
    DuplicateTarget,
    UnknownRegistryTarget,
    RetiredTarget,
    AlreadyRetired,
    ActiveDependentSlots,
    MissingRegistryOwner,
    ForeignNamespace,
    SuccessorConflict,
    DuplicateSelector,
    DuplicateCandidate,
    TooFewCandidates,
    UnreviewedAlias,
    WrongTargetKind,
    WrongTargetOwner,
    WrongSocketKind,
    WrongOutputTopology,
    MissingSchemaTarget,
    RegistryBindingMismatch,
    SchemaBindingMismatch,
    SourceBindingMismatch,
    PolicyBindingMismatch,
    InvalidSourcePin,
    InvalidDigest,
}

/// Why a registry operation failed; `path` names the checked field.
#[derive(Debug)]
pub enum OwnedMappingError {
    Invalid { path: &'static str, kind: OwnedMappingErrorKind },
    UnsupportedVersion { version: u32 },
}

pub open spec fn failed_with<T>(r: Result<T, OwnedMappingError>, kind: OwnedMappingErrorKind) -> bool {
    r matches Err(OwnedMappingError::Invalid { kind: k, .. }) && k == kind
}

impl OwnedMappingLimits {
    /// Check every bound against its ceiling.
    pub fn validate(self) -> (r: Result<(), OwnedMappingError>)
        ensures
            r is Ok <==> mapping_limits_valid(self),
            r is Err ==> failed_with(r, OwnedMappingErrorKind::InvalidLimit),
    {
        let ok = 0 < self.max_entries && self.max_entries <= 4_000_000 && 0 < self.max_collection_entries
            && self.max_collection_entries <= 1_000_000 && 0 < self.max_candidates && self.max_candidates
            <= 4096 && 0 < self.max_string_bytes && self.max_string_bytes <= 64 * 1024 && 0
            < self.max_total_string_bytes && self.max_total_string_bytes <= 64 * 1024 * 1024 && 0
            < self.max_wire_bytes && self.max_wire_bytes <= 64 * 1024 * 1024;
        if ok {
            Ok(())
        } else {
            Err(OwnedMappingError::Invalid { path: "limits", kind: OwnedMappingErrorKind::InvalidLimit })
        }
    }
}

/// Why encoded bytes are refused before decoding.
#[derive(Debug)]
pub enum WireRefusal {
    /// The limits themselves are out of range.
    Limits(OwnedMappingError),
    /// The bytes exceed the wire limit.
    TooLarge { maximum: usize },
}

/// Check encoded bytes against valid limits before they are decoded: the
/// limits first, then the byte count.
pub fn check_wire_bytes(bytes: &[u8], limits: OwnedMappingLimits) -> (r: Result<(), WireRefusal>)
    ensures
        r is Ok <==> mapping_limits_valid(limits) && bytes@.len() <= limits.max_wire_bytes,
        !mapping_limits_valid(limits) ==> (r matches Err(WireRefusal::Limits(e)) && failed_with(
            Err::<(), OwnedMappingError>(e),
            OwnedMappingErrorKind::InvalidLimit,
        )),
        mapping_limits_valid(limits) && bytes@.len() > limits.max_wire_bytes ==> (r matches Err(
            WireRefusal::TooLarge { maximum },
        ) && maximum == limits.max_wire_bytes),
{
    match limits.validate() {
        Ok(()) => {},
        Err(e) => {
            return Err(WireRefusal::Limits(e));
        },
    }
    if bytes.len() > limits.max_wire_bytes {
        return Err(WireRefusal::TooLarge { maximum: limits.max_wire_bytes });
    }
    Ok(())
}

// ---------------------------------------------------------------------------
// Targets.

/// The definition domain an owned identifier belongs to.
#[derive(Clone, Copy, Debug, PartialEq, Eq, Structural)]
pub enum DefinitionDomain {
    Class,
    Ascendancy,
    Reward,
    ItemTemplate,
    Modifier,
    Gem,
    Skill,
    PassiveNode,
    PointPool,
    EquipmentSlot,
    Encounter,
    Metric,
    Option,
    ActionPart,
    ActionMode,
    ActionStatSet,
    UsagePolicy,
    SkillLinkRole,
    SocketSlot,
    Unit,
    Quality,
    ExternalInput,
    Stat,
    Capability,
}

/// The slot domain an owned slot identifier belongs to.
#[derive(Clone, Copy, Debug, PartialEq, Eq, Structural)]
pub enum SlotDomain {
    Parameter,
    Choice,
    Grant,
    Actor,
    SkillGrant,
    ActionOutput,
}

/// An owned definition identifier.
#[derive(Clone, Debug, PartialEq, Eq)]
pub struct DefinitionAddress {
    pub domain: DefinitionDomain,
    pub namespace: Vec<u8>,
    pub key: Vec<u8>,
}

pub struct AddressView {
    pub domain: DefinitionDomain,
    pub namespace: Seq<u8>,
    pub key: Seq<u8>,
}

impl View for DefinitionAddress {
    type V = AddressView;

    open spec fn view(&self) -> AddressView {
        AddressView { domain: self.domain, namespace: self.namespace@, key: self.key@ }
    }
}

/// An owned slot identifier together with its declaring definition.
#[derive(Clone, Debug, PartialEq, Eq)]
pub struct SlotAddress {
    pub declaration: DefinitionAddress,
    pub domain: SlotDomain,
    pub namespace: Vec<u8>,
    pub key: Vec<u8>,
}

pub struct SlotAddressView {
    pub declaration: AddressView,
    pub domain: SlotDomain,
    pub namespace: Seq<u8>,
    pub key: Seq<u8>,
}

impl View for SlotAddress {
    type V = SlotAddressView;

    open spec fn view(&self) -> SlotAddressView {
        SlotAddressView {
            declaration: self.declaration@,
            domain: self.domain,
            namespace: self.namespace@,
            key: self.key@,
        }
    }
}

/// What a registry entry allocates.
#[derive(Clone, Debug, PartialEq, Eq)]
pub enum SchemaSubject {
    Definition(DefinitionAddress),
    Slot(SlotAddress),
}

pub enum SubjectView {
    Definition(AddressView),
    Slot(SlotAddressView),
}

impl View for SchemaSubject {
    type V = SubjectView;

    open spec fn view(&self) -> SubjectView {
        match self {
            SchemaSubject::Definition(a) => SubjectView::Definition(a@),
            SchemaSubject::Slot(s) => SubjectView::Slot(s@),
        }
    }
}

impl DefinitionAddress {
    pub fn duplicate(&self) -> (r: DefinitionAddress)
        ensures
            r@ == self@,
    {
        DefinitionAddress {
            domain: self.domain,
            namespace: copy_bytes(self.namespace.as_slice()),
            key: copy_bytes(self.key.as_slice()),
        }
    }

    pub fn same(&self, other: &DefinitionAddress) -> (r: bool)
        ensures
            r == (self@ == other@),
    {
        self.domain == other.domain && bytes_eq(self.namespace.as_slice(), other.namespace.as_slice())
            && bytes_eq(self.key.as_slice(), other.key.as_slice())
    }
}

impl SchemaSubject {
    pub fn duplicate(&self) -> (r: SchemaSubject)
        ensures
            r@ == self@,
    {
        match self {
            SchemaSubject::Definition(a) => SchemaSubject::Definition(a.duplicate()),
            SchemaSubject::Slot(s) => SchemaSubject::Slot(
                SlotAddress {
                    declaration: s.declaration.duplicate(),
                    domain: s.domain,
                    namespace: copy_bytes(s.namespace.as_slice()),
                    key: copy_bytes(s.key.as_slice()),
                },
            ),
        }
    }

    pub fn same(&self, other: &SchemaSubject) -> (r: bool)
        ensures
            r == (self@ == other@),
    {
        match (self, other) {
            (SchemaSubject::Definition(a), SchemaSubject::Definition(b)) => a.same(b),
            (SchemaSubject::Slot(a), SchemaSubject::Slot(b)) => {
                a.declaration.same(&b.declaration) && a.domain == b.domain && bytes_eq(
                    a.namespace.as_slice(),
                    b.namespace.as_slice(),
                ) && bytes_eq(a.key.as_slice(), b.key.as_slice())
            },
            _ => false,
        }
    }
}

/// The target lies in `ns`; a slot's declaring definition does too.
pub open spec fn subject_in_namespace(t: SubjectView, ns: Seq<u8>) -> bool {
    match t {
        SubjectView::Definition(a) => a.namespace == ns,
        SubjectView::Slot(s) => s.namespace == ns && s.declaration.namespace == ns,
    }
}

/// The owned key of a target.
pub open spec fn subject_key(t: SubjectView) -> Seq<u8> {
    match t {
        SubjectView::Definition(a) => a.key,
        SubjectView::Slot(s) => s.key,
    }
}

pub(crate) fn check_namespace(target: &SchemaSubject, ns: &Vec<u8>) -> (r: Result<(), OwnedMappingError>)
    ensures
        r is Ok <==> subject_in_namespace(target@, ns@),
        r is Err ==> failed_with(r, OwnedMappingErrorKind::ForeignNamespace),
{
    let ok = match target {
        SchemaSubject::Definition(a) => bytes_eq(a.namespace.as_slice(), ns.as_slice()),
        SchemaSubject::Slot(s) => bytes_eq(s.namespace.as_slice(), ns.as_slice()) && bytes_eq(
            s.declaration.namespace.as_slice(),
            ns.as_slice(),
        ),
    };
    if ok {
        Ok(())
    } else {
        Err(OwnedMappingError::Invalid { path: "target.namespace", kind: OwnedMappingErrorKind::ForeignNamespace })
    }
}

// ---------------------------------------------------------------------------
// Allocated keys.

pub open spec fn hex_digit(d: nat) -> u8 {
    if d < 10 {
        (0x30 + d) as u8
    } else {
        (0x61 + d - 10) as u8
    }
}

/// The last `n` lowercase hex digits of `v`, most significant first.
pub open spec fn hex_digits(v: nat, n: nat) -> Seq<u8>
    decreases n,
{
    if n == 0 {
        seq![]
    } else {
        hex_digits(v / 16, (n - 1) as nat).push(hex_digit(v % 16))
    }
}

/// The key allocated for sequence number `sequence`: `def.` and sixteen hex digits.
pub open spec fn allocated_key(sequence: nat) -> Seq<u8> {
    seq![0x64u8, 0x65u8, 0x66u8, 0x2Eu8] + hex_digits(sequence, 16)
}

proof fn lemma_hex_digits_len(v: nat, n: nat)
    ensures
        hex_digits(v, n).len() == n,
    decreases n,
{
    if n > 0 {
        lemma_hex_digits_len(v / 16, (n - 1) as nat);
    }
}

/// The allocated key of a sequence number.
pub fn allocated_key_exec(sequence: u64) -> (r: Vec<u8>)
    ensures
        r@ == allocated_key(sequence as nat),
{
    let mut digits: Vec<u8> = Vec::new();
    let mut k: usize = 0;
    while k < 16
        invariant
            k <= 16,
            digits@.len() == k,
        decreases 16 - k,
    {
        digits.push(0x30u8);
        k = k + 1;
    }
    let mut v: u64 = sequence;
    let mut n: usize = 0;
    while n < 16
        invariant
            n <= 16,
            digits@.len() == 16,
            hex_digits(sequence as nat, 16) == hex_digits(v as nat, (16 - n) as nat) + digits@.subrange(
                16 - n,
                16,
            ),
        decreases 16 - n,
    {
        let d: u64 = v % 16;
        let c: u8 = if d < 10 {
            0x30u8 + d as u8
        } else {
            0x61u8 + (d - 10) as u8
        };
        let ghost before = digits@;
        let ghost rest = (16 - n - 1) as nat;
        digits.set(15 - n, c);
        assert(c == hex_digit((v % 16) as nat));
        assert(hex_digits(v as nat, (16 - n) as nat) == hex_digits((v / 16) as nat, rest).push(c));
        assert(digits@.subrange(15 - n, 16) =~= seq![c] + before.subrange(16 - n, 16));
        assert(hex_digits(v as nat, (16 - n) as nat) + before.subrange(16 - n, 16) =~= hex_digits(
            (v / 16) as nat,
            rest,
        ) + digits@.subrange(15 - n, 16));
        v = v / 16;
        n = n + 1;
    }
    assert(hex_digits(v as nat, 0) =~= seq![]);
    assert(digits@.subrange(0, 16) =~= digits@);
    let mut key: Vec<u8> = Vec::new();
    key.push(0x64u8);
    key.push(0x65u8);
    key.push(0x66u8);
    key.push(0x2Eu8);
    let ghost prefix = key@;
    let mut j: usize = 0;
    while j < 16
        invariant
            j <= 16,
            digits@.len() == 16,
            prefix == seq![0x64u8, 0x65u8, 0x66u8, 0x2Eu8],
            key@ == prefix + digits@.take(j as int),
        decreases 16 - j,
    {
        key.push(digits[j]);
        j = j + 1;
        assert(key@ =~= prefix + digits@.take(j as int));
    }
    assert(digits@.take(16) =~= digits@);
    assert(prefix =~= seq![0x64u8, 0x65u8, 0x66u8, 0x2Eu8]);
    key
}


// ---------------------------------------------------------------------------
// Snapshots.

#[derive(Clone, Debug, PartialEq, Eq)]
pub enum RegistryState {
    Active,
    Retired { reason: Vec<u8> },
}

pub enum StateView {
    Active,
    Retired(Seq<u8>),
}

impl View for RegistryState {
    type V = StateView;

    open spec fn view(&self) -> StateView {
        match self {
            RegistryState::Active => StateView::Active,
            RegistryState::Retired { reason } => StateView::Retired(reason@),
        }
    }
}

#[derive(Clone, Debug, PartialEq, Eq)]
pub struct RegistryEntry {
    pub sequence: i64,
    pub target: SchemaSubject,
    pub state: RegistryState,
}

pub struct EntryView {
    pub sequence: int,
    pub target: SubjectView,
    pub state: StateView,
}

impl View for RegistryEntry {
    type V = EntryView;

    open spec fn view(&self) -> EntryView {
        EntryView { sequence: self.sequence as int, target: self.target@, state: self.state@ }
    }
}

impl RegistryEntry {
    pub fn duplicate(&self) -> (r: RegistryEntry)
        ensures
            r@ == self@,
    {
        RegistryEntry {
            sequence: self.sequence,
            target: self.target.duplicate(),
            state: match &self.state {
                RegistryState::Active => RegistryState::Active,
                RegistryState::Retired { reason } => RegistryState::Retired { reason: copy_bytes(reason.as_slice()) },
            },
        }
    }
}

pub open spec fn entries_view(e: Seq<RegistryEntry>) -> Seq<EntryView> {
    e.map_values(|x: RegistryEntry| x@)
}

/// A registry snapshot as stored.
#[derive(Clone, Debug, PartialEq, Eq)]
pub struct RegistryInput {
    pub schema_version: u32,
    pub namespace: Vec<u8>,
    pub revision: i64,
    pub last_issued: i64,
    pub entries: Vec<RegistryEntry>,
}

pub struct RegistryView {
    pub schema_version: u32,
    pub namespace: Seq<u8>,
    pub revision: int,
    pub last_issued: int,
    pub entries: Seq<EntryView>,
}

impl View for RegistryInput {
    type V = RegistryView;

    open spec fn view(&self) -> RegistryView {
        RegistryView {
            schema_version: self.schema_version,
            namespace: self.namespace@,
            revision: self.revision as int,
            last_issued: self.last_issued as int,
            entries: entries_view(self.entries@),
        }
    }
}

/// Number of retired entries among the first `n`.
pub open spec fn retired_count(es: Seq<EntryView>, n: int) -> nat
    decreases n,
{
    if n <= 0 {
        0
    } else {
        retired_count(es, n - 1) + if es[n - 1].state is Retired {
            1nat
        } else {
            0nat
        }
    }
}

/// The slot at `i` has its declaring definition allocated earlier, and an
/// active slot has an active owner.
pub open spec fn owner_ok(es: Seq<EntryView>, i: int) -> bool {
    match es[i].target {
        SubjectView::Slot(s) => exists|j: int|
            0 <= j < i && #[trigger] es[j].target == SubjectView::Definition(s.declaration) && (
            es[i].state is Active ==> es[j].state is Active),
        SubjectView::Definition(_) => true,
    }
}

/// Entries in allocation order form a consistent history in `ns`.
pub open spec fn history_valid(ns: Seq<u8>, es: Seq<EntryView>) -> bool {
    &&& forall|i: int| 0 <= i < es.len() ==> #[trigger] es[i].sequence == i + 1
    &&& forall|i: int| 0 <= i < es.len() ==> subject_in_namespace(#[trigger] es[i].target, ns)
    &&& forall|i: int| 0 <= i < es.len() ==> subject_key(#[trigger] es[i].target) == allocated_key((i + 1) as nat)
    &&& forall|i: int, j: int| 0 <= i < j < es.len() ==> es[i].target != es[j].target
    &&& forall|i: int| 0 <= i < es.len() ==> #[trigger] owner_ok(es, i)
}

/// A registry view is a valid snapshot under `limits`.
pub open spec fn registry_valid(v: RegistryView, limits: OwnedMappingLimits) -> bool {
    &&& mapping_limits_valid(limits)
    &&& v.schema_version == OWNED_ID_REGISTRY_VERSION
    &&& v.entries.len() <= limits.max_entries
    &&& v.entries.len() <= limits.max_collection_entries
    &&& 0 <= v.revision <= BOUNDED_INTEGER_MAX
    &&& v.last_issued == v.entries.len()
    &&& history_valid(v.namespace, v.entries)
    &&& v.revision == v.last_issued + retired_count(v.entries, v.entries.len() as int)
}

/// The sequence numbers of `es` are exactly `1..=es.len()`.
pub open spec fn sequences_exact(es: Seq<EntryView>) -> bool {
    &&& forall|j: int| 0 <= j < es.len() ==> 1 <= #[trigger] es[j].sequence <= es.len()
    &&& forall|j: int, k: int| 0 <= j < k < es.len() ==> es[j].sequence != es[k].sequence
}

/// The entries of `es` put in sequence order.
pub open spec fn in_sequence_order(es: Seq<EntryView>) -> Seq<EntryView> {
    Seq::new(es.len(), |i: int| es[choose|j: int| 0 <= j < es.len() && es[j].sequence == i + 1])
}

/// A snapshot is accepted: its entries, put in sequence order, form a valid registry.
pub open spec fn input_accepted(v: RegistryView, limits: OwnedMappingLimits) -> bool {
    &&& sequences_exact(v.entries)
    &&& registry_valid(RegistryView { entries: in_sequence_order(v.entries), ..v }, limits)
}


// ---------------------------------------------------------------------------
// Allocated keys are injective and can be read back.

pub open spec fn pow16(n: nat) -> nat
    decreases n,
{
    if n == 0 {
        1
    } else {
        16 * pow16((n - 1) as nat)
    }
}

proof fn lemma_hex_digit_injective(a: nat, b: nat)
    requires
        a < 16,
        b < 16,
        hex_digit(a) == hex_digit(b),
    ensures
        a == b,
{
}

proof fn lemma_hex_digits_injective(a: nat, b: nat, n: nat)
    requires
        a < pow16(n),
        b < pow16(n),
        hex_digits(a, n) == hex_digits(b, n),
    ensures
        a == b,
    decreases n,
{
    if n == 0 {
    } else {
        let m = (n - 1) as nat;
        lemma_hex_digits_len(a / 16, m);
        lemma_hex_digits_len(b / 16, m);
        assert(hex_digits(a, n).last() == hex_digit(a % 16));
        assert(hex_digits(b, n).last() == hex_digit(b % 16));
        lemma_hex_digit_injective(a % 16, b % 16);
        assert(hex_digits(a / 16, m) =~= hex_digits(a, n).drop_last());
        assert(hex_digits(b / 16, m) =~= hex_digits(b, n).drop_last());
        assert(a / 16 < pow16(m)) by (nonlinear_arith)
            requires
                a < 16 * pow16(m),
        ;
        assert(b / 16 < pow16(m)) by (nonlinear_arith)
            requires
                b < 16 * pow16(m),
        ;
        lemma_hex_digits_injective(a / 16, b / 16, m);
        assert(a == 16 * (a / 16) + a % 16) by (nonlinear_arith);
        assert(b == 16 * (b / 16) + b % 16) by (nonlinear_arith);
    }
}

proof fn lemma_pow16_bound()
    ensures
        pow16(16) > BOUNDED_INTEGER_MAX,
        pow16(16) == 0x1_0000_0000_0000_0000,
{
    reveal_with_fuel(pow16, 17);
}

/// Distinct sequence numbers have distinct allocated keys.
pub proof fn lemma_allocated_key_injective(a: nat, b: nat)
    requires
        a < pow16(16),
        b < pow16(16),
        allocated_key(a) == allocated_key(b),
    ensures
        a == b,
{
    lemma_pow16_bound();
    let p = seq![0x64u8, 0x65u8, 0x66u8, 0x2Eu8];
    assert(hex_digits(a, 16) =~= allocated_key(a).subrange(4, allocated_key(a).len() as int));
    assert(hex_digits(b, 16) =~= allocated_key(b).subrange(4, allocated_key(b).len() as int));
    lemma_hex_digits_injective(a, b, 16);
}

pub open spec fn hex_value(c: u8) -> Option<nat> {
    if 0x30u8 <= c <= 0x39u8 {
        Some((c - 0x30u8) as nat)
    } else if 0x61u8 <= c <= 0x66u8 {
        Some((c - 0x61u8 + 10) as nat)
    } else {
        None
    }
}

/// Read back the sequence number of an allocated key.
pub fn parse_allocated_key(key: &[u8]) -> (r: Option<u64>)
    ensures
        match r {
            Some(m) => allocated_key(m as nat) == key@ && (m as nat) < pow16(16),
            None => forall|m: nat| m < pow16(16) ==> allocated_key(m) != key@,
        },
{
    proof {
        lemma_hex_digits_len(0, 16);
    }
    if key.len() != 20 || key[0] != 0x64u8 || key[1] != 0x65u8 || key[2] != 0x66u8 || key[3] != 0x2Eu8 {
        proof {
            assert forall|m: nat| m < pow16(16) implies allocated_key(m) != key@ by {
                lemma_hex_digits_len(m, 16);
                if allocated_key(m) == key@ {
                    assert(allocated_key(m)[0] == 0x64u8);
                    assert(allocated_key(m)[1] == 0x65u8);
                    assert(allocated_key(m)[2] == 0x66u8);
                    assert(allocated_key(m)[3] == 0x2Eu8);
                }
            }
        }
        return None;
    }
    let ghost digits = key@.subrange(4, 20);
    let mut v: u64 = 0;
    let mut k: usize = 4;
    while k < 20
        invariant
            4 <= k <= 20,
            key@.len() == 20,
            digits == key@.subrange(4, 20),
            (v as nat) < pow16((k - 4) as nat),
            hex_digits(v as nat, (k - 4) as nat) == key@.subrange(4, k as int),
            forall|m: nat| m < pow16((k - 4) as nat) && #[trigger] hex_digits(m, (k - 4) as nat) == key@.subrange(4, k as int) ==> m == v,
        decreases 20 - k,
    {
        let c = key[k];
        let d: u64 = if 0x30u8 <= c && c <= 0x39u8 {
            (c - 0x30u8) as u64
        } else if 0x61u8 <= c && c <= 0x66u8 {
            (c - 0x61u8 + 10) as u64
        } else {
            proof {
                assert forall|m: nat| m < pow16(16) implies allocated_key(m) != key@ by {
                    lemma_hex_digits_len(m, 16);
                    if allocated_key(m) == key@ {
                        let i = k - 4;
                        assert(hex_digits(m, 16) =~= key@.subrange(4, 20));
                        lemma_hex_char(m, 16, i);
                    }
                }
            }
            return None;
        };
        let ghost n = (k - 4) as nat;
        assert(hex_digit(d as nat) == c);
        assert(v * 16 + d < 16 * pow16(n)) by (nonlinear_arith)
            requires
                v < pow16(n),
                d < 16,
        ;
        assert((v * 16 + d) / 16 == v && (v * 16 + d) % 16 == d) by (nonlinear_arith)
            requires
                d < 16,
        ;
        proof {
            assert(16 * pow16(n) <= pow16(16)) by {
                lemma_pow16_monotone((n + 1) as nat, 16);
            }
            lemma_pow16_bound();
        }
        let ghost old_v = v;
        v = v * 16 + d;
        assert(hex_digits(v as nat, (n + 1) as nat) == hex_digits(old_v as nat, n).push(c));
        assert(key@.subrange(4, k + 1) =~= key@.subrange(4, k as int).push(c));
        proof {
            assert forall|m: nat| m < pow16((n + 1) as nat) && #[trigger] hex_digits(m, (n + 1) as nat) == key@.subrange(4, k + 1) implies m == v by {
                assert(hex_digits(m / 16, n) =~= hex_digits(m, (n + 1) as nat).drop_last());
                assert(key@.subrange(4, k + 1).drop_last() =~= key@.subrange(4, k as int));
                assert(hex_digits(m, (n + 1) as nat).last() == hex_digit(m % 16));
                lemma_hex_digit_injective(m % 16, d as nat);
                assert(m / 16 < pow16(n)) by (nonlinear_arith)
                    requires
                        m < 16 * pow16(n),
                ;
                assert(m == 16 * (m / 16) + m % 16) by (nonlinear_arith);
                assert(m / 16 == old_v);
                assert(m % 16 == d);
            }
        }
        k = k + 1;
    }
    proof {
        assert forall|m: nat| m < pow16(16) && #[trigger] allocated_key(m) == key@ implies m == v by {
            assert(hex_digits(m, 16) =~= allocated_key(m).subrange(4, 20));
        }
        assert(allocated_key(v as nat) =~= key@);
    }
    Some(v)
}

proof fn lemma_pow16_monotone(a: nat, b: nat)
    requires
        a <= b,
    ensures
        pow16(a) <= pow16(b),
    decreases b,
{
    if a < b {
        lemma_pow16_monotone(a, (b - 1) as nat);
    }
}

/// A character of a hex rendering is a hex digit.
proof fn lemma_hex_char(v: nat, n: nat, i: int)
    requires
        0 <= i < n,
    ensures
        hex_value(hex_digits(v, n)[i]) is Some,
    decreases n,
{
    lemma_hex_digits_len(v / 16, (n - 1) as nat);
    if i < n - 1 {
        lemma_hex_char(v / 16, (n - 1) as nat, i);
    }
}


// ---------------------------------------------------------------------------
// Placing entries by sequence number.

spec fn filled(s: Seq<Option<usize>>, n: int) -> nat
    decreases n,
{
    if n <= 0 {
        0
    } else {
        filled(s, n - 1) + if s[n - 1] is Some {
            1nat
        } else {
            0nat
        }
    }
}

proof fn lemma_filled_update(s: Seq<Option<usize>>, p: int, x: usize, n: int)
    requires
        0 <= p < s.len(),
        s[p] is None,
        0 <= n <= s.len(),
    ensures
        filled(s.update(p, Some(x)), n) == filled(s, n) + if p < n {
            1nat
        } else {
            0nat
        },
    decreases n,
{
    if n > 0 {
        lemma_filled_update(s, p, x, n - 1);
    }
}

proof fn lemma_filled_gap(s: Seq<Option<usize>>, i: int, n: int)
    requires
        0 <= i < n <= s.len(),
        s[i] is None,
    ensures
        filled(s, n) < n,
    decreases n,
{
    if i < n - 1 {
        lemma_filled_gap(s, i, n - 1);
    } else {
        lemma_filled_le(s, n - 1);
    }
}

proof fn lemma_filled_le(s: Seq<Option<usize>>, n: int)
    requires
        0 <= n <= s.len(),
    ensures
        filled(s, n) <= n,
    decreases n,
{
    if n > 0 {
        lemma_filled_le(s, n - 1);
    }
}

proof fn lemma_filled_zero(s: Seq<Option<usize>>, n: int)
    requires
        0 <= n <= s.len(),
        forall|i: int| 0 <= i < s.len() ==> s[i] is None,
    ensures
        filled(s, n) == 0,
    decreases n,
{
    if n > 0 {
        lemma_filled_zero(s, n - 1);
    }
}

/// Put each entry at the position its sequence number names.
fn place_entries(entries: &Vec<RegistryEntry>) -> (r: Result<Vec<usize>, OwnedMappingError>)
    ensures
        r is Ok <==> sequences_exact(entries_view(entries@)),
        r is Err ==> failed_with(r, OwnedMappingErrorKind::HistoryGap),
        r matches Ok(pos) ==> pos@.len() == entries@.len() && forall|i: int|
            0 <= i < pos@.len() ==> pos@[i] < entries@.len() && entries_view(entries@)[#[trigger] pos@[i] as int].sequence
                == i + 1,
{
    let ghost es = entries_view(entries@);
    let n = entries.len();
    let mut slots: Vec<Option<usize>> = Vec::new();
    let mut k: usize = 0;
    while k < n
        invariant
            k <= n,
            n == entries@.len(),
            slots@.len() == k,
            forall|i: int| 0 <= i < k ==> slots@[i] is None,
        decreases n - k,
    {
        slots.push(None);
        k = k + 1;
    }
    proof {
        lemma_filled_zero(slots@, n as int);
    }
    let mut j: usize = 0;
    while j < n
        invariant
            j <= n,
            n == entries@.len(),
            es == entries_view(entries@),
            slots@.len() == n,
            filled(slots@, n as int) == j,
            forall|q: int| 0 <= q < j ==> 1 <= #[trigger] es[q].sequence <= n,
            forall|q: int, t: int| 0 <= q < t < j ==> es[q].sequence != es[t].sequence,
            forall|b: int| 0 <= b < n && #[trigger] slots@[b] is Some ==> slots@[b]->Some_0 < j && es[slots@[b]->Some_0 as int].sequence == b + 1,
            forall|q: int| 0 <= q < j ==> #[trigger] slots@[es[q].sequence - 1] == Some(q as usize),
        decreases n - j,
    {
        let seq = entries[j].sequence;
        assert(es[j as int].sequence == seq as int);
        if seq < 1 || seq as u64 > n as u64 {
            return Err(OwnedMappingError::Invalid { path: "registry.entries.sequence", kind: OwnedMappingErrorKind::HistoryGap });
        }
        let p = (seq - 1) as usize;
        if slots[p].is_some() {
            proof {
                let q = slots@[p as int]->Some_0 as int;
                assert(es[q].sequence == es[j as int].sequence);
            }
            return Err(OwnedMappingError::Invalid { path: "registry.entries.sequence", kind: OwnedMappingErrorKind::HistoryGap });
        }
        proof {
            lemma_filled_update(slots@, p as int, j, n as int);
            assert forall|q: int| 0 <= q < j implies es[q].sequence != es[j as int].sequence by {
                assert(slots@[es[q].sequence - 1] == Some(q as usize));
            }
        }
        slots.set(p, Some(j));
        j = j + 1;
    }
    proof {
        assert forall|i: int| 0 <= i < n implies slots@[i] is Some by {
            if slots@[i] is None {
                lemma_filled_gap(slots@, i, n as int);
            }
        }
    }
    let mut pos: Vec<usize> = Vec::new();
    let mut i: usize = 0;
    while i < n
        invariant
            i <= n,
            n == entries@.len(),
            slots@.len() == n,
            es == entries_view(entries@),
            forall|b: int| 0 <= b < n ==> slots@[b] is Some,
            forall|b: int| 0 <= b < n && #[trigger] slots@[b] is Some ==> slots@[b]->Some_0 < n && es[slots@[b]->Some_0 as int].sequence == b + 1,
            pos@.len() == i,
            forall|q: int| 0 <= q < i ==> pos@[q] < n && es[#[trigger] pos@[q] as int].sequence == q + 1,
        decreases n - i,
    {
        assert(slots@[i as int] is Some);
        let at = slots[i].unwrap();
        assert(at < n && es[at as int].sequence == i + 1);
        let ghost before = pos@;
        pos.push(at);
        assert(forall|q: int| 0 <= q < i ==> pos@[q] == before[q]);
        i = i + 1;
    }
    Ok(pos)
}


// ---------------------------------------------------------------------------
// Checking histories.

fn invalid(path: &'static str, kind: OwnedMappingErrorKind) -> (r: OwnedMappingError)
    ensures
        r matches OwnedMappingError::Invalid { kind: k, .. } && k == kind,
{
    OwnedMappingError::Invalid { path, kind }
}

/// Keys of entries in allocation order are the allocated keys of their positions.
pub open spec fn keys_valid(es: Seq<EntryView>) -> bool {
    forall|i: int| 0 <= i < es.len() ==> subject_key(#[trigger] es[i].target) == allocated_key((i + 1) as nat)
}

proof fn lemma_pow16_large(n: int)
    requires
        0 <= n <= BOUNDED_INTEGER_MAX,
    ensures
        (n as nat) < pow16(16),
{
    lemma_pow16_bound();
}

/// With keys valid, a target occurs at most at the position its key names.
proof fn lemma_target_position(es: Seq<EntryView>, t: SubjectView, j: int, m: nat)
    requires
        keys_valid(es),
        es.len() <= BOUNDED_INTEGER_MAX,
        0 <= j < es.len(),
        es[j].target == t,
        allocated_key(m) == subject_key(t),
        m < pow16(16),
    ensures
        m == j + 1,
{
    lemma_pow16_large(j + 1);
    lemma_allocated_key_injective(m, (j + 1) as nat);
}

/// Position of `target` among entries whose keys are valid.
fn find_target(es: &Vec<RegistryEntry>, target: &SchemaSubject) -> (r: Option<usize>)
    requires
        keys_valid(entries_view(es@)),
        es@.len() <= BOUNDED_INTEGER_MAX,
    ensures
        match r {
            Some(i) => i < es@.len() && es@[i as int]@.target == target@,
            None => forall|i: int| 0 <= i < es@.len() ==> es@[i]@.target != target@,
        },
{
    let ghost ev = entries_view(es@);
    let key = match target {
        SchemaSubject::Definition(a) => &a.key,
        SchemaSubject::Slot(s) => &s.key,
    };
    let parsed = parse_allocated_key(key.as_slice());
    proof {
        assert forall|i: int| 0 <= i < es@.len() && es@[i]@.target == target@ implies parsed == Some((i + 1) as u64) by {
            assert(ev[i] == es@[i]@);
            lemma_pow16_large(i + 1);
            let m = parsed->Some_0;
            lemma_target_position(ev, target@, i, m as nat);
        }
    }
    match parsed {
        Some(m) => {
            if m >= 1 && m <= es.len() as u64 {
                let i = (m - 1) as usize;
                if es[i].target.same(target) {
                    return Some(i);
                }
            }
            None
        },
        None => None,
    }
}

/// Check namespaces and keys of entries in allocation order, and count the retired ones.
fn check_entries(ns: &Vec<u8>, es: &Vec<RegistryEntry>) -> (r: Result<usize, OwnedMappingError>)
    requires
        forall|i: int| 0 <= i < es@.len() ==> #[trigger] entries_view(es@)[i].sequence == i + 1,
        es@.len() <= 4_000_000,
    ensures
        r is Ok <==> (forall|i: int|
            0 <= i < es@.len() ==> subject_in_namespace(#[trigger] entries_view(es@)[i].target, ns@))
            && keys_valid(entries_view(es@)),
        r matches Ok(c) ==> c == retired_count(entries_view(es@), es@.len() as int) && c <= es@.len(),
        r is Err ==> failed_with(r, OwnedMappingErrorKind::ForeignNamespace) || failed_with(
            r,
            OwnedMappingErrorKind::WrongAllocatedKey,
        ),
{
    let ghost ev = entries_view(es@);
    let mut retired: usize = 0;
    let mut i: usize = 0;
    while i < es.len()
        invariant
            i <= es@.len(),
            es@.len() <= 4_000_000,
            ev == entries_view(es@),
            forall|q: int| 0 <= q < i ==> subject_in_namespace(#[trigger] ev[q].target, ns@),
            forall|q: int| 0 <= q < i ==> subject_key(#[trigger] ev[q].target) == allocated_key((q + 1) as nat),
            retired == retired_count(ev, i as int),
            retired <= i,
        decreases es@.len() - i,
    {
        assert(ev[i as int] == es@[i as int]@);
        if check_namespace(&es[i].target, ns).is_err() {
            assert(!subject_in_namespace(entries_view(es@)[i as int].target, ns@));
            return Err(invalid("registry.entries.target", OwnedMappingErrorKind::ForeignNamespace));
        }
        let expected = allocated_key_exec((i + 1) as u64);
        let key = match &es[i].target {
            SchemaSubject::Definition(a) => &a.key,
            SchemaSubject::Slot(s) => &s.key,
        };
        assert(key@ == subject_key(entries_view(es@)[i as int].target));
        if !bytes_eq(key.as_slice(), expected.as_slice()) {
            assert(subject_key(entries_view(es@)[i as int].target) != allocated_key((i + 1) as nat));
            assert(!keys_valid(entries_view(es@)));
            return Err(invalid("registry.entries.target", OwnedMappingErrorKind::WrongAllocatedKey));
        }
        if let RegistryState::Retired { .. } = &es[i].state {
            retired = retired + 1;
        }
        i = i + 1;
    }
    Ok(retired)
}

/// Check that each slot's declaring definition was allocated earlier and is
/// active while the slot is.
fn check_owners(es: &Vec<RegistryEntry>) -> (r: Result<(), OwnedMappingError>)
    requires
        keys_valid(entries_view(es@)),
        es@.len() <= 4_000_000,
    ensures
        r is Ok <==> forall|i: int| 0 <= i < es@.len() ==> #[trigger] owner_ok(entries_view(es@), i),
        r is Err ==> failed_with(r, OwnedMappingErrorKind::MissingRegistryOwner) || failed_with(
            r,
            OwnedMappingErrorKind::HistoryGap,
        ) || failed_with(r, OwnedMappingErrorKind::RetiredTarget),
{
    let ghost ev = entries_view(es@);
    let mut i: usize = 0;
    while i < es.len()
        invariant
            i <= es@.len(),
            es@.len() <= 4_000_000,
            ev == entries_view(es@),
            keys_valid(ev),
            forall|q: int| 0 <= q < i ==> #[trigger] owner_ok(ev, q),
        decreases es@.len() - i,
    {
        assert(ev[i as int] == es@[i as int]@);
        if let SchemaSubject::Slot(s) = &es[i].target {
            let owner = SchemaSubject::Definition(s.declaration.duplicate());
            match find_target(es, &owner) {
                None => {
                    proof {
                        assert forall|j: int| 0 <= j < i implies !(ev[j].target == SubjectView::Definition(s.declaration@)) by {
                            assert(ev[j] == es@[j]@);
                        }
                    }
                    assert(!owner_ok(entries_view(es@), i as int));
                    return Err(invalid("registry.slot.owner", OwnedMappingErrorKind::MissingRegistryOwner));
                },
                Some(j) => {
                    assert(ev[j as int] == es@[j as int]@);
                    proof {
                        assert forall|q: int| 0 <= q < es@.len() && ev[q].target == SubjectView::Definition(s.declaration@) implies q == j by {
                            lemma_pow16_large(q + 1);
                            lemma_pow16_large(j + 1);
                            lemma_allocated_key_injective((q + 1) as nat, (j + 1) as nat);
                        }
                    }
                    if j >= i {
                        assert(!owner_ok(entries_view(es@), i as int));
                        return Err(invalid("registry.slot.owner", OwnedMappingErrorKind::HistoryGap));
                    }
                    let active = match &es[i].state {
                        RegistryState::Active => true,
                        _ => false,
                    };
                    let owner_active = match &es[j].state {
                        RegistryState::Active => true,
                        _ => false,
                    };
                    if active && !owner_active {
                        assert(!owner_ok(entries_view(es@), i as int));
                        return Err(invalid("registry.slot.owner", OwnedMappingErrorKind::RetiredTarget));
                    }
                    assert(owner_ok(ev, i as int));
                },
            }
        }
        i = i + 1;
    }
    Ok(())
}


// ---------------------------------------------------------------------------
// The registry.

/// A validated allocation history.
#[derive(Debug)]
pub struct OwnedIdRegistry {
    input: RegistryInput,
    limits: OwnedMappingLimits,
}

impl View for OwnedIdRegistry {
    type V = RegistryView;

    closed spec fn view(&self) -> RegistryView {
        self.input@
    }
}

/// An entry kept by an update: same sequence number and target, and a
/// tombstone stays as it was.
pub open spec fn entry_kept(p: EntryView, n: EntryView) -> bool {
    &&& p.sequence == n.sequence
    &&& p.target == n.target
    &&& (p.state is Retired ==> n.state == p.state)
}

/// `next` keeps every entry of `prev` and its target, and every tombstone.
pub open spec fn successor_ok(prev: RegistryView, next: RegistryView) -> bool {
    &&& prev.namespace == next.namespace
    &&& prev.schema_version == next.schema_version
    &&& next.entries.len() >= prev.entries.len()
    &&& next.revision >= prev.revision
    &&& forall|i: int| 0 <= i < prev.entries.len() ==> entry_kept(prev.entries[i], #[trigger] next.entries[i])
}

/// The registry after allocating `target` as the next entry.
pub open spec fn allocated(prev: RegistryView, target: SubjectView) -> RegistryView {
    RegistryView {
        revision: prev.revision + 1,
        last_issued: prev.last_issued + 1,
        entries: prev.entries.push(
            EntryView { sequence: prev.last_issued + 1, target, state: StateView::Active },
        ),
        ..prev
    }
}

/// The registry after retiring the entry at `i` for `reason`.
pub open spec fn retired(prev: RegistryView, i: int, reason: Seq<u8>) -> RegistryView {
    RegistryView {
        revision: prev.revision + 1,
        entries: prev.entries.update(
            i,
            EntryView { state: StateView::Retired(reason), ..prev.entries[i] },
        ),
        ..prev
    }
}

/// An active slot entry declared by definition `a`.
pub open spec fn active_dependent(es: Seq<EntryView>, a: AddressView) -> bool {
    exists|j: int|
        0 <= j < es.len() && (#[trigger] es[j].target matches SubjectView::Slot(s) && s.declaration == a)
            && es[j].state is Active
}

proof fn lemma_retired_count_push(es: Seq<EntryView>, e: EntryView)
    ensures
        retired_count(es.push(e), es.len() + 1int) == retired_count(es, es.len() as int) + if e.state is Retired {
            1nat
        } else {
            0nat
        },
{
    lemma_retired_count_prefix(es.push(e), es, es.len() as int);
}

proof fn lemma_retired_count_prefix(a: Seq<EntryView>, b: Seq<EntryView>, n: int)
    requires
        0 <= n <= a.len(),
        n <= b.len(),
        forall|i: int| 0 <= i < n ==> a[i].state == b[i].state,
    ensures
        retired_count(a, n) == retired_count(b, n),
    decreases n,
{
    if n > 0 {
        lemma_retired_count_prefix(a, b, n - 1);
    }
}

proof fn lemma_retired_count_update(es: Seq<EntryView>, i: int, e: EntryView, n: int)
    requires
        0 <= i < es.len(),
        0 <= n <= es.len(),
        es[i].state is Active,
        e.state is Retired,
    ensures
        retired_count(es.update(i, e), n) == retired_count(es, n) + if i < n {
            1nat
        } else {
            0nat
        },
    decreases n,
{
    if n > 0 {
        lemma_retired_count_update(es, i, e, n - 1);
    }
}

impl OwnedIdRegistry {
    #[verifier::type_invariant]
    spec fn wf(self) -> bool {
        registry_valid(self.input@, self.limits)
    }

    pub closed spec fn spec_limits(self) -> OwnedMappingLimits {
        self.limits
    }

    /// Check a snapshot. Its entries may come in any order; they are kept in
    /// sequence order, which must number them `1..=n` without gaps.
    pub fn new(input: RegistryInput, limits: OwnedMappingLimits) -> (r: Result<Self, OwnedMappingError>)
        ensures
            r is Ok <==> mapping_limits_valid(limits) && input_accepted(input@, limits),
            r matches Ok(reg) ==> reg@ == (RegistryView { entries: in_sequence_order(input@.entries), ..input@ })
                && reg.spec_limits() == limits,
            !mapping_limits_valid(limits) ==> failed_with(r, OwnedMappingErrorKind::InvalidLimit),
            mapping_limits_valid(limits) && input.schema_version != OWNED_ID_REGISTRY_VERSION ==> (r matches Err(
                OwnedMappingError::UnsupportedVersion { version },
            ) && version == input.schema_version),
    {
        limits.validate()?;
        if input.schema_version != OWNED_ID_REGISTRY_VERSION {
            return Err(OwnedMappingError::UnsupportedVersion { version: input.schema_version });
        }
        let ghost iv = input@;
        let n = input.entries.len();
        if n > limits.max_entries || n > limits.max_collection_entries {
            return Err(invalid("registry.entries", OwnedMappingErrorKind::LimitExceeded));
        }
        if input.revision < 0 || input.last_issued < 0 || input.revision > BOUNDED_INTEGER_MAX
            || input.last_issued > BOUNDED_INTEGER_MAX {
            return Err(invalid("registry.counter", OwnedMappingErrorKind::InvalidCounter));
        }
        if input.last_issued as u64 != n as u64 {
            return Err(invalid("registry.last_issued", OwnedMappingErrorKind::HistoryGap));
        }
        let pos = match place_entries(&input.entries) {
            Ok(p) => p,
            Err(e) => {
                return Err(e);
            },
        };
        let ghost es = entries_view(input.entries@);
        let mut sorted: Vec<RegistryEntry> = Vec::new();
        let mut i: usize = 0;
        while i < n
            invariant
                i <= n,
                n == input.entries@.len(),
                es == entries_view(input.entries@),
                sequences_exact(es),
                pos@.len() == n,
                forall|q: int| 0 <= q < n ==> pos@[q] < n && es[#[trigger] pos@[q] as int].sequence == q + 1,
                sorted@.len() == i,
                forall|q: int| 0 <= q < i ==> #[trigger] sorted@[q]@ == in_sequence_order(es)[q],
            decreases n - i,
        {
            let at = pos[i];
            proof {
                let c = choose|j: int| 0 <= j < es.len() && es[j].sequence == i + 1;
                assert(es[at as int].sequence == i + 1);
                if c != at as int {
                    assert(es[c].sequence != es[at as int].sequence);
                }
                assert(in_sequence_order(es)[i as int] == es[at as int]);
            }
            sorted.push(input.entries[at].duplicate());
            i = i + 1;
        }
        let ghost ordered = in_sequence_order(es);
        assert(entries_view(sorted@) =~= ordered);
        proof {
            assert forall|q: int| 0 <= q < ordered.len() implies #[trigger] ordered[q].sequence == q + 1 by {
                assert(es[pos@[q] as int].sequence == q + 1);
            }
        }
        let retired = check_entries(&input.namespace, &sorted)?;
        if input.revision as u64 != input.last_issued as u64 + retired as u64 {
            return Err(invalid("registry.revision", OwnedMappingErrorKind::InvalidCounter));
        }
        check_owners(&sorted)?;
        proof {
            assert forall|a: int, b: int| 0 <= a < b < ordered.len() implies ordered[a].target != ordered[b].target by {
                if ordered[a].target == ordered[b].target {
                    lemma_pow16_large(a + 1);
                    lemma_pow16_large(b + 1);
                    lemma_allocated_key_injective((a + 1) as nat, (b + 1) as nat);
                }
            }
        }
        let RegistryInput { schema_version, namespace, revision, last_issued, .. } = input;
        let ghost v = RegistryView { entries: in_sequence_order(iv.entries), ..iv };
        assert(history_valid(v.namespace, v.entries));
        assert(registry_valid(v, limits));
        Ok(OwnedIdRegistry {
            input: RegistryInput { schema_version, namespace, revision, last_issued, entries: sorted },
            limits,
        })
    }

    /// The empty registry of a namespace.
    pub fn empty(namespace: Vec<u8>, limits: OwnedMappingLimits) -> (r: Result<Self, OwnedMappingError>)
        ensures
            r is Ok <==> mapping_limits_valid(limits),
            r matches Ok(reg) ==> reg@ == (RegistryView {
                schema_version: OWNED_ID_REGISTRY_VERSION,
                namespace: namespace@,
                revision: 0,
                last_issued: 0,
                entries: seq![],
            }) && reg.spec_limits() == limits,
    {
        let input = RegistryInput {
            schema_version: OWNED_ID_REGISTRY_VERSION,
            namespace,
            revision: 0,
            last_issued: 0,
            entries: Vec::new(),
        };
        let r = Self::new(input, limits);
        proof {
            let es = input@.entries;
            assert(es =~= seq![]);
            assert(in_sequence_order(es) =~= seq![]);
            if mapping_limits_valid(limits) {
                assert(input_accepted(input@, limits));
            }
        }
        r
    }

    /// The stored snapshot, in sequence order.
    pub fn input(&self) -> (r: &RegistryInput)
        ensures
            r@ == self@,
    {
        &self.input
    }

    /// The limits the registry was checked with.
    pub fn limits(&self) -> (r: OwnedMappingLimits)
        ensures
            r == self.spec_limits(),
    {
        self.limits
    }

    fn position(&self, target: &SchemaSubject) -> (r: Option<usize>)
        ensures
            match r {
                Some(i) => i < self@.entries.len() && self@.entries[i as int].target == target@,
                None => forall|i: int| 0 <= i < self@.entries.len() ==> self@.entries[i].target != target@,
            },
    {
        proof {
            use_type_invariant(self);
        }
        let r = find_target(&self.input.entries, target);
        proof {
            if let Some(i) = r {
                assert(self@.entries[i as int] == self.input.entries@[i as int]@);
            } else {
                assert forall|i: int| 0 <= i < self@.entries.len() implies self@.entries[i].target != target@ by {
                    assert(self@.entries[i] == self.input.entries@[i]@);
                }
            }
        }
        r
    }

    /// The entry allocated for `target`, if any.
    pub fn entry(&self, target: &SchemaSubject) -> (r: Option<&RegistryEntry>)
        ensures
            match r {
                Some(e) => exists|i: int| 0 <= i < self@.entries.len() && #[trigger] self@.entries[i] == e@,
                None => forall|i: int| 0 <= i < self@.entries.len() ==> self@.entries[i].target != target@,
            },
            r matches Some(e) ==> e@.target == target@,
            r matches Some(e) ==> forall|i: int|
                0 <= i < self@.entries.len() && #[trigger] self@.entries[i].target == target@ ==> self@.entries[i] == e@,
    {
        proof {
            use_type_invariant(self);
        }
        match self.position(target) {
            Some(i) => {
                assert(self@.entries[i as int] == self.input.entries@[i as int]@);
                proof {
                    assert forall|q: int| 0 <= q < self@.entries.len() && #[trigger] self@.entries[q].target == target@ implies self@.entries[q] == self@.entries[i as int] by {
                        if q != i {
                            assert(self@.entries[q].target != self@.entries[i as int].target);
                        }
                    }
                }
                Some(&self.input.entries[i])
            },
            None => None,
        }
    }

    /// Check that the registry also fits other limits.
    pub fn validate_limits(&self, limits: OwnedMappingLimits) -> (r: Result<(), OwnedMappingError>)
        ensures
            r is Ok <==> mapping_limits_valid(limits) && self@.entries.len() <= limits.max_entries
                && self@.entries.len() <= limits.max_collection_entries,
    {
        limits.validate()?;
        let n = self.input.entries.len();
        if n > limits.max_entries || n > limits.max_collection_entries {
            return Err(invalid("registry.entries", OwnedMappingErrorKind::LimitExceeded));
        }
        Ok(())
    }
}


/// The view of a registry that is empty except for its namespace.
spec fn blank(ns: Seq<u8>) -> RegistryView {
    RegistryView { schema_version: OWNED_ID_REGISTRY_VERSION, namespace: ns, revision: 0, last_issued: 0, entries: seq![] }
}

fn blank_input() -> (r: RegistryInput)
    ensures
        r@ == blank(seq![]),
{
    let r = RegistryInput {
        schema_version: OWNED_ID_REGISTRY_VERSION,
        namespace: Vec::new(),
        revision: 0,
        last_issued: 0,
        entries: Vec::new(),
    };
    assert(r@.entries =~= seq![]);
    r
}

/// Allocation fails: a counter would overflow or the registry would outgrow its limits.
pub open spec fn allocation_blocked(v: RegistryView, limits: OwnedMappingLimits) -> bool {
    ||| v.last_issued + 1 > BOUNDED_INTEGER_MAX
    ||| v.revision + 1 > BOUNDED_INTEGER_MAX
    ||| v.entries.len() + 1 > limits.max_entries
    ||| v.entries.len() + 1 > limits.max_collection_entries
}

impl OwnedIdRegistry {
    fn next_counters(&self) -> (r: Result<(i64, i64), OwnedMappingError>)
        ensures
            r matches Ok(c) ==> c.0 == self@.last_issued + 1 && c.1 == self@.revision + 1,
            r is Ok <==> self@.last_issued + 1 <= BOUNDED_INTEGER_MAX && self@.revision + 1 <= BOUNDED_INTEGER_MAX,
            self@.last_issued + 1 > BOUNDED_INTEGER_MAX ==> failed_with(r, OwnedMappingErrorKind::CounterOverflow),
            self@.last_issued + 1 <= BOUNDED_INTEGER_MAX && self@.revision + 1 > BOUNDED_INTEGER_MAX ==> failed_with(
                r,
                OwnedMappingErrorKind::RevisionOverflow,
            ),
    {
        proof {
            use_type_invariant(self);
        }
        if self.input.last_issued >= BOUNDED_INTEGER_MAX {
            return Err(invalid("registry.counter", OwnedMappingErrorKind::CounterOverflow));
        }
        if self.input.revision >= BOUNDED_INTEGER_MAX {
            return Err(invalid("registry.counter", OwnedMappingErrorKind::RevisionOverflow));
        }
        Ok((self.input.last_issued + 1, self.input.revision + 1))
    }

    /// Append an active entry for `target` with the next sequence number.
    fn append(&mut self, sequence: i64, revision: i64, target: SchemaSubject) -> (r: Result<(), OwnedMappingError>)
        requires
            sequence == old(self)@.last_issued + 1,
            revision == old(self)@.revision + 1,
            sequence <= BOUNDED_INTEGER_MAX,
            revision <= BOUNDED_INTEGER_MAX,
            subject_in_namespace(target@, old(self)@.namespace),
            subject_key(target@) == allocated_key(sequence as nat),
            target@ matches SubjectView::Slot(s) ==> exists|j: int|
                0 <= j < old(self)@.entries.len() && #[trigger] old(self)@.entries[j].target == SubjectView::Definition(
                    s.declaration,
                ) && old(self)@.entries[j].state is Active,
        ensures
            r is Ok <==> old(self)@.entries.len() + 1 <= old(self).spec_limits().max_entries && old(self)@.entries.len() + 1
                <= old(self).spec_limits().max_collection_entries,
            r is Ok ==> final(self)@ == allocated(old(self)@, target@),
            r is Err ==> final(self)@ == old(self)@ && failed_with(r, OwnedMappingErrorKind::LimitExceeded),
            final(self).spec_limits() == old(self).spec_limits(),
    {
        proof {
            use_type_invariant(&*self);
        }
        let count = self.input.entries.len();
        if count >= self.limits.max_entries || count >= self.limits.max_collection_entries {
            return Err(invalid("registry.entries", OwnedMappingErrorKind::LimitExceeded));
        }
        let ghost prev = self@;
        let ghost tv = target@;
        let mut tmp = blank_input();
        std::mem::swap(&mut self.input, &mut tmp);
        assert(tmp@ == prev);
        tmp.entries.push(RegistryEntry { sequence, target, state: RegistryState::Active });
        tmp.last_issued = sequence;
        tmp.revision = revision;
        let ghost next = allocated(prev, tv);
        assert(tmp@.entries =~= next.entries);
        proof {
            let es = next.entries;
            let n = prev.entries.len();
            lemma_retired_count_push(prev.entries, es[n as int]);
            assert(es.drop_last() =~= prev.entries);
            assert forall|a: int, b: int| 0 <= a < b < es.len() implies es[a].target != es[b].target by {
                if es[a].target == es[b].target {
                    lemma_pow16_large(a + 1);
                    lemma_pow16_large(b + 1);
                    lemma_allocated_key_injective((a + 1) as nat, (b + 1) as nat);
                }
            }
            assert forall|i: int| 0 <= i < es.len() implies #[trigger] owner_ok(es, i) by {
                if i < n {
                    assert(owner_ok(prev.entries, i));
                    if let SubjectView::Slot(s) = es[i].target {
                        let j = choose|j: int|
                            0 <= j < i && #[trigger] prev.entries[j].target == SubjectView::Definition(s.declaration) && (
                            prev.entries[i].state is Active ==> prev.entries[j].state is Active);
                        assert(es[j] == prev.entries[j]);
                    }
                } else {
                    if let SubjectView::Slot(s) = es[i].target {
                        let j = choose|j: int|
                            0 <= j < n && #[trigger] prev.entries[j].target == SubjectView::Definition(s.declaration)
                                && prev.entries[j].state is Active;
                        assert(es[j] == prev.entries[j]);
                    }
                }
            }
            assert(registry_valid(next, self.limits));
        }
        self.input = tmp;
        Ok(())
    }

    /// Allocate a fresh definition identifier of `domain`.
    pub fn allocate_definition(&mut self, domain: DefinitionDomain) -> (r: Result<DefinitionAddress, OwnedMappingError>)
        ensures
            r is Err <==> allocation_blocked(old(self)@, old(self).spec_limits()),
            r matches Ok(id) ==> {
                &&& id@ == (AddressView {
                    domain,
                    namespace: old(self)@.namespace,
                    key: allocated_key((old(self)@.last_issued + 1) as nat),
                })
                &&& final(self)@ == allocated(old(self)@, SubjectView::Definition(id@))
                &&& successor_ok(old(self)@, final(self)@)
                &&& forall|i: int|
                    0 <= i < old(self)@.entries.len() ==> subject_key(old(self)@.entries[i].target) != id@.key
            },
            r is Err ==> final(self)@ == old(self)@,
            old(self)@.last_issued + 1 > BOUNDED_INTEGER_MAX ==> failed_with(r, OwnedMappingErrorKind::CounterOverflow),
            old(self)@.last_issued + 1 <= BOUNDED_INTEGER_MAX && old(self)@.revision + 1 > BOUNDED_INTEGER_MAX
                ==> failed_with(r, OwnedMappingErrorKind::RevisionOverflow),
            final(self).spec_limits() == old(self).spec_limits(),
    {
        proof {
            use_type_invariant(&*self);
        }
        let (sequence, revision) = self.next_counters()?;
        let key = allocated_key_exec(sequence as u64);
        let id = DefinitionAddress { domain, namespace: copy_bytes(self.input.namespace.as_slice()), key };
        let ghost prev = self@;
        proof {
            assert forall|i: int| 0 <= i < prev.entries.len() implies subject_key(prev.entries[i].target) != id@.key by {
                lemma_pow16_large(i + 1);
                lemma_pow16_large(sequence as int);
                if subject_key(prev.entries[i].target) == id@.key {
                    lemma_allocated_key_injective((i + 1) as nat, sequence as nat);
                }
            }
        }
        self.append(sequence, revision, SchemaSubject::Definition(id.duplicate()))?;
        Ok(id)
    }

    /// Allocate a fresh slot identifier of `domain` declared by the active definition `owner`.
    pub fn allocate_slot(&mut self, owner: DefinitionAddress, domain: SlotDomain) -> (r: Result<SlotAddress, OwnedMappingError>)
        ensures
            r is Ok <==> (owner_active(old(self)@, owner@) && !allocation_blocked(old(self)@, old(self).spec_limits())),
            r matches Ok(slot) ==> {
                &&& slot@ == (SlotAddressView {
                    declaration: owner@,
                    domain,
                    namespace: old(self)@.namespace,
                    key: allocated_key((old(self)@.last_issued + 1) as nat),
                })
                &&& final(self)@ == allocated(old(self)@, SubjectView::Slot(slot@))
                &&& successor_ok(old(self)@, final(self)@)
            },
            r is Err ==> final(self)@ == old(self)@,
            final(self).spec_limits() == old(self).spec_limits(),
    {
        proof {
            use_type_invariant(&*self);
        }
        let owner_target = SchemaSubject::Definition(owner.duplicate());
        self.require_active(&owner_target)?;
        let (sequence, revision) = self.next_counters()?;
        let key = allocated_key_exec(sequence as u64);
        let slot = SlotAddress { declaration: owner, domain, namespace: copy_bytes(self.input.namespace.as_slice()), key };
        let ghost prev = self@;
        self.append(sequence, revision, SchemaSubject::Slot(
            SlotAddress {
                declaration: slot.declaration.duplicate(),
                domain,
                namespace: copy_bytes(slot.namespace.as_slice()),
                key: copy_bytes(slot.key.as_slice()),
            },
        ))?;
        Ok(slot)
    }

    /// Check that `target` lies in this namespace and is allocated and active.
    pub fn require_active(&self, target: &SchemaSubject) -> (r: Result<(), OwnedMappingError>)
        ensures
            r is Ok <==> subject_in_namespace(target@, self@.namespace) && exists|i: int|
                0 <= i < self@.entries.len() && #[trigger] self@.entries[i].target == target@ && self@.entries[i].state is Active,
            !subject_in_namespace(target@, self@.namespace) ==> failed_with(r, OwnedMappingErrorKind::ForeignNamespace),
            !failed_with(r, OwnedMappingErrorKind::LimitExceeded),
    {
        check_namespace(target, &self.input.namespace)?;
        match self.position(target) {
            None => Err(invalid("registry.target", OwnedMappingErrorKind::UnknownRegistryTarget)),
            Some(i) => {
                assert(self@.entries[i as int] == self.input.entries@[i as int]@);
                proof {
                    use_type_invariant(self);
                    assert forall|q: int| 0 <= q < self@.entries.len() && self@.entries[q].target == target@ implies q == i by {
                        if q != i {
                            assert(self@.entries[q].target != self@.entries[i as int].target);
                        }
                    }
                }
                match &self.input.entries[i].state {
                    RegistryState::Active => Ok(()),
                    RegistryState::Retired { .. } => Err(invalid("registry.target", OwnedMappingErrorKind::RetiredTarget)),
                }
            },
        }
    }
}

/// `owner` is an active definition of the registry's namespace.
pub open spec fn owner_active(v: RegistryView, owner: AddressView) -> bool {
    subject_in_namespace(SubjectView::Definition(owner), v.namespace) && exists|i: int|
        0 <= i < v.entries.len() && #[trigger] v.entries[i].target == SubjectView::Definition(owner)
            && v.entries[i].state is Active
}


impl RegistryState {
    pub fn same(&self, other: &RegistryState) -> (r: bool)
        ensures
            r == (self@ == other@),
    {
        match (self, other) {
            (RegistryState::Active, RegistryState::Active) => true,
            (RegistryState::Retired { reason: a }, RegistryState::Retired { reason: b }) => bytes_eq(
                a.as_slice(),
                b.as_slice(),
            ),
            _ => false,
        }
    }
}

/// Retirement is refused: the target is foreign, unknown, already retired or
/// still declares active slots, or the revision would overflow.
pub open spec fn retire_allowed(v: RegistryView, target: SubjectView) -> bool {
    &&& subject_in_namespace(target, v.namespace)
    &&& exists|i: int| 0 <= i < v.entries.len() && #[trigger] v.entries[i].target == target && v.entries[i].state is Active
    &&& !(target matches SubjectView::Definition(a) && active_dependent(v.entries, a))
    &&& v.revision + 1 <= BOUNDED_INTEGER_MAX
}

impl OwnedIdRegistry {
    /// Retire an active target, keeping its tombstone. A definition that still
    /// declares active slots cannot be retired.
    pub fn retire(&mut self, target: &SchemaSubject, reason: Vec<u8>) -> (r: Result<(), OwnedMappingError>)
        ensures
            r is Ok <==> retire_allowed(old(self)@, target@),
            r is Ok ==> forall|i: int|
                0 <= i < old(self)@.entries.len() && #[trigger] old(self)@.entries[i].target == target@ ==> final(self)@
                    == retired(old(self)@, i, reason@),
            r is Ok ==> successor_ok(old(self)@, final(self)@),
            r is Err ==> final(self)@ == old(self)@,
            !subject_in_namespace(target@, old(self)@.namespace) ==> failed_with(r, OwnedMappingErrorKind::ForeignNamespace),
            final(self).spec_limits() == old(self).spec_limits(),
    {
        proof {
            use_type_invariant(&*self);
        }
        let ghost prev = self@;
        check_namespace(target, &self.input.namespace)?;
        let i = match self.position(target) {
            None => {
                return Err(invalid("registry.retire", OwnedMappingErrorKind::UnknownRegistryTarget));
            },
            Some(i) => i,
        };
        assert(prev.entries[i as int] == self.input.entries@[i as int]@);
        proof {
            assert forall|q: int| 0 <= q < prev.entries.len() && prev.entries[q].target == target@ implies q == i by {
                if q != i {
                    assert(prev.entries[q].target != prev.entries[i as int].target);
                }
            }
        }
        if let RegistryState::Retired { .. } = &self.input.entries[i].state {
            return Err(invalid("registry.retire", OwnedMappingErrorKind::AlreadyRetired));
        }
        if let SchemaSubject::Definition(a) = target {
            let mut k: usize = 0;
            while k < self.input.entries.len()
                invariant
                    k <= prev.entries.len(),
                    prev == self@,
                    prev == old(self)@,
                    subject_in_namespace(target@, prev.namespace),
                    target@ == SubjectView::Definition(a@),
                    forall|q: int|
                        0 <= q < k ==> !(#[trigger] prev.entries[q].target matches SubjectView::Slot(s) && s.declaration
                            == a@ && prev.entries[q].state is Active),
                decreases prev.entries.len() - k,
            {
                assert(prev.entries[k as int] == self.input.entries@[k as int]@);
                if let SchemaSubject::Slot(s) = &self.input.entries[k].target {
                    if s.declaration.same(a) {
                        if let RegistryState::Active = &self.input.entries[k].state {
                            assert(active_dependent(prev.entries, a@)) by {
                                assert(prev.entries[k as int].target matches SubjectView::Slot(s2) && s2.declaration == a@);
                            }
                            return Err(invalid("registry.retire", OwnedMappingErrorKind::ActiveDependentSlots));
                        }
                    }
                }
                k = k + 1;
            }
        }
        if self.input.revision >= BOUNDED_INTEGER_MAX {
            return Err(invalid("registry.retire", OwnedMappingErrorKind::RevisionOverflow));
        }
        let mut tmp = blank_input();
        std::mem::swap(&mut self.input, &mut tmp);
        assert(tmp@ == prev);
        let ghost rv = reason@;
        let replacement = RegistryEntry {
            sequence: tmp.entries[i].sequence,
            target: tmp.entries[i].target.duplicate(),
            state: RegistryState::Retired { reason },
        };
        tmp.entries.set(i, replacement);
        tmp.revision = tmp.revision + 1;
        let ghost next = retired(prev, i as int, rv);
        assert(tmp@.entries =~= next.entries);
        proof {
            let es = next.entries;
            lemma_retired_count_update(prev.entries, i as int, es[i as int], prev.entries.len() as int);
            assert forall|k: int| 0 <= k < es.len() implies #[trigger] owner_ok(es, k) by {
                assert(owner_ok(prev.entries, k));
                if let SubjectView::Slot(s) = es[k].target {
                    let j = choose|j: int|
                        0 <= j < k && #[trigger] prev.entries[j].target == SubjectView::Definition(s.declaration) && (
                        prev.entries[k].state is Active ==> prev.entries[j].state is Active);
                    assert(es[j].target == prev.entries[j].target);
                    if j == i && es[k].state is Active {
                        assert(prev.entries[k].target matches SubjectView::Slot(s2) && s2.declaration == s.declaration);
                    }
                }
            }
            assert(registry_valid(next, self.limits));
        }
        self.input = tmp;
        Ok(())
    }

    /// Check that `next` may replace this snapshot: same namespace and version,
    /// no fewer entries, no lower revision, every entry kept with its target and
    /// every tombstone kept as it is.
    pub fn validate_successor(&self, next: &Self) -> (r: Result<(), OwnedMappingError>)
        ensures
            r is Ok <==> successor_ok(self@, next@),
            r is Err ==> failed_with(r, OwnedMappingErrorKind::SuccessorConflict),
    {
        if !bytes_eq(self.input.namespace.as_slice(), next.input.namespace.as_slice())
            || self.input.schema_version != next.input.schema_version
            || next.input.entries.len() < self.input.entries.len()
            || next.input.revision < self.input.revision {
            return Err(invalid("registry.successor", OwnedMappingErrorKind::SuccessorConflict));
        }
        let ghost a = self@;
        let ghost b = next@;
        let mut i: usize = 0;
        while i < self.input.entries.len()
            invariant
                i <= a.entries.len(),
                a == self@,
                b == next@,
                a.entries == entries_view(self.input.entries@),
                b.entries == entries_view(next.input.entries@),
                b.entries.len() >= a.entries.len(),
                forall|q: int| 0 <= q < i ==> entry_kept(a.entries[q], #[trigger] b.entries[q]),
            decreases a.entries.len() - i,
        {
            let p = &self.input.entries[i];
            let n = &next.input.entries[i];
            assert(a.entries[i as int] == p@);
            assert(b.entries[i as int] == n@);
            if p.sequence != n.sequence || !p.target.same(&n.target) {
                assert(!entry_kept(a.entries[i as int], b.entries[i as int]));
                return Err(invalid("registry.successor", OwnedMappingErrorKind::SuccessorConflict));
            }
            if let RegistryState::Retired { .. } = &p.state {
                if !p.state.same(&n.state) {
                    assert(!entry_kept(a.entries[i as int], b.entries[i as int]));
                    return Err(invalid("registry.successor", OwnedMappingErrorKind::SuccessorConflict));
                }
            }
            assert(entry_kept(a.entries[i as int], b.entries[i as int]));
            i = i + 1;
        }
        Ok(())
    }
}

/// Every snapshot is a successor of itself.
pub proof fn law_successor_reflexive(v: RegistryView)
    ensures
        successor_ok(v, v),
{
}

/// A successor of a successor is a successor: a chain of accepted updates
/// never loses an entry, rewrites a target or revives a tombstone.
pub proof fn law_successor_transitive(a: RegistryView, b: RegistryView, c: RegistryView)
    requires
        successor_ok(a, b),
        successor_ok(b, c),
    ensures
        successor_ok(a, c),
{
    assert forall|i: int| 0 <= i < a.entries.len() implies entry_kept(a.entries[i], #[trigger] c.entries[i]) by {
        assert(entry_kept(a.entries[i], b.entries[i]));
        assert(entry_kept(b.entries[i], c.entries[i]));
    }
}


/// `t` is allocated in the registry and active.
pub open spec fn active_target(v: RegistryView, t: SubjectView) -> bool {
    exists|j: int| 0 <= j < v.entries.len() && #[trigger] v.entries[j].target == t && v.entries[j].state is Active
}

} // verus!
