//! The checked mapping package: every entry's selector is distinct, every
//! target is active in the registry and described by the schema, exact
//! mappings are one-to-one, ambiguity lists real alternatives, and mapped
//! children agree with their mapped parents.
use super::{
    expected_kind, expected_kind_exec, target_kind, target_kind_exec, ActionAlternativeKind, ExternalOwnerSelector,
    ExternalSelector, ExternalSlotKind, MappingBasis, MappingEntry, MappingOutcome, OwnerView, SelectorView,
    SourceComponent, OWNED_MAPPING_PACKAGE_VERSION,
};
use crate::provenance::{
    has_control, has_control_exec, is_blank, is_blank_exec, sha256_hex_ok, sha256_hex_ok_exec, source_path_ok,
    source_path_ok_exec, SourcePin,
};
use crate::registry::{
    active_target, failed_with, subject_in_namespace, AddressView, DefinitionAddress, OwnedIdRegistry, OwnedMappingError,
    OwnedMappingErrorKind, OwnedMappingLimits, SchemaSubject, SlotAddress, SlotAddressView, SubjectView,
    mapping_limits_valid,
};
use crate::release::{hashes_agree, merge_files, pin_files, sorted_by_path, union_view};
use crate::text::bytes_eq;
use crate::item_lines::convert::{sum_of, lemma_sum_step, lemma_sum_mono, lemma_sum_nonneg};
use vstd::prelude::*;

verus! {

/// A mapping package as stored.
#[derive(Debug)]
pub struct MappingPackageInput {
    pub schema_version: u32,
    pub namespace: Vec<u8>,
    /// Identity of the registry snapshot the targets were allocated in.
    pub registry: Vec<u8>,
    /// Identity of the definition package the targets are described by.
    pub definitions: Vec<u8>,
    pub source: SourcePin,
    pub policy_version: Vec<u8>,
    pub entries: Vec<MappingEntry>,
}

/// A known socket-slot schema: the definition that owns it and its kind.
#[derive(Debug)]
pub struct SocketSchema {
    pub owner: DefinitionAddress,
    pub kind: u64,
}

/// A definition the schema describes; `socket` is present for a known
/// socket-slot schema.
#[derive(Debug)]
pub struct MappingDefinitionRow {
    pub address: DefinitionAddress,
    pub socket: Option<SocketSchema>,
}

/// A declared set of definition addresses.
#[derive(Debug)]
pub struct AddressSet {
    pub members: Vec<DefinitionAddress>,
    pub complete: bool,
}

/// A known action-output schema: its declared parts, modes and stat sets.
#[derive(Debug)]
pub struct OutputSchema {
    pub parts: AddressSet,
    pub modes: AddressSet,
    pub stat_sets: AddressSet,
}

/// A slot the schema describes; `output` is present for a known action output.
#[derive(Debug)]
pub struct MappingSlotRow {
    pub address: SlotAddress,
    pub output: Option<OutputSchema>,
}

/// What mapping checks read of the owned definition schema.
#[derive(Debug)]
pub struct MappingSchemaIndex {
    pub namespace: Vec<u8>,
    pub identity: Vec<u8>,
    pub definitions: Vec<MappingDefinitionRow>,
    pub slots: Vec<MappingSlotRow>,
}

/// The first definition row of `a`, from `i` on.
pub open spec fn definition_row(index: MappingSchemaIndex, a: AddressView, i: int) -> Option<int>
    decreases index.definitions@.len() - i,
{
    if i < 0 || i >= index.definitions@.len() {
        None
    } else if index.definitions@[i].address@ == a {
        Some(i)
    } else {
        definition_row(index, a, i + 1)
    }
}

/// The first slot row of `s`, from `i` on.
pub open spec fn slot_row(index: MappingSchemaIndex, s: SlotAddressView, i: int) -> Option<int>
    decreases index.slots@.len() - i,
{
    if i < 0 || i >= index.slots@.len() {
        None
    } else if index.slots@[i].address@ == s {
        Some(i)
    } else {
        slot_row(index, s, i + 1)
    }
}

fn find_definition(index: &MappingSchemaIndex, a: &DefinitionAddress) -> (r: Option<usize>)
    ensures
        match r {
            Some(i) => definition_row(*index, a@, 0) == Some(i as int) && i < index.definitions@.len(),
            None => definition_row(*index, a@, 0) is None,
        },
{
    let mut k: usize = 0;
    while k < index.definitions.len()
        invariant
            k <= index.definitions@.len(),
            definition_row(*index, a@, 0) == definition_row(*index, a@, k as int),
        decreases index.definitions@.len() - k,
    {
        if index.definitions[k].address.same(a) {
            return Some(k);
        }
        k = k + 1;
    }
    None
}

fn find_slot(index: &MappingSchemaIndex, s: &SlotAddress) -> (r: Option<usize>)
    ensures
        match r {
            Some(i) => slot_row(*index, s@, 0) == Some(i as int) && i < index.slots@.len(),
            None => slot_row(*index, s@, 0) is None,
        },
{
    let mut k: usize = 0;
    while k < index.slots.len()
        invariant
            k <= index.slots@.len(),
            slot_row(*index, s@, 0) == slot_row(*index, s@, k as int),
        decreases index.slots@.len() - k,
    {
        if index.slots[k].address.same(s) {
            return Some(k);
        }
        k = k + 1;
    }
    None
}

// ---------------------------------------------------------------------------
// Resources.

/// Resources a package uses: entries across collections, the largest
/// collection and candidate list, the longest text, and all text bytes.
#[derive(Clone, Copy, Debug)]
pub struct ResourceUse {
    pub entries: usize,
    pub largest_collection: usize,
    pub largest_candidates: usize,
    pub largest_string: usize,
    pub total_strings: usize,
}

pub open spec fn resources_within(u: ResourceUse, l: OwnedMappingLimits) -> bool {
    &&& u.entries <= l.max_entries
    &&& u.largest_collection <= l.max_collection_entries
    &&& u.largest_candidates <= l.max_candidates
    &&& u.largest_string <= l.max_string_bytes
    &&& u.total_strings <= l.max_total_string_bytes
}

pub open spec fn imax(a: int, b: int) -> int {
    if a < b {
        b
    } else {
        a
    }
}

/// A collection of `length` entries fits the per-collection bound and what
/// is left of the entry bound.
pub open spec fn collection_fits(u: ResourceUse, l: OwnedMappingLimits, length: int) -> bool {
    length <= l.max_collection_entries && u.entries + length <= l.max_entries
}

/// `v` is `u` after charging a collection of `length` entries.
pub open spec fn collection_charged(u: ResourceUse, v: ResourceUse, length: int) -> bool {
    &&& v.entries == u.entries + length
    &&& v.largest_collection == imax(u.largest_collection as int, length)
    &&& v.largest_candidates == u.largest_candidates
    &&& v.largest_string == u.largest_string
    &&& v.total_strings == u.total_strings
}

/// The text bytes of a component; a missing one has none.
pub open spec fn text_len(c: Option<Seq<u8>>) -> int {
    match c {
        Some(t) => t.len() as int,
        None => 0,
    }
}

pub open spec fn texts_total(cs: Seq<Option<Seq<u8>>>) -> int
    decreases cs.len(),
{
    if cs.len() == 0 {
        0
    } else {
        texts_total(cs.drop_last()) + text_len(cs.last())
    }
}

pub open spec fn texts_longest(cs: Seq<Option<Seq<u8>>>) -> int
    decreases cs.len(),
{
    if cs.len() == 0 {
        0
    } else {
        imax(texts_longest(cs.drop_last()), text_len(cs.last()))
    }
}

/// Every text fits the string bound, and all of them fit what is left of the
/// total text bound.
pub open spec fn texts_fit(u: ResourceUse, l: OwnedMappingLimits, cs: Seq<Option<Seq<u8>>>) -> bool {
    &&& forall|i: int| 0 <= i < cs.len() ==> #[trigger] text_len(cs[i]) <= l.max_string_bytes
    &&& u.total_strings + texts_total(cs) <= l.max_total_string_bytes
}

/// `v` is `u` after charging the texts `cs`.
pub open spec fn texts_charged(u: ResourceUse, v: ResourceUse, cs: Seq<Option<Seq<u8>>>) -> bool {
    &&& v.total_strings == u.total_strings + texts_total(cs)
    &&& v.largest_string == imax(u.largest_string as int, texts_longest(cs))
    &&& v.entries == u.entries
    &&& v.largest_collection == u.largest_collection
    &&& v.largest_candidates == u.largest_candidates
}

/// The components a selector names, owner components first.
pub open spec fn selector_texts(s: SelectorView) -> Seq<Option<Seq<u8>>> {
    match s {
        SelectorView::Definition(o) => o.components,
        SelectorView::Catalog { key, version, variant, .. } => seq![key, version, variant],
        SelectorView::Socket { owner, key, .. } => owner.components.push(key),
        SelectorView::Slot { owner, key, .. } => owner.components.push(key),
        SelectorView::ActionAlternative { owner, output, key, .. } => owner.components.push(output).push(key),
        SelectorView::Configuration { key, value, .. } => seq![key, value],
    }
}

pub open spec fn parts_view(parts: Seq<&SourceComponent>) -> Seq<Option<Seq<u8>>> {
    parts.map_values(|c: &SourceComponent| c@)
}

proof fn lemma_texts_nonnegative(cs: Seq<Option<Seq<u8>>>)
    ensures
        texts_total(cs) >= 0,
        texts_longest(cs) >= 0,
    decreases cs.len(),
{
    if cs.len() > 0 {
        lemma_texts_nonnegative(cs.drop_last());
    }
}

proof fn lemma_texts_single(c: Option<Seq<u8>>)
    ensures
        texts_total(seq![c]) == text_len(c),
        texts_longest(seq![c]) == text_len(c),
{
    let e = Seq::<Option<Seq<u8>>>::empty();
    assert(seq![c].drop_last() =~= e);
    assert(seq![c].last() == c);
    assert(texts_total(e) == 0);
    assert(texts_longest(e) == 0);
    assert(text_len(c) >= 0);
}

proof fn lemma_texts_empty(u: ResourceUse)
    ensures
        texts_charged(u, u, Seq::empty()),
{
}

proof fn lemma_texts_concat(a: Seq<Option<Seq<u8>>>, b: Seq<Option<Seq<u8>>>)
    ensures
        texts_total(a + b) == texts_total(a) + texts_total(b),
        texts_longest(a + b) == imax(texts_longest(a), texts_longest(b)),
    decreases b.len(),
{
    lemma_texts_nonnegative(a);
    if b.len() == 0 {
        assert(a + b =~= a);
    } else {
        lemma_texts_concat(a, b.drop_last());
        assert((a + b).drop_last() =~= a + b.drop_last());
        assert((a + b).last() == b.last());
    }
}

proof fn lemma_texts_prefix(u: ResourceUse, l: OwnedMappingLimits, a: Seq<Option<Seq<u8>>>, b: Seq<Option<Seq<u8>>>)
    ensures
        texts_fit(u, l, a + b) ==> texts_fit(u, l, a),
{
    lemma_texts_concat(a, b);
    lemma_texts_nonnegative(b);
    if texts_fit(u, l, a + b) {
        assert forall|i: int| 0 <= i < a.len() implies #[trigger] text_len(a[i]) <= l.max_string_bytes by {
            assert((a + b)[i] == a[i]);
        }
    }
}

proof fn lemma_texts_split(
    u: ResourceUse,
    v: ResourceUse,
    l: OwnedMappingLimits,
    a: Seq<Option<Seq<u8>>>,
    b: Seq<Option<Seq<u8>>>,
)
    requires
        texts_charged(u, v, a),
    ensures
        texts_fit(u, l, a + b) <==> texts_fit(u, l, a) && texts_fit(v, l, b),
        forall|w: ResourceUse| #[trigger] texts_charged(v, w, b) ==> texts_charged(u, w, a + b),
{
    lemma_texts_concat(a, b);
    lemma_texts_nonnegative(a);
    lemma_texts_nonnegative(b);
    if texts_fit(u, l, a) && texts_fit(v, l, b) {
        assert forall|i: int| 0 <= i < (a + b).len() implies #[trigger] text_len((a + b)[i]) <= l.max_string_bytes by {
            if i < a.len() {
                assert((a + b)[i] == a[i]);
            } else {
                assert((a + b)[i] == b[i - a.len()]);
            }
        }
    }
    if texts_fit(u, l, a + b) {
        lemma_texts_prefix(u, l, a, b);
        assert forall|i: int| 0 <= i < b.len() implies #[trigger] text_len(b[i]) <= l.max_string_bytes by {
            assert((a + b)[a.len() + i] == b[i]);
        }
    }
}

struct Budget {
    limits: OwnedMappingLimits,
    used: ResourceUse,
}

fn limit_exceeded<T>(path: &'static str) -> (r: Result<T, OwnedMappingError>)
    ensures
        failed_with(r, OwnedMappingErrorKind::LimitExceeded),
{
    Err(OwnedMappingError::Invalid { path, kind: OwnedMappingErrorKind::LimitExceeded })
}

fn refuse<T>(path: &'static str, kind: OwnedMappingErrorKind) -> (r: Result<T, OwnedMappingError>)
    ensures
        failed_with(r, kind),
{
    Err(OwnedMappingError::Invalid { path, kind })
}

impl Budget {
    spec fn wf(self) -> bool {
        resources_within(self.used, self.limits)
    }

    fn new(limits: OwnedMappingLimits) -> (r: Result<Budget, OwnedMappingError>)
        ensures
            r is Ok <==> mapping_limits_valid(limits),
            r matches Ok(b) ==> b.wf() && b.limits == limits && b.used == no_use(),
            r is Err ==> failed_with(r, OwnedMappingErrorKind::InvalidLimit),
    {
        limits.validate()?;
        Ok(Budget {
            limits,
            used: ResourceUse { entries: 0, largest_collection: 0, largest_candidates: 0, largest_string: 0, total_strings: 0 },
        })
    }

    fn collection(&mut self, path: &'static str, length: usize) -> (r: Result<(), OwnedMappingError>)
        requires
            old(self).wf(),
        ensures
            final(self).wf(),
            final(self).limits == old(self).limits,
            r is Ok <==> collection_fits(old(self).used, old(self).limits, length as int),
            r is Ok ==> collection_charged(old(self).used, final(self).used, length as int),
            r is Err ==> *final(self) == *old(self),
            r is Err ==> failed_with(r, OwnedMappingErrorKind::LimitExceeded),
    {
        if length > self.limits.max_collection_entries || length > self.limits.max_entries - self.used.entries {
            return limit_exceeded(path);
        }
        self.used.entries = self.used.entries + length;
        if length > self.used.largest_collection {
            self.used.largest_collection = length;
        }
        Ok(())
    }

    fn text(&mut self, path: &'static str, text: &[u8]) -> (r: Result<(), OwnedMappingError>)
        requires
            old(self).wf(),
        ensures
            final(self).wf(),
            final(self).limits == old(self).limits,
            r is Ok <==> texts_fit(old(self).used, old(self).limits, seq![Some(text@)]),
            r is Ok ==> texts_charged(old(self).used, final(self).used, seq![Some(text@)]),
            r is Err ==> *final(self) == *old(self),
            r is Err ==> failed_with(r, OwnedMappingErrorKind::LimitExceeded),
    {
        proof {
            lemma_texts_single(Some(text@));
        }
        if text.len() > self.limits.max_string_bytes || text.len() > self.limits.max_total_string_bytes
            - self.used.total_strings {
            return limit_exceeded(path);
        }
        self.used.total_strings = self.used.total_strings + text.len();
        if text.len() > self.used.largest_string {
            self.used.largest_string = text.len();
        }
        Ok(())
    }

    fn component(&mut self, path: &'static str, c: &SourceComponent) -> (r: Result<(), OwnedMappingError>)
        requires
            old(self).wf(),
        ensures
            final(self).wf(),
            final(self).limits == old(self).limits,
            r is Ok <==> texts_fit(old(self).used, old(self).limits, seq![c@]),
            r is Ok ==> texts_charged(old(self).used, final(self).used, seq![c@]),
            r is Err ==> failed_with(r, OwnedMappingErrorKind::LimitExceeded),
    {
        proof {
            lemma_texts_single(c@);
        }
        match c {
            SourceComponent::Text(t) => self.text(path, t.as_slice()),
            SourceComponent::Missing => Ok(()),
        }
    }

    /// Charge each component's text in turn.
    fn components(&mut self, path: &'static str, parts: &Vec<&SourceComponent>) -> (r: Result<(), OwnedMappingError>)
        requires
            old(self).wf(),
        ensures
            final(self).wf(),
            final(self).limits == old(self).limits,
            r is Ok <==> texts_fit(old(self).used, old(self).limits, parts_view(parts@)),
            r is Ok ==> texts_charged(old(self).used, final(self).used, parts_view(parts@)),
            r is Err ==> failed_with(r, OwnedMappingErrorKind::LimitExceeded),
    {
        let ghost all = parts_view(parts@);
        let ghost start = self.used;
        proof {
            assert(all.take(0) =~= Seq::<Option<Seq<u8>>>::empty());
            lemma_texts_empty(start);
        }
        let mut k: usize = 0;
        while k < parts.len()
            invariant
                k <= parts@.len(),
                all == parts_view(parts@),
                start == old(self).used,
                self.wf(),
                self.limits == old(self).limits,
                texts_fit(start, self.limits, all.take(k as int)),
                texts_charged(start, self.used, all.take(k as int)),
            decreases parts@.len() - k,
        {
            let ghost before = self.used;
            let ghost c = parts@[k as int]@;
            proof {
                assert(all.take(k as int + 1) =~= all.take(k as int) + seq![c]);
                lemma_texts_split(start, before, self.limits, all.take(k as int), seq![c]);
                assert(all =~= all.take(k as int + 1) + all.skip(k as int + 1));
                lemma_texts_prefix(start, self.limits, all.take(k as int + 1), all.skip(k as int + 1));
            }
            self.component(path, parts[k])?;
            k = k + 1;
        }
        proof {
            assert(all.take(k as int) =~= all);
        }
        Ok(())
    }

    fn owner(&mut self, path: &'static str, owner: &ExternalOwnerSelector) -> (r: Result<(), OwnedMappingError>)
        requires
            old(self).wf(),
        ensures
            final(self).wf(),
            final(self).limits == old(self).limits,
            r is Ok <==> texts_fit(old(self).used, old(self).limits, owner@.components),
            r is Ok ==> texts_charged(old(self).used, final(self).used, owner@.components),
            r is Err ==> failed_with(r, OwnedMappingErrorKind::LimitExceeded),
    {
        let parts = owner.components();
        proof {
            assert(parts_view(parts@) =~= owner@.components);
        }
        self.components(path, &parts)
    }

    fn selector(&mut self, path: &'static str, s: &ExternalSelector) -> (r: Result<(), OwnedMappingError>)
        requires
            old(self).wf(),
        ensures
            final(self).wf(),
            final(self).limits == old(self).limits,
            r is Ok <==> texts_fit(old(self).used, old(self).limits, selector_texts(s@)),
            r is Ok ==> texts_charged(old(self).used, final(self).used, selector_texts(s@)),
            r is Err ==> failed_with(r, OwnedMappingErrorKind::LimitExceeded),
    {
        let parts: Vec<&SourceComponent> = match s {
            ExternalSelector::Definition(o) => o.components(),
            ExternalSelector::Catalog { key, version, variant, .. } => vec![key, version, variant],
            ExternalSelector::Socket { owner, key, .. } => {
                let mut v = owner.components();
                v.push(key);
                v
            },
            ExternalSelector::Slot { owner, key, .. } => {
                let mut v = owner.components();
                v.push(key);
                v
            },
            ExternalSelector::ActionAlternative { owner, output, key, .. } => {
                let mut v = owner.components();
                v.push(output);
                v.push(key);
                v
            },
            ExternalSelector::Configuration { key, value, .. } => vec![key, value],
        };
        proof {
            assert(parts_view(parts@) =~= selector_texts(s@));
        }
        self.components(path, &parts)
    }
}

// ---------------------------------------------------------------------------
// Source pins.

/// A source pin names a nonblank revision without control characters and at
/// least one file; each file has an acceptable path, distinct from the
/// others, and a SHA-256 digest.
pub open spec fn pin_ok(p: SourcePin) -> bool {
    &&& !is_blank(p.revision@)
    &&& !has_control(p.revision@)
    &&& p.files@.len() > 0
    &&& forall|i: int| 0 <= i < p.files@.len() ==> #[trigger] source_path_ok(p.files@[i].path@)
    &&& forall|i: int, j: int| 0 <= i < j < p.files@.len() ==> p.files@[i].path@ != p.files@[j].path@
    &&& forall|i: int| 0 <= i < p.files@.len() ==> #[trigger] sha256_hex_ok(p.files@[i].sha256@)
}

/// The texts of pinned files, path then digest, in order.
pub open spec fn files_texts(fs: Seq<crate::provenance::SourceFilePin>) -> Seq<Option<Seq<u8>>>
    decreases fs.len(),
{
    if fs.len() == 0 {
        seq![]
    } else {
        files_texts(fs.drop_last()) + seq![Some(fs.last().path@), Some(fs.last().sha256@)]
    }
}

proof fn lemma_files_texts_concat(a: Seq<crate::provenance::SourceFilePin>, b: Seq<crate::provenance::SourceFilePin>)
    ensures
        files_texts(a + b) == files_texts(a) + files_texts(b),
    decreases b.len(),
{
    if b.len() == 0 {
        assert(a + b =~= a);
        assert(files_texts(a) + files_texts(b) =~= files_texts(a));
    } else {
        lemma_files_texts_concat(a, b.drop_last());
        assert((a + b).drop_last() =~= a + b.drop_last());
        assert((a + b).last() == b.last());
        let t = seq![Some(b.last().path@), Some(b.last().sha256@)];
        assert(files_texts(a) + files_texts(b.drop_last()) + t =~= files_texts(a) + (files_texts(b.drop_last()) + t));
    }
}

/// The texts a source pin is charged: its revision, then each file's path
/// and digest.
pub open spec fn pin_texts(p: SourcePin) -> Seq<Option<Seq<u8>>> {
    seq![Some(p.revision@)] + files_texts(p.files@)
}

/// A source pin fits what is left of the limits after `u`.
pub open spec fn pin_fits(u: ResourceUse, l: OwnedMappingLimits, p: SourcePin) -> bool {
    texts_fit(u, l, pin_texts(p)) && collection_fits(u, l, p.files@.len() as int)
}

/// `v` is `u` after charging the source pin `p`.
pub open spec fn pin_charged(u: ResourceUse, v: ResourceUse, p: SourcePin) -> bool {
    &&& v.entries == u.entries + p.files@.len()
    &&& v.largest_collection == imax(u.largest_collection as int, p.files@.len() as int)
    &&& v.largest_candidates == u.largest_candidates
    &&& v.total_strings == u.total_strings + texts_total(pin_texts(p))
    &&& v.largest_string == imax(u.largest_string as int, texts_longest(pin_texts(p)))
}

/// Nothing charged yet.
pub open spec fn no_use() -> ResourceUse {
    ResourceUse { entries: 0, largest_collection: 0, largest_candidates: 0, largest_string: 0, total_strings: 0 }
}

impl Budget {
    fn pin(&mut self, pin: &SourcePin) -> (r: Result<(), OwnedMappingError>)
        requires
            old(self).wf(),
        ensures
            final(self).wf(),
            final(self).limits == old(self).limits,
            r is Ok <==> pin_ok(*pin) && pin_fits(old(self).used, old(self).limits, *pin),
            r is Ok ==> pin_charged(old(self).used, final(self).used, *pin),
            r is Ok ==> pin_ok(*pin),
            r is Err ==> failed_with(r, OwnedMappingErrorKind::LimitExceeded) || (!pin_ok(*pin) && (failed_with(
                r,
                OwnedMappingErrorKind::InvalidSourcePin,
            ) || failed_with(r, OwnedMappingErrorKind::InvalidDigest))),
    {
        let ghost u0 = self.used;
        let ghost rev = seq![Some(pin.revision@)];
        let ghost ft = files_texts(pin.files@);
        proof {
            lemma_texts_single(Some(pin.revision@));
            lemma_texts_prefix(u0, self.limits, rev, ft);
        }
        self.text("source.revision", pin.revision.as_slice())?;
        let ghost u1 = self.used;
        proof {
            lemma_texts_split(u0, u1, self.limits, rev, ft);
        }
        if is_blank_exec(pin.revision.as_slice()) || has_control_exec(pin.revision.as_slice()) || pin.files.len() == 0 {
            return refuse("source", OwnedMappingErrorKind::InvalidSourcePin);
        }
        self.collection("source.files", pin.files.len())?;
        let ghost u2 = self.used;
        proof {
            lemma_texts_empty(u2);
            assert(pin.files@.take(0) =~= Seq::<crate::provenance::SourceFilePin>::empty());
        }
        let files = &pin.files;
        let mut k: usize = 0;
        while k < files.len()
            invariant
                k <= files@.len(),
                files == &pin.files,
                self.wf(),
                self.limits == old(self).limits,
                u0 == old(self).used,
                texts_charged(u0, u1, rev),
                collection_charged(u1, u2, pin.files@.len() as int),
                collection_fits(u1, self.limits, pin.files@.len() as int),
                texts_fit(u0, self.limits, rev + ft) <==> texts_fit(u0, self.limits, rev) && texts_fit(u1, self.limits, ft),
                forall|w: ResourceUse| #[trigger] texts_charged(u1, w, ft) ==> texts_charged(u0, w, rev + ft),
                ft == files_texts(pin.files@),
                rev == seq![Some(pin.revision@)],
                texts_fit(u0, self.limits, rev),
                texts_fit(u2, self.limits, files_texts(pin.files@.take(k as int))),
                texts_charged(u2, self.used, files_texts(pin.files@.take(k as int))),
                !is_blank(pin.revision@),
                !has_control(pin.revision@),
                pin.files@.len() > 0,
                forall|i: int| 0 <= i < k ==> #[trigger] source_path_ok(files@[i].path@),
                forall|i: int, j: int| 0 <= i < j < k ==> files@[i].path@ != files@[j].path@,
                forall|i: int| 0 <= i < k ==> #[trigger] sha256_hex_ok(files@[i].sha256@),
            decreases files@.len() - k,
        {
            let f = &files[k];
            let ghost before = self.used;
            let ghost pre = files_texts(pin.files@.take(k as int));
            let ghost rest = files_texts(pin.files@);
            proof {
                let t = pin.files@.take(k as int + 1);
                assert(t.drop_last() =~= pin.files@.take(k as int));
                assert(files_texts(t) == pre + seq![Some(f.path@), Some(f.sha256@)]);
                assert(pin.files@ =~= t + pin.files@.skip(k as int + 1));
                lemma_files_texts_concat(t, pin.files@.skip(k as int + 1));
                lemma_texts_prefix(u2, self.limits, files_texts(t), files_texts(pin.files@.skip(k as int + 1)));
                lemma_texts_prefix(before, self.limits, seq![Some(f.path@)], seq![Some(f.sha256@)]);
                lemma_texts_split(u2, before, self.limits, pre, seq![Some(f.path@), Some(f.sha256@)]);
                assert(seq![Some(f.path@), Some(f.sha256@)] =~= seq![Some(f.path@)] + seq![Some(f.sha256@)]);
                lemma_texts_single(Some(f.path@));
                lemma_texts_single(Some(f.sha256@));
            }
            if let Err(e) = self.text("source.files.path", f.path.as_slice()) {
                proof {
                    assert(!texts_fit(before, self.limits, seq![Some(f.path@)]));
                    assert(!texts_fit(before, self.limits, seq![Some(f.path@), Some(f.sha256@)]));
                    assert(!texts_fit(u2, self.limits, files_texts(pin.files@.take(k as int + 1))));
                    assert(!texts_fit(u2, self.limits, ft));
                    assert(!texts_fit(u1, self.limits, ft));
                }
                return Err(e);
            }
            let ghost mid = self.used;
            proof {
                lemma_texts_split(before, mid, self.limits, seq![Some(f.path@)], seq![Some(f.sha256@)]);
            }
            self.text("source.files.sha256", f.sha256.as_slice())?;
            if !source_path_ok_exec(f.path.as_slice()) {
                return refuse("source.files.path", OwnedMappingErrorKind::InvalidSourcePin);
            }
            let mut q: usize = 0;
            while q < k
                invariant
                    q <= k < files@.len(),
                    files == &pin.files,
                    *f == files@[k as int],
                    self.wf(),
                    self.limits == old(self).limits,
                    forall|i: int| 0 <= i < q ==> files@[i].path@ != files@[k as int].path@,
                decreases k - q,
            {
                if bytes_eq(files[q].path.as_slice(), f.path.as_slice()) {
                    return refuse("source.files.path", OwnedMappingErrorKind::InvalidSourcePin);
                }
                q = q + 1;
            }
            if !sha256_hex_ok_exec(f.sha256.as_slice()) {
                return refuse("source.files.sha256", OwnedMappingErrorKind::InvalidDigest);
            }
            k = k + 1;
        }
        proof {
            assert(pin.files@.take(k as int) =~= pin.files@);
            lemma_texts_concat(rev, ft);
        }
        Ok(())
    }
}

// ---------------------------------------------------------------------------
// Targets.

/// A target is acceptable for a selector: of the expected kind, owned by the
/// selector's owner kind when both are slots, active in the registry, and
/// described by the schema; a known socket schema agrees with a socket
/// selector's owner kind and socket kind.
pub open spec fn target_ok(s: SelectorView, t: SubjectView, registry: crate::registry::RegistryView, index: MappingSchemaIndex) -> bool {
    &&& expected_kind(s) == target_kind(t)
    &&& (s matches SelectorView::Slot { owner, .. } ==> t matches SubjectView::Slot(a) ==> owner.kind
        == a.declaration.domain)
    &&& subject_in_namespace(t, registry.namespace)
    &&& active_target(registry, t)
    &&& match t {
        SubjectView::Definition(a) => match definition_row(index, a, 0) {
            None => false,
            Some(i) => match index.definitions@[i].socket {
                Some(schema) => (s matches SelectorView::Socket { owner, kind, .. } ==> owner.kind == schema.owner@.domain
                    && kind == schema.kind),
                None => true,
            },
        },
        SubjectView::Slot(a) => slot_row(index, a, 0) is Some,
    }
}

fn check_target(
    source: &ExternalSelector,
    target: &SchemaSubject,
    registry: &OwnedIdRegistry,
    index: &MappingSchemaIndex,
) -> (r: Result<(), OwnedMappingError>)
    ensures
        r is Ok <==> target_ok(source@, target@, registry@, *index),
        r is Err ==> r matches Err(OwnedMappingError::Invalid { .. }),
        !failed_with(r, OwnedMappingErrorKind::LimitExceeded),
{
    if expected_kind_exec(source) != target_kind_exec(target) {
        return refuse("mapping.target", OwnedMappingErrorKind::WrongTargetKind);
    }
    if let (ExternalSelector::Slot { owner, .. }, SchemaSubject::Slot(address)) = (source, target) {
        if owner.kind() != address.declaration.domain {
            return refuse("mapping.target.owner", OwnedMappingErrorKind::WrongTargetOwner);
        }
    }
    match registry.require_active(target) {
        Ok(()) => {},
        Err(OwnedMappingError::Invalid { path, kind }) => {
            return Err(OwnedMappingError::Invalid { path, kind });
        },
        Err(OwnedMappingError::UnsupportedVersion { .. }) => {
            return refuse("mapping.target", OwnedMappingErrorKind::UnknownRegistryTarget);
        },
    }
    match target {
        SchemaSubject::Definition(address) => {
            let i = match find_definition(index, address) {
                Some(i) => i,
                None => {
                    return refuse("mapping.target", OwnedMappingErrorKind::MissingSchemaTarget);
                },
            };
            if let (ExternalSelector::Socket { owner, kind, .. }, Some(schema)) = (source, &index.definitions[i].socket) {
                if owner.kind() != schema.owner.domain {
                    return refuse("mapping.target.owner", OwnedMappingErrorKind::WrongTargetOwner);
                }
                if *kind != schema.kind {
                    return refuse("mapping.target.socket_kind", OwnedMappingErrorKind::WrongSocketKind);
                }
            }
            Ok(())
        },
        SchemaSubject::Slot(address) => {
            match find_slot(index, address) {
                Some(_) => Ok(()),
                None => refuse("mapping.target", OwnedMappingErrorKind::MissingSchemaTarget),
            }
        },
    }
}

// ---------------------------------------------------------------------------
// Packages.

pub open spec fn selectors_distinct(es: Seq<MappingEntry>) -> bool {
    forall|i: int, j: int| 0 <= i < j < es.len() ==> es[i].source@ != es[j].source@
}

pub open spec fn subjects_distinct(c: Seq<SchemaSubject>) -> bool {
    forall|i: int, j: int| 0 <= i < j < c.len() ==> c[i]@ != c[j]@
}

/// An entry's outcome is acceptable: a mapped target fits its selector, and
/// an ambiguous entry lists at least two distinct fitting candidates.
pub open spec fn entry_ok(
    e: MappingEntry,
    registry: crate::registry::RegistryView,
    index: MappingSchemaIndex,
    limits: OwnedMappingLimits,
) -> bool {
    match e.outcome {
        MappingOutcome::Mapped { target, .. } => target_ok(e.source@, target@, registry, index),
        MappingOutcome::Ambiguous { candidates, .. } => {
            &&& 2 <= candidates@.len() <= limits.max_candidates
            &&& forall|k: int| 0 <= k < candidates@.len() ==> #[trigger] target_ok(e.source@, candidates@[k]@, registry, index)
            &&& subjects_distinct(candidates@)
        },
        MappingOutcome::Unmapped { .. } => true,
    }
}

/// The target of an exact mapping.
pub open spec fn exact_target(e: MappingEntry) -> Option<SubjectView> {
    match e.outcome {
        MappingOutcome::Mapped { target, basis: MappingBasis::Exact } => Some(target@),
        _ => None,
    }
}

/// No two exact mappings share a target: aliases must be reviewed.
pub open spec fn exact_one_to_one(es: Seq<MappingEntry>) -> bool {
    forall|i: int, j: int| 0 <= i < j < es.len() && exact_target(es[i]) is Some ==> exact_target(es[i]) != exact_target(es[j])
}

/// The package names the schema's and the registry's namespace and the
/// identities of the registry snapshot and the definition package.
pub open spec fn bindings_ok(
    input: MappingPackageInput,
    registry: crate::registry::RegistryView,
    registry_identity: Seq<u8>,
    index: MappingSchemaIndex,
) -> bool {
    &&& input.namespace@ == index.namespace@
    &&& input.namespace@ == registry.namespace
    &&& input.registry@ == registry_identity
    &&& input.definitions@ == index.identity@
}

fn check_bindings(
    input: &MappingPackageInput,
    registry: &OwnedIdRegistry,
    registry_identity: &[u8],
    index: &MappingSchemaIndex,
) -> (r: Result<(), OwnedMappingError>)
    ensures
        r is Ok <==> bindings_ok(*input, registry@, registry_identity@, *index),
        r is Err ==> failed_with(r, OwnedMappingErrorKind::ForeignNamespace) || failed_with(
            r,
            OwnedMappingErrorKind::RegistryBindingMismatch,
        ) || failed_with(r, OwnedMappingErrorKind::SchemaBindingMismatch),
{
    if !bytes_eq(input.namespace.as_slice(), index.namespace.as_slice()) || !bytes_eq(
        input.namespace.as_slice(),
        registry.input().namespace.as_slice(),
    ) {
        return refuse("mapping.namespace", OwnedMappingErrorKind::ForeignNamespace);
    }
    if !bytes_eq(input.registry.as_slice(), registry_identity) {
        return refuse("mapping.registry", OwnedMappingErrorKind::RegistryBindingMismatch);
    }
    if !bytes_eq(input.definitions.as_slice(), index.identity.as_slice()) {
        return refuse("mapping.definitions", OwnedMappingErrorKind::SchemaBindingMismatch);
    }
    Ok(())
}

/// Exact mappings bound to one registry snapshot, definition package and
/// source pin.
#[derive(Debug)]
pub struct OwnedMappingIndex {
    input: MappingPackageInput,
    resources: ResourceUse,
}

impl OwnedMappingIndex {
    #[verifier::type_invariant]
    spec fn wf(self) -> bool {
        &&& selectors_distinct(self.input.entries@)
        &&& sorted_by_path(pin_files(self.input.source))
    }

    pub closed spec fn spec_input(self) -> MappingPackageInput {
        self.input
    }

    pub closed spec fn spec_resources(self) -> ResourceUse {
        self.resources
    }

    /// The checked package; its source files are sorted by path.
    pub fn input(&self) -> (r: &MappingPackageInput)
        ensures
            *r == self.spec_input(),
            selectors_distinct(r.entries@),
            sorted_by_path(pin_files(r.source)),
    {
        proof {
            use_type_invariant(self);
        }
        &self.input
    }

    /// The resources the package uses.
    pub fn resources(&self) -> (r: ResourceUse)
        ensures
            r == self.spec_resources(),
    {
        self.resources
    }

    /// The outcome recorded for `selector`, if any.
    pub fn lookup(&self, selector: &ExternalSelector) -> (r: Option<&MappingOutcome>)
        ensures
            match r {
                Some(o) => exists|i: int|
                    0 <= i < self.spec_input().entries@.len() && #[trigger] self.spec_input().entries@[i].source@
                        == selector@ && self.spec_input().entries@[i].outcome == *o,
                None => forall|i: int|
                    0 <= i < self.spec_input().entries@.len() ==> #[trigger] self.spec_input().entries@[i].source@
                        != selector@,
            },
    {
        let es = &self.input.entries;
        let mut k: usize = 0;
        while k < es.len()
            invariant
                k <= es@.len(),
                es == &self.spec_input().entries,
                forall|i: int| 0 <= i < k ==> #[trigger] es@[i].source@ != selector@,
            decreases es@.len() - k,
        {
            if es[k].source.same(selector) {
                return Some(&es[k].outcome);
            }
            k = k + 1;
        }
        None
    }

    /// Check that the package fits `limits`.
    pub fn validate_limits(&self, limits: OwnedMappingLimits) -> (r: Result<(), OwnedMappingError>)
        ensures
            r is Ok <==> mapping_limits_valid(limits) && resources_within(self.spec_resources(), limits),
            !mapping_limits_valid(limits) ==> failed_with(r, OwnedMappingErrorKind::InvalidLimit),
            mapping_limits_valid(limits) && !resources_within(self.spec_resources(), limits) ==> failed_with(
                r,
                OwnedMappingErrorKind::LimitExceeded,
            ),
    {
        limits.validate()?;
        let u = self.resources;
        if u.entries > limits.max_entries || u.largest_collection > limits.max_collection_entries
            || u.largest_candidates > limits.max_candidates || u.largest_string > limits.max_string_bytes
            || u.total_strings > limits.max_total_string_bytes {
            return limit_exceeded("mapping.resources");
        }
        Ok(())
    }
}

fn exact_target_exec(e: &MappingEntry) -> (r: Option<&SchemaSubject>)
    ensures
        match r {
            Some(t) => exact_target(*e) == Some(t@),
            None => exact_target(*e) is None,
        },
{
    match &e.outcome {
        MappingOutcome::Mapped { target, basis: MappingBasis::Exact } => Some(target),
        _ => None,
    }
}

/// Everything the package must satisfy besides its coherence with parents.
pub open spec fn entries_ok(
    input: MappingPackageInput,
    registry: crate::registry::RegistryView,
    index: MappingSchemaIndex,
    limits: OwnedMappingLimits,
) -> bool {
    &&& selectors_distinct(input.entries@)
    &&& forall|i: int| 0 <= i < input.entries@.len() ==> #[trigger] entry_ok(input.entries@[i], registry, index, limits)
    &&& exact_one_to_one(input.entries@)
}

impl Budget {
    fn candidates(&mut self, n: usize) -> (r: Result<(), OwnedMappingError>)
        requires
            old(self).wf(),
            n <= old(self).limits.max_candidates,
        ensures
            final(self).wf(),
            final(self).limits == old(self).limits,
            r is Ok <==> collection_fits(old(self).used, old(self).limits, n as int),
            r is Ok ==> final(self).used == (ResourceUse {
                entries: (old(self).used.entries + n) as usize,
                largest_collection: imax(old(self).used.largest_collection as int, n as int) as usize,
                largest_candidates: imax(old(self).used.largest_candidates as int, n as int) as usize,
                ..old(self).used
            }),
            r is Err ==> *final(self) == *old(self),
            r is Err ==> failed_with(r, OwnedMappingErrorKind::LimitExceeded),
    {
        self.collection("mapping.entries.candidates", n)?;
        if n > self.used.largest_candidates {
            self.used.largest_candidates = n;
        }
        Ok(())
    }
}

fn check_entry(
    es: &Vec<MappingEntry>,
    k: usize,
    registry: &OwnedIdRegistry,
    index: &MappingSchemaIndex,
    budget: &mut Budget,
) -> (r: Result<(), OwnedMappingError>)
    requires
        k < es@.len(),
        old(budget).wf(),
    ensures
        final(budget).wf(),
        final(budget).limits == old(budget).limits,
        r is Ok ==> entry_ok(es@[k as int], registry@, *index, old(budget).limits) && (forall|q: int|
            0 <= q < k && exact_target(es@[q]) is Some ==> exact_target(es@[q]) != exact_target(es@[k as int])),
        r is Err ==> r matches Err(OwnedMappingError::Invalid { .. }),
        r matches Err(OwnedMappingError::Invalid { kind, .. }) ==> kind == OwnedMappingErrorKind::LimitExceeded || !entry_ok(
            es@[k as int],
            registry@,
            *index,
            old(budget).limits,
        ) || exists|q: int| 0 <= q < k && exact_target(es@[q]) is Some && exact_target(es@[q]) == exact_target(es@[k as int]),
        final(budget).used.entries <= old(budget).used.entries + cand_len(es@[k as int]),
        final(budget).used.total_strings == old(budget).used.total_strings,
        final(budget).used.largest_string == old(budget).used.largest_string,
        failed_with(r, OwnedMappingErrorKind::LimitExceeded) ==> !collection_fits(
            old(budget).used,
            old(budget).limits,
            cand_len(es@[k as int]),
        ) || cand_len(es@[k as int]) > old(budget).limits.max_candidates,
{
    let e = &es[k];
    match &e.outcome {
        MappingOutcome::Mapped { target, basis } => {
            check_target(&e.source, target, registry, index)?;
            if let MappingBasis::Exact = basis {
                let mut q: usize = 0;
                while q < k
                    invariant
                        q <= k < es@.len(),
                        *e == es@[k as int],
                        budget.wf(),
                        *budget == *old(budget),
                        budget.limits == old(budget).limits,
                        target_ok(e.source@, target@, registry@, *index),
                        exact_target(es@[k as int]) == Some(target@),
                        forall|p: int| 0 <= p < q && exact_target(es@[p]) is Some ==> exact_target(es@[p]) != exact_target(es@[k as int]),
                    decreases k - q,
                {
                    if let Some(t) = exact_target_exec(&es[q]) {
                        if t.same(target) {
                            return refuse("mapping.entries", OwnedMappingErrorKind::UnreviewedAlias);
                        }
                    }
                    q = q + 1;
                }
            }
            Ok(())
        },
        MappingOutcome::Ambiguous { candidates, .. } => {
            if candidates.len() < 2 {
                return refuse("mapping.entries", OwnedMappingErrorKind::TooFewCandidates);
            }
            if candidates.len() > budget.limits.max_candidates {
                return limit_exceeded("mapping.entries");
            }
            budget.candidates(candidates.len())?;
            let ghost bu = *budget;
            let mut c: usize = 0;
            while c < candidates.len()
                invariant
                    c <= candidates@.len(),
                    *e == es@[k as int],
                    (match es@[k as int].outcome {
                        MappingOutcome::Ambiguous { candidates: cs, .. } => cs@ == candidates@,
                        _ => false,
                    }),
                    budget.wf(),
                    *budget == bu,
                    bu.used.entries <= old(budget).used.entries + cand_len(es@[k as int]),
                    bu.used.total_strings == old(budget).used.total_strings,
                    bu.used.largest_string == old(budget).used.largest_string,
                    budget.limits == old(budget).limits,
                    2 <= candidates@.len() <= budget.limits.max_candidates,
                    forall|p: int| 0 <= p < c ==> #[trigger] target_ok(e.source@, candidates@[p]@, registry@, *index),
                decreases candidates@.len() - c,
            {
                let checked = check_target(&e.source, &candidates[c], registry, index);
                if checked.is_err() {
                    return checked;
                }
                c = c + 1;
            }
            let mut a: usize = 0;
            while a < candidates.len()
                invariant
                    a <= candidates@.len(),
                    *e == es@[k as int],
                    (match es@[k as int].outcome {
                        MappingOutcome::Ambiguous { candidates: cs, .. } => cs@ == candidates@,
                        _ => false,
                    }),
                    budget.wf(),
                    *budget == bu,
                    bu.used.entries <= old(budget).used.entries + cand_len(es@[k as int]),
                    bu.used.total_strings == old(budget).used.total_strings,
                    bu.used.largest_string == old(budget).used.largest_string,
                    budget.limits == old(budget).limits,
                    2 <= candidates@.len() <= budget.limits.max_candidates,
                    forall|p: int| 0 <= p < candidates@.len() ==> #[trigger] target_ok(e.source@, candidates@[p]@, registry@, *index),
                    forall|i: int, j: int| 0 <= i < j < candidates@.len() && i < a ==> candidates@[i]@ != candidates@[j]@,
                decreases candidates@.len() - a,
            {
                let mut b: usize = a + 1;
                while b < candidates.len()
                    invariant
                        a < b <= candidates@.len(),
                        (match es@[k as int].outcome {
                            MappingOutcome::Ambiguous { candidates: cs, .. } => cs@ == candidates@,
                            _ => false,
                        }),
                        budget.wf(),
                    *budget == bu,
                    bu.used.entries <= old(budget).used.entries + cand_len(es@[k as int]),
                    bu.used.total_strings == old(budget).used.total_strings,
                    bu.used.largest_string == old(budget).used.largest_string,
                        budget.limits == old(budget).limits,
                        forall|i: int, j: int| 0 <= i < j < candidates@.len() && i < a ==> candidates@[i]@ != candidates@[j]@,
                        forall|j: int| a < j < b ==> candidates@[a as int]@ != candidates@[j]@,
                    decreases candidates@.len() - b,
                {
                    if candidates[a].same(&candidates[b]) {
                        return refuse("mapping.entries", OwnedMappingErrorKind::DuplicateCandidate);
                    }
                    b = b + 1;
                }
                a = a + 1;
            }
            Ok(())
        },
        MappingOutcome::Unmapped { .. } => Ok(()),
    }
}

fn check_selectors_distinct(es: &Vec<MappingEntry>) -> (r: Result<(), OwnedMappingError>)
    ensures
        r is Ok <==> selectors_distinct(es@),
        r is Err ==> failed_with(r, OwnedMappingErrorKind::DuplicateSelector),
{
    let mut a: usize = 0;
    while a < es.len()
        invariant
            a <= es@.len(),
            forall|i: int, j: int| 0 <= i < j < es@.len() && i < a ==> es@[i].source@ != es@[j].source@,
        decreases es@.len() - a,
    {
        let mut b: usize = a + 1;
        while b < es.len()
            invariant
                a < b <= es@.len(),
                forall|i: int, j: int| 0 <= i < j < es@.len() && i < a ==> es@[i].source@ != es@[j].source@,
                forall|j: int| a < j < b ==> es@[a as int].source@ != es@[j].source@,
            decreases es@.len() - b,
        {
            if es[a].source.same(&es[b].source) {
                return refuse("mapping.entries", OwnedMappingErrorKind::DuplicateSelector);
            }
            b = b + 1;
        }
        a = a + 1;
    }
    Ok(())
}

// ---------------------------------------------------------------------------
// Coherence with mapped parents.

/// The first entry whose selector is `s`, from `i` on.
pub open spec fn entry_of(es: Seq<MappingEntry>, s: SelectorView, i: int) -> Option<int>
    decreases es.len() - i,
{
    if i < 0 || i >= es.len() {
        None
    } else if es[i].source@ == s {
        Some(i)
    } else {
        entry_of(es, s, i + 1)
    }
}

/// The target the package maps `s` to, if an entry maps it.
pub open spec fn mapped_for(es: Seq<MappingEntry>, s: SelectorView) -> Option<SubjectView> {
    match entry_of(es, s, 0) {
        Some(i) => match es[i].outcome {
            MappingOutcome::Mapped { target, .. } => Some(target@),
            _ => None,
        },
        None => None,
    }
}

/// For a mapped slot or socket: the owner its selector names, and the owner
/// definition its target declares (for a socket, the one its known schema
/// names).
pub open spec fn claimed_owner(e: MappingEntry, index: MappingSchemaIndex) -> Option<(OwnerView, AddressView)> {
    match e.outcome {
        MappingOutcome::Mapped { target, .. } => match (e.source@, target@) {
            (SelectorView::Slot { owner, .. }, SubjectView::Slot(a)) => Some((owner, a.declaration)),
            (SelectorView::Socket { owner, .. }, SubjectView::Definition(a)) => match definition_row(index, a, 0) {
                Some(i) => match index.definitions@[i].socket {
                    Some(schema) => Some((owner, schema.owner@)),
                    None => None,
                },
                None => None,
            },
            _ => None,
        },
        _ => None,
    }
}

/// A mapped child agrees with the mapping of its owner, where the owner is mapped.
pub open spec fn parent_ok(e: MappingEntry, es: Seq<MappingEntry>, index: MappingSchemaIndex) -> bool {
    match claimed_owner(e, index) {
        Some((o, d)) => match mapped_for(es, SelectorView::Definition(o)) {
            Some(m) => m == SubjectView::Definition(d),
            None => true,
        },
        None => true,
    }
}

/// The declared alternatives of one kind in an action-output schema.
pub open spec fn output_members(schema: OutputSchema, kind: ActionAlternativeKind) -> AddressSet {
    match kind {
        ActionAlternativeKind::Part => schema.parts,
        ActionAlternativeKind::Mode => schema.modes,
        ActionAlternativeKind::StatSet => schema.stat_sets,
    }
}

/// The action output an alternative selector belongs to.
pub open spec fn output_selector(owner: OwnerView, output: Option<Seq<u8>>) -> SelectorView {
    SelectorView::Slot { owner, kind: ExternalSlotKind::ActionOutput, key: output }
}

/// A mapped action alternative whose output is mapped lies in that output's
/// declared alternatives when the schema declares them completely.
pub open spec fn topology_ok(e: MappingEntry, es: Seq<MappingEntry>, index: MappingSchemaIndex) -> bool {
    match e.outcome {
        MappingOutcome::Mapped { target, .. } => match e.source@ {
            SelectorView::ActionAlternative { owner, output, kind, .. } => match mapped_for(
                es,
                output_selector(owner, output),
            ) {
                Some(SubjectView::Slot(a)) => match slot_row(index, a, 0) {
                    None => false,
                    Some(i) => match index.slots@[i].output {
                        Some(schema) => output_members(schema, kind).complete ==> (target@ matches SubjectView::Definition(
                            t,
                        ) ==> exists|j: int|
                            0 <= j < output_members(schema, kind).members@.len() && #[trigger] output_members(
                                schema,
                                kind,
                            ).members@[j]@ == t),
                        None => true,
                    },
                },
                _ => true,
            },
            _ => true,
        },
        _ => true,
    }
}

/// Every entry agrees with its mapped parents.
pub open spec fn coherent(es: Seq<MappingEntry>, index: MappingSchemaIndex) -> bool {
    forall|i: int| 0 <= i < es.len() ==> #[trigger] parent_ok(es[i], es, index) && topology_ok(es[i], es, index)
}

fn mapped_target_exec<'a>(es: &'a Vec<MappingEntry>, s: &ExternalSelector) -> (r: Option<&'a SchemaSubject>)
    ensures
        match r {
            Some(t) => mapped_for(es@, s@) == Some(t@),
            None => mapped_for(es@, s@) is None,
        },
{
    let mut k: usize = 0;
    while k < es.len()
        invariant
            k <= es@.len(),
            entry_of(es@, s@, 0) == entry_of(es@, s@, k as int),
        decreases es@.len() - k,
    {
        if es[k].source.same(s) {
            return match &es[k].outcome {
                MappingOutcome::Mapped { target, .. } => Some(target),
                _ => None,
            };
        }
        k = k + 1;
    }
    None
}

fn members_of(schema: &OutputSchema, kind: ActionAlternativeKind) -> (r: &AddressSet)
    ensures
        *r == output_members(*schema, kind),
{
    match kind {
        ActionAlternativeKind::Part => &schema.parts,
        ActionAlternativeKind::Mode => &schema.modes,
        ActionAlternativeKind::StatSet => &schema.stat_sets,
    }
}

fn check_parent(es: &Vec<MappingEntry>, k: usize, index: &MappingSchemaIndex) -> (r: Result<(), OwnedMappingError>)
    requires
        k < es@.len(),
    ensures
        r is Ok <==> parent_ok(es@[k as int], es@, *index),
        r is Err ==> failed_with(r, OwnedMappingErrorKind::WrongTargetOwner),
{
    let e = &es[k];
    let target = match &e.outcome {
        MappingOutcome::Mapped { target, .. } => target,
        _ => {
            return Ok(());
        },
    };
    let claimed: Option<(&ExternalOwnerSelector, &DefinitionAddress)> = match (&e.source, target) {
        (ExternalSelector::Slot { owner, .. }, SchemaSubject::Slot(a)) => Some((owner, &a.declaration)),
        (ExternalSelector::Socket { owner, .. }, SchemaSubject::Definition(a)) => match find_definition(index, a) {
            Some(i) => match &index.definitions[i].socket {
                Some(schema) => Some((owner, &schema.owner)),
                None => None,
            },
            None => None,
        },
        _ => None,
    };
    match claimed {
        Some((owner, declared)) => {
            let parent = ExternalSelector::Definition(owner.duplicate());
            match mapped_target_exec(es, &parent) {
                Some(m) => match m {
                    SchemaSubject::Definition(d) => {
                        if d.same(declared) {
                            Ok(())
                        } else {
                            refuse("mapping.parent", OwnedMappingErrorKind::WrongTargetOwner)
                        }
                    },
                    SchemaSubject::Slot(_) => refuse("mapping.parent", OwnedMappingErrorKind::WrongTargetOwner),
                },
                None => Ok(()),
            }
        },
        None => Ok(()),
    }
}

fn contains_address(set: &AddressSet, t: &DefinitionAddress) -> (r: bool)
    ensures
        r <==> exists|j: int| 0 <= j < set.members@.len() && #[trigger] set.members@[j]@ == t@,
{
    let mut j: usize = 0;
    while j < set.members.len()
        invariant
            j <= set.members@.len(),
            forall|q: int| 0 <= q < j ==> #[trigger] set.members@[q]@ != t@,
        decreases set.members@.len() - j,
    {
        if set.members[j].same(t) {
            return true;
        }
        j = j + 1;
    }
    false
}

fn check_topology(
    es: &Vec<MappingEntry>,
    k: usize,
    index: &MappingSchemaIndex,
    budget: &mut Budget,
    charged: &mut Vec<(usize, ActionAlternativeKind)>,
) -> (r: Result<(), OwnedMappingError>)
    requires
        k < es@.len(),
        old(budget).wf(),
    ensures
        final(budget).wf(),
        final(budget).limits == old(budget).limits,
        r is Ok ==> topology_ok(es@[k as int], es@, *index),
        r is Err ==> failed_with(r, OwnedMappingErrorKind::LimitExceeded) || (!topology_ok(es@[k as int], es@, *index) && (
        failed_with(r, OwnedMappingErrorKind::MissingSchemaTarget) || failed_with(
            r,
            OwnedMappingErrorKind::WrongOutputTopology,
        ))),
        final(budget).used.entries <= old(budget).used.entries + topo_len(es@[k as int], es@, *index),
        final(budget).used.total_strings == old(budget).used.total_strings,
        final(budget).used.largest_string == old(budget).used.largest_string,
        failed_with(r, OwnedMappingErrorKind::LimitExceeded) ==> !collection_fits(
            old(budget).used,
            old(budget).limits,
            topo_len(es@[k as int], es@, *index),
        ),
{
    let e = &es[k];
    let target = match &e.outcome {
        MappingOutcome::Mapped { target, .. } => target,
        _ => {
            return Ok(());
        },
    };
    let (owner, output, kind) = match &e.source {
        ExternalSelector::ActionAlternative { owner, output, kind, .. } => (owner, output, *kind),
        _ => {
            return Ok(());
        },
    };
    let parent = ExternalSelector::Slot { owner: owner.duplicate(), kind: ExternalSlotKind::ActionOutput, key: output.duplicate() };
    let address = match mapped_target_exec(es, &parent) {
        Some(SchemaSubject::Slot(a)) => a,
        _ => {
            return Ok(());
        },
    };
    let i = match find_slot(index, address) {
        Some(i) => i,
        None => {
            return refuse("mapping.parent_output", OwnedMappingErrorKind::MissingSchemaTarget);
        },
    };
    let schema = match &index.slots[i].output {
        Some(schema) => schema,
        None => {
            return Ok(());
        },
    };
    let set = members_of(schema, kind);
    if !set.complete {
        return Ok(());
    }
    let mut seen = false;
    let mut c: usize = 0;
    while c < charged.len()
        invariant
            c <= charged@.len(),
        decreases charged@.len() - c,
    {
        if charged[c].0 == i && charged[c].1 == kind {
            seen = true;
        }
        c = c + 1;
    }
    if !seen {
        budget.collection("mapping.output_topology", set.members.len())?;
        charged.push((i, kind));
    }
    match target {
        SchemaSubject::Definition(t) => {
            if contains_address(set, t) {
                Ok(())
            } else {
                refuse("mapping.parent_output", OwnedMappingErrorKind::WrongOutputTopology)
            }
        },
        SchemaSubject::Slot(_) => Ok(()),
    }
}

#[verifier::spinoff_prover]
#[verifier::rlimit(40)]
fn check_coherence(es: &Vec<MappingEntry>, index: &MappingSchemaIndex, budget: &mut Budget) -> (r: Result<(), OwnedMappingError>)
    requires
        old(budget).wf(),
    ensures
        final(budget).wf(),
        final(budget).limits == old(budget).limits,
        r is Ok ==> coherent(es@, *index),
        r is Err ==> failed_with(r, OwnedMappingErrorKind::LimitExceeded) || !coherent(es@, *index),
        r is Err ==> r matches Err(OwnedMappingError::Invalid { .. }),
        final(budget).used.total_strings == old(budget).used.total_strings,
        final(budget).used.largest_string == old(budget).used.largest_string,
        (forall|k: int| 0 <= k < es@.len() ==> #[trigger] topo_len(es@[k], es@, *index) <= old(budget).limits.max_collection_entries)
            && old(budget).used.entries + sum_of(es@, |e: MappingEntry| topo_len(e, es@, *index))
            <= old(budget).limits.max_entries ==> !failed_with(r, OwnedMappingErrorKind::LimitExceeded),
{
    let ghost ts = es@;
    let ghost tf = |e: MappingEntry| topo_len(e, es@, *index);
    proof {
        assert forall|x: MappingEntry| #[trigger] tf(x) >= 0 by {}
        assert(ts.take(0) =~= Seq::<MappingEntry>::empty());
        assert(ts.take(ts.len() as int) =~= ts);
        lemma_sum_mono(ts, tf, 0, ts.len() as int);
    }
    let mut charged: Vec<(usize, ActionAlternativeKind)> = Vec::new();
    let mut k: usize = 0;
    while k < es.len()
        invariant
            k <= es@.len(),
            budget.wf(),
            budget.limits == old(budget).limits,
            ts == es@,
            ts.take(ts.len() as int) == ts,
            tf == (|e: MappingEntry| topo_len(e, es@, *index)),
            forall|x: MappingEntry| #[trigger] tf(x) >= 0,
            0 <= sum_of(ts.take(k as int), tf) <= sum_of(ts, tf),
            budget.used.entries <= old(budget).used.entries + sum_of(ts.take(k as int), tf),
            budget.used.total_strings == old(budget).used.total_strings,
            budget.used.largest_string == old(budget).used.largest_string,
            forall|i: int| 0 <= i < k ==> #[trigger] parent_ok(es@[i], es@, *index),
            forall|i: int| 0 <= i < k ==> #[trigger] topology_ok(es@[i], es@, *index),
        decreases es@.len() - k,
    {
        let p = check_parent(es, k, index);
        if p.is_err() {
            assert(!(parent_ok(es@[k as int], es@, *index) && topology_ok(es@[k as int], es@, *index)));
            return p;
        }
        proof {
            lemma_sum_step(ts, tf, k as int);
            lemma_sum_mono(ts, tf, k as int + 1, ts.len() as int);
        }
        let t = check_topology(es, k, index, budget, &mut charged);
        if t.is_err() {
            proof {
                if !failed_with(t, OwnedMappingErrorKind::LimitExceeded) {
                    assert(!(parent_ok(es@[k as int], es@, *index) && topology_ok(es@[k as int], es@, *index)));
                }
            }
            return t;
        }
        k = k + 1;
    }
    Ok(())
}

/// Candidates an ambiguous entry is charged as a collection.
pub open spec fn cand_len(e: MappingEntry) -> int {
    match e.outcome {
        MappingOutcome::Ambiguous { candidates, .. } => candidates@.len() as int,
        _ => 0,
    }
}

/// The complete output member set an action alternative is checked against,
/// charged as a collection the first time its slot and kind are met.
pub open spec fn topo_len(e: MappingEntry, es: Seq<MappingEntry>, index: MappingSchemaIndex) -> int {
    match e.outcome {
        MappingOutcome::Mapped { .. } => match e.source@ {
            SelectorView::ActionAlternative { owner, output, kind, .. } => match mapped_for(
                es,
                output_selector(owner, output),
            ) {
                Some(SubjectView::Slot(a)) => match slot_row(index, a, 0) {
                    Some(i) => match index.slots@[i].output {
                        Some(schema) => if output_members(schema, kind).complete {
                            output_members(schema, kind).members@.len() as int
                        } else {
                            0
                        },
                        None => 0,
                    },
                    None => 0,
                },
                _ => 0,
            },
            _ => 0,
        },
        _ => 0,
    }
}

/// The texts `f` gives each item, one after another.
pub open spec fn flat_texts<T>(s: Seq<T>, f: spec_fn(T) -> Seq<Option<Seq<u8>>>) -> Seq<Option<Seq<u8>>>
    decreases s.len(),
{
    if s.len() == 0 {
        seq![]
    } else {
        flat_texts(s.drop_last(), f) + f(s.last())
    }
}

proof fn lemma_flat_texts_concat<T>(a: Seq<T>, b: Seq<T>, f: spec_fn(T) -> Seq<Option<Seq<u8>>>)
    ensures
        flat_texts(a + b, f) == flat_texts(a, f) + flat_texts(b, f),
    decreases b.len(),
{
    if b.len() == 0 {
        assert(a + b =~= a);
        assert(flat_texts(a, f) + flat_texts(b, f) =~= flat_texts(a, f));
    } else {
        lemma_flat_texts_concat(a, b.drop_last(), f);
        assert((a + b).drop_last() =~= a + b.drop_last());
        assert((a + b).last() == b.last());
        let t = f(b.last());
        assert(flat_texts(a, f) + flat_texts(b.drop_last(), f) + t =~= flat_texts(a, f) + (flat_texts(
            b.drop_last(),
            f,
        ) + t));
    }
}

/// The texts of every entry's selector, in entry order.
pub open spec fn selectors_texts(es: Seq<MappingEntry>) -> Seq<Option<Seq<u8>>> {
    flat_texts(es, |e: MappingEntry| selector_texts(e.source@))
}

proof fn lemma_texts_fit_shift(
    u: ResourceUse,
    v: ResourceUse,
    l: OwnedMappingLimits,
    a: Seq<Option<Seq<u8>>>,
    b: Seq<Option<Seq<u8>>>,
)
    requires
        v.total_strings == u.total_strings + texts_total(a),
        texts_fit(u, l, a + b),
    ensures
        texts_fit(v, l, b),
{
    lemma_texts_concat(a, b);
    assert forall|i: int| 0 <= i < b.len() implies #[trigger] text_len(b[i]) <= l.max_string_bytes by {
        assert((a + b)[a.len() + i] == b[i]);
    }
}

/// Every text a package is charged: its source pin, then its selectors.
pub open spec fn package_texts(input: MappingPackageInput) -> Seq<Option<Seq<u8>>> {
    pin_texts(input.source) + selectors_texts(input.entries@)
}

/// Every collection a package is charged fits the limits: the entry list,
/// the pinned files, each ambiguous entry's candidates and each complete
/// output member set, singly and in total, and its texts.
pub open spec fn package_fits(input: MappingPackageInput, index: MappingSchemaIndex, l: OwnedMappingLimits) -> bool {
    let es = input.entries@;
    &&& es.len() <= l.max_collection_entries
    &&& input.source.files@.len() <= l.max_collection_entries
    &&& forall|k: int| 0 <= k < es.len() ==> #[trigger] cand_len(es[k]) <= l.max_collection_entries
    &&& forall|k: int| 0 <= k < es.len() ==> #[trigger] topo_len(es[k], es, index) <= l.max_collection_entries
    &&& es.len() + input.source.files@.len() + sum_of(es, |e: MappingEntry| cand_len(e)) + sum_of(
        es,
        |e: MappingEntry| topo_len(e, es, index),
    ) <= l.max_entries
    &&& texts_fit(no_use(), l, package_texts(input))
}

/// Everything a package must satisfy to be accepted.
pub open spec fn package_ok(
    input: MappingPackageInput,
    registry: crate::registry::RegistryView,
    registry_identity: Seq<u8>,
    index: MappingSchemaIndex,
    limits: OwnedMappingLimits,
) -> bool {
    &&& input.schema_version == OWNED_MAPPING_PACKAGE_VERSION
    &&& bindings_ok(input, registry, registry_identity, index)
    &&& pin_ok(input.source)
    &&& entries_ok(input, registry, index, limits)
    &&& coherent(input.entries@, index)
}

proof fn lemma_distinct_paths_agree(p: SourcePin)
    requires
        forall|i: int, j: int| 0 <= i < j < p.files@.len() ==> p.files@[i].path@ != p.files@[j].path@,
    ensures
        hashes_agree(Seq::empty() + pin_files(p)),
{
    let f = pin_files(p);
    assert(Seq::empty() + f =~= f);
    assert forall|i: int, j: int| 0 <= i < f.len() && 0 <= j < f.len() && #[trigger] f[i].0 == #[trigger] f[j].0 implies f[i].1
        == f[j].1 by {
        if i < j {
            assert(p.files@[i].path@ != p.files@[j].path@);
        } else if j < i {
            assert(p.files@[j].path@ != p.files@[i].path@);
        }
    }
}

impl OwnedMappingIndex {
    /// Check a mapping package against the registry snapshot whose identity is
    /// `registry_identity` and against the definition schema, and keep it with
    /// its source files sorted by path. A valid package whose collections and
    /// texts fit the limits is accepted; output member sets are counted in
    /// `package_fits` each time an entry reaches them, an upper bound on what
    /// is charged, since each set is charged once.
    #[verifier::spinoff_prover]
    #[verifier::rlimit(80)]
    pub fn new(
        input: MappingPackageInput,
        registry: &OwnedIdRegistry,
        registry_identity: &[u8],
        index: &MappingSchemaIndex,
        limits: OwnedMappingLimits,
    ) -> (r: Result<Self, OwnedMappingError>)
        ensures
            match r {
                Ok(m) => {
                    &&& package_ok(input, registry@, registry_identity@, *index, limits)
                    &&& m.spec_input().schema_version == input.schema_version
                    &&& m.spec_input().namespace == input.namespace
                    &&& m.spec_input().registry == input.registry
                    &&& m.spec_input().definitions == input.definitions
                    &&& m.spec_input().policy_version == input.policy_version
                    &&& m.spec_input().entries == input.entries
                    &&& m.spec_input().source.system == input.source.system
                    &&& m.spec_input().source.revision == input.source.revision
                    &&& sorted_by_path(pin_files(m.spec_input().source))
                    &&& pin_files(m.spec_input().source).to_set() == pin_files(input.source).to_set()
                    &&& resources_within(m.spec_resources(), limits)
                },
                Err(OwnedMappingError::UnsupportedVersion { version }) => {
                    &&& mapping_limits_valid(limits)
                    &&& version == input.schema_version
                    &&& input.schema_version != OWNED_MAPPING_PACKAGE_VERSION
                },
                Err(OwnedMappingError::Invalid { kind, .. }) => {
                    ||| kind == OwnedMappingErrorKind::InvalidLimit && !mapping_limits_valid(limits)
                    ||| mapping_limits_valid(limits) && kind == OwnedMappingErrorKind::LimitExceeded
                    ||| mapping_limits_valid(limits) && !package_ok(
                        input,
                        registry@,
                        registry_identity@,
                        *index,
                        limits,
                    )
                },
            },
            !mapping_limits_valid(limits) ==> failed_with(r, OwnedMappingErrorKind::InvalidLimit),
            mapping_limits_valid(limits) && package_ok(input, registry@, registry_identity@, *index, limits)
                && package_fits(input, *index, limits) ==> r is Ok,
    {
        let ghost ok = mapping_limits_valid(limits) && package_ok(input, registry@, registry_identity@, *index, limits)
            && package_fits(input, *index, limits);
        let ghost ies = input.entries@;
        let ghost cf = |e: MappingEntry| cand_len(e);
        let ghost tf = |e: MappingEntry| topo_len(e, input.entries@, *index);
        let ghost sel = selectors_texts(input.entries@);
        let ghost fsel = |e: MappingEntry| selector_texts(e.source@);
        proof {
            assert forall|x: MappingEntry| #[trigger] cf(x) >= 0 by {}
            assert forall|x: MappingEntry| #[trigger] tf(x) >= 0 by {}
            lemma_sum_nonneg(ies, cf);
            lemma_sum_nonneg(ies, tf);
            assert(ies.take(0) =~= Seq::<MappingEntry>::empty());
            assert(ies.take(ies.len() as int) =~= ies);
            lemma_sum_mono(ies, cf, 0, ies.len() as int);
            if ok {
                lemma_texts_prefix(no_use(), limits, pin_texts(input.source), sel);
            }
        }
        let mut budget = Budget::new(limits)?;
        if input.schema_version != OWNED_MAPPING_PACKAGE_VERSION {
            return Err(OwnedMappingError::UnsupportedVersion { version: input.schema_version });
        }
        check_bindings(&input, registry, registry_identity, index)?;
        budget.collection("mapping.entries", input.entries.len())?;
        let ghost u1 = budget.used;
        budget.pin(&input.source)?;
        let ghost u2 = budget.used;
        proof {
            lemma_texts_empty(u2);
            if ok {
                lemma_texts_fit_shift(no_use(), u2, limits, pin_texts(input.source), sel);
            }
        }
        let es = &input.entries;
        let mut k: usize = 0;
        while k < es.len()
            invariant
                k <= es@.len(),
                es@ == input.entries@,
                mapping_limits_valid(limits),
                budget.wf(),
                budget.limits == limits,
                ies == es@,
                sel == flat_texts(ies, fsel),
                fsel == (|e: MappingEntry| selector_texts(e.source@)),
                ok ==> texts_fit(u2, limits, sel),
                ok == (mapping_limits_valid(limits) && package_ok(input, registry@, registry_identity@, *index, limits)
                    && package_fits(input, *index, limits)),
                texts_fit(u2, limits, flat_texts(ies.take(k as int), fsel)),
                texts_charged(u2, budget.used, flat_texts(ies.take(k as int), fsel)),
            decreases es@.len() - k,
        {
            proof {
                let t = ies.take(k as int + 1);
                assert(t.drop_last() =~= ies.take(k as int));
                assert(t.last() == ies[k as int]);
                assert(ies =~= t + ies.skip(k as int + 1));
                lemma_flat_texts_concat(t, ies.skip(k as int + 1), fsel);
                lemma_texts_prefix(u2, limits, flat_texts(t, fsel), flat_texts(ies.skip(k as int + 1), fsel));
                lemma_texts_split(u2, budget.used, limits, flat_texts(ies.take(k as int), fsel), fsel(ies[k as int]));
            }
            let ghost bu = budget.used;
            if let Err(e) = budget.selector("mapping.entries.source", &es[k].source) {
                proof {
                    assert(!texts_fit(bu, limits, fsel(ies[k as int])));
                    assert(!texts_fit(u2, limits, flat_texts(ies.take(k as int + 1), fsel)));
                    let t = ies.take(k as int + 1);
                    assert(flat_texts(ies, fsel) == flat_texts(t, fsel) + flat_texts(ies.skip(k as int + 1), fsel));
                    assert(sel == flat_texts(t, fsel) + flat_texts(ies.skip(k as int + 1), fsel));
                    assert(!texts_fit(u2, limits, sel));
                }
                return Err(e);
            }
            k = k + 1;
        }
        proof {
            assert(ies.take(k as int) =~= ies);
        }
        let ghost u3 = budget.used;
        check_selectors_distinct(es)?;
        let mut k: usize = 0;
        while k < es.len()
            invariant
                k <= es@.len(),
                es@ == input.entries@,
                mapping_limits_valid(limits),
                budget.wf(),
                budget.limits == limits,
                forall|i: int| 0 <= i < k ==> #[trigger] entry_ok(es@[i], registry@, *index, limits),
                forall|i: int, j: int|
                    0 <= i < j < k && exact_target(es@[i]) is Some ==> exact_target(es@[i]) != exact_target(es@[j]),
                ies == es@,
                ies.take(ies.len() as int) == ies,
                cf == (|e: MappingEntry| cand_len(e)),
                forall|x: MappingEntry| #[trigger] cf(x) >= 0,
                tf == (|e: MappingEntry| topo_len(e, input.entries@, *index)),
                sum_of(ies, tf) >= 0,
                ok == (mapping_limits_valid(limits) && package_ok(input, registry@, registry_identity@, *index, limits)
                    && package_fits(input, *index, limits)),
                0 <= sum_of(ies.take(k as int), cf) <= sum_of(ies, cf),
                budget.used.entries <= u3.entries + sum_of(ies.take(k as int), cf),
                u3.entries == ies.len() + input.source.files@.len(),
                budget.used.total_strings == u3.total_strings,
                budget.used.largest_string == u3.largest_string,
            decreases es@.len() - k,
        {
            proof {
                lemma_sum_step(ies, cf, k as int);
                lemma_sum_mono(ies, cf, k as int + 1, ies.len() as int);
            }
            let checked = check_entry(es, k, registry, index, &mut budget);
            if checked.is_err() {
                proof {
                    if ok {
                        assert(cf(ies[k as int]) == cand_len(es@[k as int]));
                        assert(entry_ok(es@[k as int], registry@, *index, limits));
                    }
                    if !failed_with(checked, OwnedMappingErrorKind::LimitExceeded) {
                        if entry_ok(es@[k as int], registry@, *index, limits) {
                            let q = choose|q: int|
                                0 <= q < k && exact_target(es@[q]) is Some && exact_target(es@[q]) == exact_target(
                                    es@[k as int],
                                );
                            assert(!exact_one_to_one(es@));
                        }
                        assert(!entries_ok(input, registry@, *index, limits));
                    }
                }
                return Err(checked.unwrap_err());
            }
            k = k + 1;
        }
        proof {
            assert(ies.take(k as int) =~= ies);
        }
        check_coherence(es, index, &mut budget)?;
        let mut files: Vec<crate::provenance::SourceFilePin> = Vec::new();
        proof {
            lemma_distinct_paths_agree(input.source);
            assert(union_view(files@) =~= Seq::<(Seq<u8>, Seq<u8>)>::empty());
            assert(union_view(input.source.files@) =~= pin_files(input.source));
        }
        merge_files(&mut files, &input.source.files, Ghost(Seq::empty()));
        let MappingPackageInput { schema_version, namespace, registry: registry_key, definitions, source, policy_version, entries } = input;
        let SourcePin { system, revision, files: _ } = source;
        let kept = MappingPackageInput {
            schema_version,
            namespace,
            registry: registry_key,
            definitions,
            source: SourcePin { system, revision, files },
            policy_version,
            entries,
        };
        proof {
            assert(pin_files(kept.source) =~= union_view(files@));
            assert(Seq::<(Seq<u8>, Seq<u8>)>::empty() + pin_files(input.source) =~= pin_files(input.source));
        }
        Ok(OwnedMappingIndex { input: kept, resources: budget.used })
    }
}

/// A source pin binds a stored one: the same system, revision and files.
pub open spec fn source_binds(stored: SourcePin, given: SourcePin) -> bool {
    &&& stored.system == given.system
    &&& stored.revision@ == given.revision@
    &&& pin_files(given).to_set() == pin_files(stored).to_set()
}

proof fn lemma_distinct_paths_no_duplicates(p: SourcePin)
    requires
        forall|i: int, j: int| 0 <= i < j < p.files@.len() ==> p.files@[i].path@ != p.files@[j].path@,
    ensures
        pin_files(p).no_duplicates(),
        pin_files(p).to_set().len() == p.files@.len(),
{
    let f = pin_files(p);
    assert forall|i: int, j: int| 0 <= i < f.len() && 0 <= j < f.len() && i != j implies f[i] != f[j] by {
        if i < j {
            assert(p.files@[i].path@ != p.files@[j].path@);
        } else {
            assert(p.files@[j].path@ != p.files@[i].path@);
        }
    }
    assert(f.no_duplicates());
    f.unique_seq_to_set();
}

proof fn lemma_sorted_paths_distinct(p: SourcePin)
    requires
        sorted_by_path(pin_files(p)),
    ensures
        forall|i: int, j: int| 0 <= i < j < p.files@.len() ==> p.files@[i].path@ != p.files@[j].path@,
{
    assert forall|i: int, j: int| 0 <= i < j < p.files@.len() implies p.files@[i].path@ != p.files@[j].path@ by {
        assert(crate::gems::lex_lt(pin_files(p)[i].0, pin_files(p)[j].0));
        crate::release::lemma_lex_lt_irreflexive(p.files@[i].path@, 0);
    }
}

fn find_file(files: &Vec<crate::provenance::SourceFilePin>, path: &[u8], sha256: &[u8]) -> (r: bool)
    ensures
        r <==> exists|j: int| 0 <= j < files@.len() && #[trigger] files@[j].path@ == path@ && files@[j].sha256@ == sha256@,
{
    let mut j: usize = 0;
    while j < files.len()
        invariant
            j <= files@.len(),
            forall|q: int| 0 <= q < j ==> !(#[trigger] files@[q].path@ == path@ && files@[q].sha256@ == sha256@),
        decreases files@.len() - j,
    {
        if bytes_eq(files[j].path.as_slice(), path) && bytes_eq(files[j].sha256.as_slice(), sha256) {
            return true;
        }
        j = j + 1;
    }
    false
}

/// Whether `given`, a valid pin, names the stored pin's system, revision and files.
fn check_source_binds(stored: &SourcePin, given: &SourcePin) -> (r: bool)
    requires
        sorted_by_path(pin_files(*stored)),
        pin_ok(*given),
    ensures
        r <==> source_binds(*stored, *given),
{
    proof {
        lemma_sorted_paths_distinct(*stored);
        lemma_distinct_paths_no_duplicates(*stored);
        lemma_distinct_paths_no_duplicates(*given);
    }
    let ghost fs = pin_files(*stored);
    let ghost fg = pin_files(*given);
    if stored.system != given.system || !bytes_eq(stored.revision.as_slice(), given.revision.as_slice()) {
        return false;
    }
    if stored.files.len() != given.files.len() {
        assert(fg.to_set().len() != fs.to_set().len());
        return false;
    }
    let mut k: usize = 0;
    while k < given.files.len()
        invariant
            k <= given.files@.len(),
            fs == pin_files(*stored),
            fg == pin_files(*given),
            forall|i: int| 0 <= i < k ==> fs.contains(#[trigger] fg[i]),
        decreases given.files@.len() - k,
    {
        let f = &given.files[k];
        if !find_file(&stored.files, f.path.as_slice(), f.sha256.as_slice()) {
            proof {
                assert(fg[k as int] == (f.path@, f.sha256@));
                if fs.contains(fg[k as int]) {
                    let j = choose|j: int| 0 <= j < fs.len() && fs[j] == fg[k as int];
                    assert(stored.files@[j].path@ == f.path@ && stored.files@[j].sha256@ == f.sha256@);
                }
                assert(fg.to_set().contains(fg[k as int]));
                assert(!fs.to_set().contains(fg[k as int]));
            }
            return false;
        }
        proof {
            let j = choose|j: int|
                0 <= j < stored.files@.len() && #[trigger] stored.files@[j].path@ == f.path@ && stored.files@[j].sha256@
                    == f.sha256@;
            assert(fs[j] == fg[k as int]);
        }
        k = k + 1;
    }
    proof {
        assert(fg.to_set().subset_of(fs.to_set()));
        vstd::set_lib::lemma_subset_equality(fg.to_set(), fs.to_set());
    }
    true
}

impl OwnedMappingIndex {
    /// Check that the package still binds the given registry snapshot, schema,
    /// normalization policy and source pin, within `limits`. Equal pins bind
    /// evidence; they do not show that the source bytes were fetched.
    pub fn verify_bindings(
        &self,
        registry: &OwnedIdRegistry,
        registry_identity: &[u8],
        index: &MappingSchemaIndex,
        source: &SourcePin,
        policy_version: &[u8],
        limits: OwnedMappingLimits,
    ) -> (r: Result<(), OwnedMappingError>)
        ensures
            r is Ok ==> {
                &&& mapping_limits_valid(limits)
                &&& resources_within(self.spec_resources(), limits)
                &&& bindings_ok(self.spec_input(), registry@, registry_identity@, *index)
                &&& self.spec_input().policy_version@ == policy_version@
                &&& pin_ok(*source)
                &&& source_binds(self.spec_input().source, *source)
            },
            !mapping_limits_valid(limits) ==> failed_with(r, OwnedMappingErrorKind::InvalidLimit),
            mapping_limits_valid(limits) && !resources_within(self.spec_resources(), limits) ==> failed_with(
                r,
                OwnedMappingErrorKind::LimitExceeded,
            ),
            mapping_limits_valid(limits) && resources_within(self.spec_resources(), limits) && !bindings_ok(
                self.spec_input(),
                registry@,
                registry_identity@,
                *index,
            ) ==> r is Err,
            mapping_limits_valid(limits) && resources_within(self.spec_resources(), limits) && bindings_ok(
                self.spec_input(),
                registry@,
                registry_identity@,
                *index,
            ) && self.spec_input().policy_version@ != policy_version@ ==> failed_with(
                r,
                OwnedMappingErrorKind::PolicyBindingMismatch,
            ),
            failed_with(r, OwnedMappingErrorKind::SourceBindingMismatch) ==> pin_ok(*source) && !source_binds(
                self.spec_input().source,
                *source,
            ),
            r is Err ==> r matches Err(OwnedMappingError::Invalid { .. }),
            mapping_limits_valid(limits) && resources_within(self.spec_resources(), limits) && bindings_ok(
                self.spec_input(),
                registry@,
                registry_identity@,
                *index,
            ) && self.spec_input().policy_version@ == policy_version@ && pin_ok(*source) && pin_fits(
                no_use(),
                limits,
                *source,
            ) && source_binds(self.spec_input().source, *source) ==> r is Ok,
            mapping_limits_valid(limits) && resources_within(self.spec_resources(), limits) && bindings_ok(
                self.spec_input(),
                registry@,
                registry_identity@,
                *index,
            ) && self.spec_input().policy_version@ == policy_version@ && pin_ok(*source) && !pin_fits(
                no_use(),
                limits,
                *source,
            ) ==> failed_with(r, OwnedMappingErrorKind::LimitExceeded),
    {
        proof {
            use_type_invariant(self);
        }
        self.validate_limits(limits)?;
        check_bindings(&self.input, registry, registry_identity, index)?;
        if !bytes_eq(self.input.policy_version.as_slice(), policy_version) {
            return refuse("mapping.policy_version", OwnedMappingErrorKind::PolicyBindingMismatch);
        }
        let mut budget = Budget::new(limits)?;
        budget.pin(source)?;
        if !check_source_binds(&self.input.source, source) {
            return refuse("mapping.source", OwnedMappingErrorKind::SourceBindingMismatch);
        }
        Ok(())
    }
}

} // verus!
