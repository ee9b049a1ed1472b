//! Exact external identity mappings: each external source selector maps to
//! one owned target, several reviewed candidates, or nothing. Mapping an
//! identity never establishes schema or rule coverage.
use crate::registry::{DefinitionAddress, DefinitionDomain, SchemaSubject, SlotDomain, SubjectView};
use crate::text::{bytes_eq, copy_bytes};
use vstd::prelude::*;

pub mod index;

verus! {

/// The only mapping package schema version this library reads.
pub const OWNED_MAPPING_PACKAGE_VERSION: u32 = 1;

/// Exact lexical source evidence; a missing value differs from empty text.
#[derive(Debug)]
pub enum SourceComponent {
    Missing,
    Text(Vec<u8>),
}

impl View for SourceComponent {
    type V = Option<Seq<u8>>;

    open spec fn view(&self) -> Option<Seq<u8>> {
        match self {
            SourceComponent::Missing => None,
            SourceComponent::Text(t) => Some(t@),
        }
    }
}

impl SourceComponent {
    pub fn same(&self, other: &SourceComponent) -> (r: bool)
        ensures
            r == (self@ == other@),
    {
        match (self, other) {
            (SourceComponent::Missing, SourceComponent::Missing) => true,
            (SourceComponent::Text(a), SourceComponent::Text(b)) => bytes_eq(a.as_slice(), b.as_slice()),
            _ => false,
        }
    }

    pub fn duplicate(&self) -> (r: SourceComponent)
        ensures
            r@ == self@,
    {
        match self {
            SourceComponent::Missing => SourceComponent::Missing,
            SourceComponent::Text(t) => SourceComponent::Text(copy_bytes(t.as_slice())),
        }
    }
}

/// The external selector of a definition that owns slots or sockets.
#[derive(Debug)]
pub enum ExternalOwnerSelector {
    Class { key: SourceComponent },
    Ascendancy { class: SourceComponent, key: SourceComponent },
    Reward { key: SourceComponent },
    ItemTemplate { base: SourceComponent, prototype: SourceComponent, variant: SourceComponent },
    Modifier { catalog: SourceComponent, key: SourceComponent, variant: SourceComponent },
    Gem { game_id: SourceComponent, variant_id: SourceComponent },
    Skill { effect_id: SourceComponent },
    PassiveNode { tree_version: SourceComponent, node_id: SourceComponent, view: SourceComponent },
    UsagePolicy { key: SourceComponent, version: SourceComponent },
}

/// An owner selector's kind and its components, in declaration order.
pub struct OwnerView {
    pub kind: DefinitionDomain,
    pub components: Seq<Option<Seq<u8>>>,
}

impl View for ExternalOwnerSelector {
    type V = OwnerView;

    open spec fn view(&self) -> OwnerView {
        match self {
            ExternalOwnerSelector::Class { key } => OwnerView { kind: DefinitionDomain::Class, components: seq![key@] },
            ExternalOwnerSelector::Ascendancy { class, key } => OwnerView {
                kind: DefinitionDomain::Ascendancy,
                components: seq![class@, key@],
            },
            ExternalOwnerSelector::Reward { key } => OwnerView { kind: DefinitionDomain::Reward, components: seq![key@] },
            ExternalOwnerSelector::ItemTemplate { base, prototype, variant } => OwnerView {
                kind: DefinitionDomain::ItemTemplate,
                components: seq![base@, prototype@, variant@],
            },
            ExternalOwnerSelector::Modifier { catalog, key, variant } => OwnerView {
                kind: DefinitionDomain::Modifier,
                components: seq![catalog@, key@, variant@],
            },
            ExternalOwnerSelector::Gem { game_id, variant_id } => OwnerView {
                kind: DefinitionDomain::Gem,
                components: seq![game_id@, variant_id@],
            },
            ExternalOwnerSelector::Skill { effect_id } => OwnerView {
                kind: DefinitionDomain::Skill,
                components: seq![effect_id@],
            },
            ExternalOwnerSelector::PassiveNode { tree_version, node_id, view } => OwnerView {
                kind: DefinitionDomain::PassiveNode,
                components: seq![tree_version@, node_id@, view@],
            },
            ExternalOwnerSelector::UsagePolicy { key, version } => OwnerView {
                kind: DefinitionDomain::UsagePolicy,
                components: seq![key@, version@],
            },
        }
    }
}

impl ExternalOwnerSelector {
    /// The selector's components, in declaration order.
    pub fn components(&self) -> (r: Vec<&SourceComponent>)
        ensures
            r@.len() == self@.components.len(),
            forall|i: int| 0 <= i < r@.len() ==> #[trigger] r@[i]@ == self@.components[i],
    {
        let mut r: Vec<&SourceComponent> = Vec::new();
        match self {
            ExternalOwnerSelector::Class { key } => {
                r.push(key);
            },
            ExternalOwnerSelector::Ascendancy { class, key } => {
                r.push(class);
                r.push(key);
            },
            ExternalOwnerSelector::Reward { key } => {
                r.push(key);
            },
            ExternalOwnerSelector::ItemTemplate { base, prototype, variant } => {
                r.push(base);
                r.push(prototype);
                r.push(variant);
            },
            ExternalOwnerSelector::Modifier { catalog, key, variant } => {
                r.push(catalog);
                r.push(key);
                r.push(variant);
            },
            ExternalOwnerSelector::Gem { game_id, variant_id } => {
                r.push(game_id);
                r.push(variant_id);
            },
            ExternalOwnerSelector::Skill { effect_id } => {
                r.push(effect_id);
            },
            ExternalOwnerSelector::PassiveNode { tree_version, node_id, view } => {
                r.push(tree_version);
                r.push(node_id);
                r.push(view);
            },
            ExternalOwnerSelector::UsagePolicy { key, version } => {
                r.push(key);
                r.push(version);
            },
        }
        r
    }

    /// The definition kind the selector names.
    pub fn kind(&self) -> (r: DefinitionDomain)
        ensures
            r == self@.kind,
    {
        match self {
            ExternalOwnerSelector::Class { .. } => DefinitionDomain::Class,
            ExternalOwnerSelector::Ascendancy { .. } => DefinitionDomain::Ascendancy,
            ExternalOwnerSelector::Reward { .. } => DefinitionDomain::Reward,
            ExternalOwnerSelector::ItemTemplate { .. } => DefinitionDomain::ItemTemplate,
            ExternalOwnerSelector::Modifier { .. } => DefinitionDomain::Modifier,
            ExternalOwnerSelector::Gem { .. } => DefinitionDomain::Gem,
            ExternalOwnerSelector::Skill { .. } => DefinitionDomain::Skill,
            ExternalOwnerSelector::PassiveNode { .. } => DefinitionDomain::PassiveNode,
            ExternalOwnerSelector::UsagePolicy { .. } => DefinitionDomain::UsagePolicy,
        }
    }

    pub fn same(&self, other: &ExternalOwnerSelector) -> (r: bool)
        ensures
            r == (self@ == other@),
    {
        if self.kind() != other.kind() {
            return false;
        }
        let a = self.components();
        let b = other.components();
        if a.len() != b.len() {
            return false;
        }
        let mut k: usize = 0;
        while k < a.len()
            invariant
                k <= a@.len() == b@.len(),
                a@.len() == self@.components.len(),
                b@.len() == other@.components.len(),
                forall|i: int| 0 <= i < a@.len() ==> #[trigger] a@[i]@ == self@.components[i],
                forall|i: int| 0 <= i < b@.len() ==> #[trigger] b@[i]@ == other@.components[i],
                forall|i: int| 0 <= i < k ==> self@.components[i] == other@.components[i],
            decreases a@.len() - k,
        {
            if !a[k].same(b[k]) {
                assert(self@.components[k as int] != other@.components[k as int]);
                return false;
            }
            k = k + 1;
        }
        assert(self@.components =~= other@.components);
        true
    }

    pub fn duplicate(&self) -> (r: ExternalOwnerSelector)
        ensures
            r@ == self@,
    {
        match self {
            ExternalOwnerSelector::Class { key } => ExternalOwnerSelector::Class { key: key.duplicate() },
            ExternalOwnerSelector::Ascendancy { class, key } => ExternalOwnerSelector::Ascendancy {
                class: class.duplicate(),
                key: key.duplicate(),
            },
            ExternalOwnerSelector::Reward { key } => ExternalOwnerSelector::Reward { key: key.duplicate() },
            ExternalOwnerSelector::ItemTemplate { base, prototype, variant } => ExternalOwnerSelector::ItemTemplate {
                base: base.duplicate(),
                prototype: prototype.duplicate(),
                variant: variant.duplicate(),
            },
            ExternalOwnerSelector::Modifier { catalog, key, variant } => ExternalOwnerSelector::Modifier {
                catalog: catalog.duplicate(),
                key: key.duplicate(),
                variant: variant.duplicate(),
            },
            ExternalOwnerSelector::Gem { game_id, variant_id } => ExternalOwnerSelector::Gem {
                game_id: game_id.duplicate(),
                variant_id: variant_id.duplicate(),
            },
            ExternalOwnerSelector::Skill { effect_id } => ExternalOwnerSelector::Skill { effect_id: effect_id.duplicate() },
            ExternalOwnerSelector::PassiveNode { tree_version, node_id, view } => ExternalOwnerSelector::PassiveNode {
                tree_version: tree_version.duplicate(),
                node_id: node_id.duplicate(),
                view: view.duplicate(),
            },
            ExternalOwnerSelector::UsagePolicy { key, version } => ExternalOwnerSelector::UsagePolicy {
                key: key.duplicate(),
                version: version.duplicate(),
            },
        }
    }
}

#[derive(Clone, Copy, Debug, PartialEq, Eq, Structural)]
pub enum ExternalCatalogKind {
    PointPool,
    EquipmentSlot,
    Encounter,
    Metric,
    Option,
    SkillLinkRole,
    Unit,
    Quality,
    ExternalInput,
    Stat,
    Capability,
}

#[derive(Clone, Copy, Debug, PartialEq, Eq, Structural)]
pub enum ExternalSlotKind {
    Parameter,
    Choice,
    Grant,
    Actor,
    SkillGrant,
    ActionOutput,
}

#[derive(Clone, Copy, Debug, PartialEq, Eq, Structural)]
pub enum ActionAlternativeKind {
    Part,
    Mode,
    StatSet,
}

#[derive(Clone, Copy, Debug, PartialEq, Eq, Structural)]
pub enum ConfigSourceRole {
    Input,
    Placeholder,
    Default,
}

#[derive(Clone, Copy, Debug, PartialEq, Eq, Structural)]
pub enum ConfigMappingRole {
    Parameter,
    Choice,
    Reward,
    Option,
    ExternalInput,
    UsagePolicy,
    ActionOutput,
    ActionPart,
    ActionMode,
    ActionStatSet,
}

/// An external source selector. A socket's kind is its owned socket-kind
/// number.
#[derive(Debug)]
pub enum ExternalSelector {
    Definition(ExternalOwnerSelector),
    Catalog { kind: ExternalCatalogKind, key: SourceComponent, version: SourceComponent, variant: SourceComponent },
    Socket { owner: ExternalOwnerSelector, kind: u64, key: SourceComponent },
    Slot { owner: ExternalOwnerSelector, kind: ExternalSlotKind, key: SourceComponent },
    ActionAlternative {
        owner: ExternalOwnerSelector,
        output: SourceComponent,
        key: SourceComponent,
        kind: ActionAlternativeKind,
    },
    Configuration { key: SourceComponent, source: ConfigSourceRole, role: ConfigMappingRole, value: SourceComponent },
}

pub enum SelectorView {
    Definition(OwnerView),
    Catalog { kind: ExternalCatalogKind, key: Option<Seq<u8>>, version: Option<Seq<u8>>, variant: Option<Seq<u8>> },
    Socket { owner: OwnerView, kind: u64, key: Option<Seq<u8>> },
    Slot { owner: OwnerView, kind: ExternalSlotKind, key: Option<Seq<u8>> },
    ActionAlternative { owner: OwnerView, output: Option<Seq<u8>>, key: Option<Seq<u8>>, kind: ActionAlternativeKind },
    Configuration { key: Option<Seq<u8>>, source: ConfigSourceRole, role: ConfigMappingRole, value: Option<Seq<u8>> },
}

impl View for ExternalSelector {
    type V = SelectorView;

    open spec fn view(&self) -> SelectorView {
        match self {
            ExternalSelector::Definition(o) => SelectorView::Definition(o@),
            ExternalSelector::Catalog { kind, key, version, variant } => SelectorView::Catalog {
                kind: *kind,
                key: key@,
                version: version@,
                variant: variant@,
            },
            ExternalSelector::Socket { owner, kind, key } => SelectorView::Socket { owner: owner@, kind: *kind, key: key@ },
            ExternalSelector::Slot { owner, kind, key } => SelectorView::Slot { owner: owner@, kind: *kind, key: key@ },
            ExternalSelector::ActionAlternative { owner, output, key, kind } => SelectorView::ActionAlternative {
                owner: owner@,
                output: output@,
                key: key@,
                kind: *kind,
            },
            ExternalSelector::Configuration { key, source, role, value } => SelectorView::Configuration {
                key: key@,
                source: *source,
                role: *role,
                value: value@,
            },
        }
    }
}

impl ExternalSelector {
    pub fn same(&self, other: &ExternalSelector) -> (r: bool)
        ensures
            r == (self@ == other@),
    {
        match (self, other) {
            (ExternalSelector::Definition(a), ExternalSelector::Definition(b)) => a.same(b),
            (
                ExternalSelector::Catalog { kind: k1, key: a1, version: b1, variant: c1 },
                ExternalSelector::Catalog { kind: k2, key: a2, version: b2, variant: c2 },
            ) => *k1 == *k2 && a1.same(a2) && b1.same(b2) && c1.same(c2),
            (
                ExternalSelector::Socket { owner: o1, kind: k1, key: a1 },
                ExternalSelector::Socket { owner: o2, kind: k2, key: a2 },
            ) => o1.same(o2) && *k1 == *k2 && a1.same(a2),
            (
                ExternalSelector::Slot { owner: o1, kind: k1, key: a1 },
                ExternalSelector::Slot { owner: o2, kind: k2, key: a2 },
            ) => o1.same(o2) && *k1 == *k2 && a1.same(a2),
            (
                ExternalSelector::ActionAlternative { owner: o1, output: p1, key: a1, kind: k1 },
                ExternalSelector::ActionAlternative { owner: o2, output: p2, key: a2, kind: k2 },
            ) => o1.same(o2) && p1.same(p2) && a1.same(a2) && *k1 == *k2,
            (
                ExternalSelector::Configuration { key: a1, source: s1, role: r1, value: v1 },
                ExternalSelector::Configuration { key: a2, source: s2, role: r2, value: v2 },
            ) => a1.same(a2) && *s1 == *s2 && *r1 == *r2 && v1.same(v2),
            _ => false,
        }
    }
}

/// The kind of an owned target: a definition domain or a slot domain.
#[derive(Clone, Copy, Debug, PartialEq, Eq, Structural)]
pub enum TargetKind {
    Definition(DefinitionDomain),
    Slot(SlotDomain),
}

pub open spec fn target_kind(t: SubjectView) -> TargetKind {
    match t {
        SubjectView::Definition(a) => TargetKind::Definition(a.domain),
        SubjectView::Slot(s) => TargetKind::Slot(s.domain),
    }
}

/// The kind of target a selector must map to.
pub open spec fn expected_kind(s: SelectorView) -> TargetKind {
    match s {
        SelectorView::Definition(o) => TargetKind::Definition(o.kind),
        SelectorView::Catalog { kind, .. } => TargetKind::Definition(
            match kind {
                ExternalCatalogKind::PointPool => DefinitionDomain::PointPool,
                ExternalCatalogKind::EquipmentSlot => DefinitionDomain::EquipmentSlot,
                ExternalCatalogKind::Encounter => DefinitionDomain::Encounter,
                ExternalCatalogKind::Metric => DefinitionDomain::Metric,
                ExternalCatalogKind::Option => DefinitionDomain::Option,
                ExternalCatalogKind::SkillLinkRole => DefinitionDomain::SkillLinkRole,
                ExternalCatalogKind::Unit => DefinitionDomain::Unit,
                ExternalCatalogKind::Quality => DefinitionDomain::Quality,
                ExternalCatalogKind::ExternalInput => DefinitionDomain::ExternalInput,
                ExternalCatalogKind::Stat => DefinitionDomain::Stat,
                ExternalCatalogKind::Capability => DefinitionDomain::Capability,
            },
        ),
        SelectorView::Socket { .. } => TargetKind::Definition(DefinitionDomain::SocketSlot),
        SelectorView::Slot { kind, .. } => TargetKind::Slot(
            match kind {
                ExternalSlotKind::Parameter => SlotDomain::Parameter,
                ExternalSlotKind::Choice => SlotDomain::Choice,
                ExternalSlotKind::Grant => SlotDomain::Grant,
                ExternalSlotKind::Actor => SlotDomain::Actor,
                ExternalSlotKind::SkillGrant => SlotDomain::SkillGrant,
                ExternalSlotKind::ActionOutput => SlotDomain::ActionOutput,
            },
        ),
        SelectorView::ActionAlternative { kind, .. } => TargetKind::Definition(
            match kind {
                ActionAlternativeKind::Part => DefinitionDomain::ActionPart,
                ActionAlternativeKind::Mode => DefinitionDomain::ActionMode,
                ActionAlternativeKind::StatSet => DefinitionDomain::ActionStatSet,
            },
        ),
        SelectorView::Configuration { role, .. } => match role {
            ConfigMappingRole::Parameter => TargetKind::Slot(SlotDomain::Parameter),
            ConfigMappingRole::Choice => TargetKind::Slot(SlotDomain::Choice),
            ConfigMappingRole::Reward => TargetKind::Definition(DefinitionDomain::Reward),
            ConfigMappingRole::Option => TargetKind::Definition(DefinitionDomain::Option),
            ConfigMappingRole::ExternalInput => TargetKind::Definition(DefinitionDomain::ExternalInput),
            ConfigMappingRole::UsagePolicy => TargetKind::Definition(DefinitionDomain::UsagePolicy),
            ConfigMappingRole::ActionOutput => TargetKind::Slot(SlotDomain::ActionOutput),
            ConfigMappingRole::ActionPart => TargetKind::Definition(DefinitionDomain::ActionPart),
            ConfigMappingRole::ActionMode => TargetKind::Definition(DefinitionDomain::ActionMode),
            ConfigMappingRole::ActionStatSet => TargetKind::Definition(DefinitionDomain::ActionStatSet),
        },
    }
}

pub fn expected_kind_exec(s: &ExternalSelector) -> (r: TargetKind)
    ensures
        r == expected_kind(s@),
{
    match s {
        ExternalSelector::Definition(o) => TargetKind::Definition(o.kind()),
        ExternalSelector::Catalog { kind, .. } => TargetKind::Definition(
            match kind {
                ExternalCatalogKind::PointPool => DefinitionDomain::PointPool,
                ExternalCatalogKind::EquipmentSlot => DefinitionDomain::EquipmentSlot,
                ExternalCatalogKind::Encounter => DefinitionDomain::Encounter,
                ExternalCatalogKind::Metric => DefinitionDomain::Metric,
                ExternalCatalogKind::Option => DefinitionDomain::Option,
                ExternalCatalogKind::SkillLinkRole => DefinitionDomain::SkillLinkRole,
                ExternalCatalogKind::Unit => DefinitionDomain::Unit,
                ExternalCatalogKind::Quality => DefinitionDomain::Quality,
                ExternalCatalogKind::ExternalInput => DefinitionDomain::ExternalInput,
                ExternalCatalogKind::Stat => DefinitionDomain::Stat,
                ExternalCatalogKind::Capability => DefinitionDomain::Capability,
            },
        ),
        ExternalSelector::Socket { .. } => TargetKind::Definition(DefinitionDomain::SocketSlot),
        ExternalSelector::Slot { kind, .. } => TargetKind::Slot(
            match kind {
                ExternalSlotKind::Parameter => SlotDomain::Parameter,
                ExternalSlotKind::Choice => SlotDomain::Choice,
                ExternalSlotKind::Grant => SlotDomain::Grant,
                ExternalSlotKind::Actor => SlotDomain::Actor,
                ExternalSlotKind::SkillGrant => SlotDomain::SkillGrant,
                ExternalSlotKind::ActionOutput => SlotDomain::ActionOutput,
            },
        ),
        ExternalSelector::ActionAlternative { kind, .. } => TargetKind::Definition(
            match kind {
                ActionAlternativeKind::Part => DefinitionDomain::ActionPart,
                ActionAlternativeKind::Mode => DefinitionDomain::ActionMode,
                ActionAlternativeKind::StatSet => DefinitionDomain::ActionStatSet,
            },
        ),
        ExternalSelector::Configuration { role, .. } => match role {
            ConfigMappingRole::Parameter => TargetKind::Slot(SlotDomain::Parameter),
            ConfigMappingRole::Choice => TargetKind::Slot(SlotDomain::Choice),
            ConfigMappingRole::Reward => TargetKind::Definition(DefinitionDomain::Reward),
            ConfigMappingRole::Option => TargetKind::Definition(DefinitionDomain::Option),
            ConfigMappingRole::ExternalInput => TargetKind::Definition(DefinitionDomain::ExternalInput),
            ConfigMappingRole::UsagePolicy => TargetKind::Definition(DefinitionDomain::UsagePolicy),
            ConfigMappingRole::ActionOutput => TargetKind::Slot(SlotDomain::ActionOutput),
            ConfigMappingRole::ActionPart => TargetKind::Definition(DefinitionDomain::ActionPart),
            ConfigMappingRole::ActionMode => TargetKind::Definition(DefinitionDomain::ActionMode),
            ConfigMappingRole::ActionStatSet => TargetKind::Definition(DefinitionDomain::ActionStatSet),
        },
    }
}

pub fn target_kind_exec(t: &SchemaSubject) -> (r: TargetKind)
    ensures
        r == target_kind(t@),
{
    match t {
        SchemaSubject::Definition(a) => TargetKind::Definition(a.domain),
        SchemaSubject::Slot(s) => TargetKind::Slot(s.domain),
    }
}

/// How a mapped target was established.
#[derive(Debug)]
pub enum MappingBasis {
    Exact,
    /// A review claim whose explanation stays in separate evidence.
    ReviewedAlias { reason: Vec<u8> },
}

#[derive(Debug)]
pub enum MappingOutcome {
    Mapped { target: SchemaSubject, basis: MappingBasis },
    Ambiguous { candidates: Vec<SchemaSubject>, issue: Vec<u8> },
    Unmapped { issue: Vec<u8> },
}

#[derive(Debug)]
pub struct MappingEntry {
    pub source: ExternalSelector,
    pub outcome: MappingOutcome,
}


/// A catalog selector expects a definition of the domain named like its
/// catalog kind.
pub proof fn law_catalog_selector_expects_its_domain(s: SelectorView)
    ensures
        s matches SelectorView::Catalog { kind, .. } ==> {
            &&& kind == ExternalCatalogKind::PointPool ==> expected_kind(s) == TargetKind::Definition(DefinitionDomain::PointPool)
            &&& kind == ExternalCatalogKind::EquipmentSlot ==> expected_kind(s) == TargetKind::Definition(
                DefinitionDomain::EquipmentSlot,
            )
            &&& kind == ExternalCatalogKind::Encounter ==> expected_kind(s) == TargetKind::Definition(DefinitionDomain::Encounter)
            &&& kind == ExternalCatalogKind::Metric ==> expected_kind(s) == TargetKind::Definition(DefinitionDomain::Metric)
            &&& kind == ExternalCatalogKind::Option ==> expected_kind(s) == TargetKind::Definition(DefinitionDomain::Option)
            &&& kind == ExternalCatalogKind::SkillLinkRole ==> expected_kind(s) == TargetKind::Definition(
                DefinitionDomain::SkillLinkRole,
            )
            &&& kind == ExternalCatalogKind::Unit ==> expected_kind(s) == TargetKind::Definition(DefinitionDomain::Unit)
            &&& kind == ExternalCatalogKind::Quality ==> expected_kind(s) == TargetKind::Definition(DefinitionDomain::Quality)
            &&& kind == ExternalCatalogKind::ExternalInput ==> expected_kind(s) == TargetKind::Definition(
                DefinitionDomain::ExternalInput,
            )
            &&& kind == ExternalCatalogKind::Stat ==> expected_kind(s) == TargetKind::Definition(DefinitionDomain::Stat)
            &&& kind == ExternalCatalogKind::Capability ==> expected_kind(s) == TargetKind::Definition(
                DefinitionDomain::Capability,
            )
        },
{
}

/// Catalog selectors of different kinds never expect the same target kind.
pub proof fn law_catalog_kinds_expect_distinct_targets(a: SelectorView, b: SelectorView)
    requires
        a matches SelectorView::Catalog { .. },
        b matches SelectorView::Catalog { .. },
        a->Catalog_kind != b->Catalog_kind,
    ensures
        expected_kind(a) != expected_kind(b),
{
}

} // verus!
