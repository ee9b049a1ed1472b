//! Injected item text-line policy: exact line patterns, declared captures and
//! explicit emissions. Lines are matched without guessing capture boundaries;
//! unknown, ambiguous or malformed lines stay pending with their candidates.
use vstd::prelude::*;
use crate::text::{bytes_eq, copy_bytes};
use schema::{shape_valid, IntegerRange, KeySet, ValueSchema};

pub mod matcher;
pub mod schema;
pub mod convert;
pub mod aggregate;

verus! {

/// The only policy schema version this checker accepts.
pub const OWNED_ITEM_LINE_POLICY_VERSION: u32 = 1;

/// How a physical line is compared with the patterns.
#[derive(Clone, Copy, Debug, PartialEq, Eq, Structural)]
pub enum WhitespacePolicy {
    Exact,
    TrimAscii,
}

/// Leading sign admitted by a numeric capture.
#[derive(Clone, Copy, Debug, PartialEq, Eq, Structural)]
pub enum ItemNumericSign {
    Forbidden,
    OptionalMinus,
}

/// Lexical shape of a numeric capture: an optional sign and ASCII digits,
/// optionally followed by a decimal point and more digits.
#[derive(Clone, Copy, Debug, PartialEq, Eq, Structural)]
pub enum ItemNumericSyntax {
    Integer,
    Decimal,
}

/// One element of a line pattern.
#[derive(Debug)]
pub enum ItemPatternPart {
    Literal(Vec<u8>),
    Capture(Vec<u8>),
    NumericCapture { capture: Vec<u8>, syntax: ItemNumericSyntax, sign: ItemNumericSign },
}

/// Mathematical view of a pattern part.
pub enum PatternPartView {
    Literal(Seq<u8>),
    Capture(Seq<u8>),
    NumericCapture { capture: Seq<u8>, syntax: ItemNumericSyntax, sign: ItemNumericSign },
}

impl View for ItemPatternPart {
    type V = PatternPartView;

    open spec fn view(&self) -> PatternPartView {
        match self {
            ItemPatternPart::Literal(v) => PatternPartView::Literal(v@),
            ItemPatternPart::Capture(id) => PatternPartView::Capture(id@),
            ItemPatternPart::NumericCapture { capture, syntax, sign } => PatternPartView::NumericCapture {
                capture: capture@,
                syntax: *syntax,
                sign: *sign,
            },
        }
    }
}

pub open spec fn pattern_view(parts: Seq<ItemPatternPart>) -> Seq<PatternPartView> {
    parts.map_values(|p: ItemPatternPart| p@)
}

/// Resource limits of one policy and of every conversion made with it.
#[derive(Clone, Copy, Debug)]
pub struct ItemLineLimits {
    pub max_rules: usize,
    pub max_parts: usize,
    pub max_captures: usize,
    pub max_emissions: usize,
    pub max_rolls: usize,
    pub max_policy_text_bytes: usize,
    pub max_schema_work: usize,
    pub max_line_bytes: usize,
    pub max_source_bytes: usize,
    pub max_lines: usize,
    pub max_work: usize,
    pub max_output_declarations: usize,
}

/// Which resource ran out.
#[derive(Clone, Copy, Debug, PartialEq, Eq, Structural)]
pub enum ItemLineBudget {
    Limits,
    Rules,
    Parts,
    Captures,
    Emissions,
    Rolls,
    PolicyTextBytes,
    SchemaWork,
    Work,
    LineBytes,
    SourceBytes,
    Lines,
    OutputDeclarations,
}

/// Subtract `n` from the remaining budget, or report the exhausted resource.
pub fn charge(left: &mut usize, n: usize, what: ItemLineBudget) -> (r: Result<(), ItemLineBudget>)
    ensures
        n <= *old(left) ==> r is Ok && *final(left) == *old(left) - n,
        n > *old(left) ==> r == Err::<(), ItemLineBudget>(what) && *final(left) == *old(left),
{
    if n <= *left {
        *left = *left - n;
        Ok(())
    } else {
        Err(what)
    }
}

/// Remaining budget after charging `n`, if it suffices.
pub open spec fn charged(left: nat, n: nat) -> Option<nat> {
    if n <= left {
        Some((left - n) as nat)
    } else {
        None
    }
}

/// `a + b`, saturating at `usize::MAX`.
pub open spec fn sat_add(a: nat, b: nat) -> nat {
    if a + b > usize::MAX {
        usize::MAX as nat
    } else {
        a + b
    }
}


/// A typed parameter value. Quantities carry floating-point magnitudes and are
/// not represented here.
#[derive(Debug)]
pub enum ParameterValue {
    Boolean(bool),
    Integer(i64),
    Option(Vec<u8>),
}

pub enum ParameterValueView {
    Boolean(bool),
    Integer(int),
    Option(Seq<u8>),
}

impl View for ParameterValue {
    type V = ParameterValueView;

    open spec fn view(&self) -> ParameterValueView {
        match self {
            ParameterValue::Boolean(b) => ParameterValueView::Boolean(*b),
            ParameterValue::Integer(i) => ParameterValueView::Integer(*i as int),
            ParameterValue::Option(o) => ParameterValueView::Option(o@),
        }
    }
}

impl ParameterValue {
    /// An owned copy with the same view.
    pub fn duplicate(&self) -> (r: ParameterValue)
        ensures
            r@ == self@,
    {
        match self {
            ParameterValue::Boolean(b) => ParameterValue::Boolean(*b),
            ParameterValue::Integer(i) => ParameterValue::Integer(*i),
            ParameterValue::Option(o) => ParameterValue::Option(copy_bytes(o.as_slice())),
        }
    }
}

/// The definition that declares a parameter slot.
#[derive(Debug)]
pub enum SlotOwner {
    ItemTemplate(Vec<u8>),
    Modifier(Vec<u8>),
}

pub enum SlotOwnerView {
    ItemTemplate(Seq<u8>),
    Modifier(Seq<u8>),
}

impl View for SlotOwner {
    type V = SlotOwnerView;

    open spec fn view(&self) -> SlotOwnerView {
        match self {
            SlotOwner::ItemTemplate(k) => SlotOwnerView::ItemTemplate(k@),
            SlotOwner::Modifier(k) => SlotOwnerView::Modifier(k@),
        }
    }
}

/// A parameter slot together with its exact declaring owner.
#[derive(Debug)]
pub struct DeclaredSlot {
    pub declaration: SlotOwner,
    pub slot: Vec<u8>,
}

pub struct DeclaredSlotView {
    pub declaration: SlotOwnerView,
    pub slot: Seq<u8>,
}

impl View for DeclaredSlot {
    type V = DeclaredSlotView;

    open spec fn view(&self) -> DeclaredSlotView {
        DeclaredSlotView { declaration: self.declaration@, slot: self.slot@ }
    }
}

impl SlotOwner {
    pub fn duplicate(&self) -> (r: SlotOwner)
        ensures
            r@ == self@,
    {
        match self {
            SlotOwner::ItemTemplate(k) => SlotOwner::ItemTemplate(copy_bytes(k.as_slice())),
            SlotOwner::Modifier(k) => SlotOwner::Modifier(copy_bytes(k.as_slice())),
        }
    }

    pub fn same(&self, other: &SlotOwner) -> (r: bool)
        ensures
            r == (self@ == other@),
    {
        match (self, other) {
            (SlotOwner::ItemTemplate(a), SlotOwner::ItemTemplate(b)) => bytes_eq(a.as_slice(), b.as_slice()),
            (SlotOwner::Modifier(a), SlotOwner::Modifier(b)) => bytes_eq(a.as_slice(), b.as_slice()),
            _ => false,
        }
    }
}

impl DeclaredSlot {
    pub fn duplicate(&self) -> (r: DeclaredSlot)
        ensures
            r@ == self@,
    {
        DeclaredSlot { declaration: self.declaration.duplicate(), slot: copy_bytes(self.slot.as_slice()) }
    }

    pub fn same(&self, other: &DeclaredSlot) -> (r: bool)
        ensures
            r == (self@ == other@),
    {
        self.declaration.same(&other.declaration) && bytes_eq(self.slot.as_slice(), other.slot.as_slice())
    }
}

/// A reviewed spelling that decodes to a boolean.
#[derive(Debug)]
pub struct BooleanToken {
    pub token: Vec<u8>,
    pub value: bool,
}

/// A reviewed spelling that decodes to an option definition.
#[derive(Debug)]
pub struct OptionToken {
    pub token: Vec<u8>,
    pub value: Vec<u8>,
}

/// How captured text is decoded. Integers are ASCII decimal with an optional
/// sign and magnitude at most `MAX_SAFE_INTEGER`; tokens match exactly.
#[derive(Debug)]
pub enum ValueCodecKind {
    Boolean { tokens: Vec<BooleanToken> },
    Integer,
    Option { tokens: Vec<OptionToken> },
}

#[derive(Debug)]
pub struct ValueCodecInput {
    pub namespace: Vec<u8>,
    pub codec: ValueCodecKind,
}

#[derive(Debug)]
pub enum ItemCaptureCodec {
    OpaqueText,
    Value(ValueCodecInput),
}

#[derive(Debug)]
pub struct ItemCapture {
    pub id: Vec<u8>,
    pub codec: ItemCaptureCodec,
}

#[derive(Clone, Copy, Debug, PartialEq, Eq, Structural)]
pub enum ItemNumericLexicalProperty {
    HasDecimalPoint,
}

/// Where an emitted value comes from.
#[derive(Debug)]
pub enum ItemLineValue {
    Literal(ParameterValue),
    Capture(Vec<u8>),
    Property { property: Vec<u8> },
    NumericLexicalProperty { capture: Vec<u8>, property: ItemNumericLexicalProperty },
}

#[derive(Debug)]
pub struct ItemRoll {
    pub slot: DeclaredSlot,
    pub value: ItemLineValue,
}

/// What a matched line declares.
#[derive(Debug)]
pub enum ItemEmission {
    Metadata { role: Vec<u8> },
    Template { definition: Vec<u8> },
    ItemLevel { value: ItemLineValue },
    ItemParameter { slot: DeclaredSlot, value: ItemLineValue },
    Modifier { definition: Vec<u8>, rolls: Vec<ItemRoll> },
}

#[derive(Debug)]
pub struct ItemLineRule {
    pub id: Vec<u8>,
    pub pattern: Vec<ItemPatternPart>,
    pub captures: Vec<ItemCapture>,
    pub emissions: Vec<ItemEmission>,
}

#[derive(Debug)]
pub struct ItemLinePolicyInput {
    pub schema_version: u32,
    pub namespace: Vec<u8>,
    pub definitions: Vec<u8>,
    pub whitespace: WhitespacePolicy,
    pub rules: Vec<ItemLineRule>,
}

/// Why a policy was rejected.
#[derive(Clone, Copy, Debug, PartialEq, Eq, Structural)]
pub enum ItemLineViolation {
    DuplicateRuleId,
    EmptyPattern,
    DuplicateCaptureId,
    OpaqueCaptureNeedsMetadata,
    ForeignCodecNamespace,
    DuplicateCodecToken,
    InvalidLiteral,
    CaptureNotSeparated,
    UnusedCapture,
    ForeignNamespace,
    IncompatibleValue,
    ValueNotDeclaredCapture,
    ValueOutsideSchema,
    MemberOutsideCompleteSet,
    ItemLevelNotInteger,
    DuplicateItemParameter,
    WrongParameterSite,
    WrongRollOwner,
    DuplicateRoll,
    MissingRequiredRoll,
}

/// Errors of policy construction and line conversion.
#[derive(Debug)]
pub enum ItemLineError {
    UnsupportedVersion(u32),
    Binding,
    Limit(ItemLineBudget),
    Invalid { rule: Vec<u8>, violation: ItemLineViolation },
    IndexFault { subject: Vec<u8> },
    LineOrder,
}


/// Why schema knowledge is not available.
#[derive(Clone, Copy, Debug, PartialEq, Eq, Structural)]
pub enum ItemSchemaUnknown {
    Missing,
    Unmapped,
    Partial,
}

/// The schema definition or slot whose knowledge is unavailable.
#[derive(Debug)]
pub enum ItemSchemaSubject {
    Definition(Vec<u8>),
    Slot(DeclaredSlot),
}

pub enum ItemSchemaSubjectView {
    Definition(Seq<u8>),
    Slot(DeclaredSlotView),
}

impl View for ItemSchemaSubject {
    type V = ItemSchemaSubjectView;

    open spec fn view(&self) -> ItemSchemaSubjectView {
        match self {
            ItemSchemaSubject::Definition(k) => ItemSchemaSubjectView::Definition(k@),
            ItemSchemaSubject::Slot(s) => ItemSchemaSubjectView::Slot(s@),
        }
    }
}

impl ItemSchemaSubject {
    pub fn duplicate(&self) -> (r: ItemSchemaSubject)
        ensures
            r@ == self@,
    {
        match self {
            ItemSchemaSubject::Definition(k) => ItemSchemaSubject::Definition(copy_bytes(k.as_slice())),
            ItemSchemaSubject::Slot(s) => ItemSchemaSubject::Slot(s.duplicate()),
        }
    }
}

/// Why a line stays unresolved.
#[derive(Debug)]
pub enum ItemLinePending {
    UnsupportedLineLayout,
    UnknownLine,
    AmbiguousRules,
    AmbiguousCapture,
    MalformedCapture { capture: Vec<u8> },
    Schema { subject: ItemSchemaSubject, status: ItemSchemaUnknown },
    ValueOutsideSchema { slot: Option<DeclaredSlot> },
    MissingProperty { property: Vec<u8> },
    SourcePresentation,
    SourceMeaningUnresolved,
}

pub enum ItemLinePendingView {
    UnsupportedLineLayout,
    UnknownLine,
    AmbiguousRules,
    AmbiguousCapture,
    MalformedCapture { capture: Seq<u8> },
    Schema { subject: ItemSchemaSubjectView, status: ItemSchemaUnknown },
    ValueOutsideSchema { slot: Option<DeclaredSlotView> },
    MissingProperty { property: Seq<u8> },
    SourcePresentation,
    SourceMeaningUnresolved,
}

impl View for ItemLinePending {
    type V = ItemLinePendingView;

    open spec fn view(&self) -> ItemLinePendingView {
        match self {
            ItemLinePending::UnsupportedLineLayout => ItemLinePendingView::UnsupportedLineLayout,
            ItemLinePending::UnknownLine => ItemLinePendingView::UnknownLine,
            ItemLinePending::AmbiguousRules => ItemLinePendingView::AmbiguousRules,
            ItemLinePending::AmbiguousCapture => ItemLinePendingView::AmbiguousCapture,
            ItemLinePending::MalformedCapture { capture } => ItemLinePendingView::MalformedCapture {
                capture: capture@,
            },
            ItemLinePending::Schema { subject, status } => ItemLinePendingView::Schema {
                subject: subject@,
                status: *status,
            },
            ItemLinePending::ValueOutsideSchema { slot } => ItemLinePendingView::ValueOutsideSchema {
                slot: match slot {
                    Some(s) => Some(s@),
                    None => None,
                },
            },
            ItemLinePending::MissingProperty { property } => ItemLinePendingView::MissingProperty {
                property: property@,
            },
            ItemLinePending::SourcePresentation => ItemLinePendingView::SourcePresentation,
            ItemLinePending::SourceMeaningUnresolved => ItemLinePendingView::SourceMeaningUnresolved,
        }
    }
}

impl ItemLinePending {
    pub fn duplicate(&self) -> (r: ItemLinePending)
        ensures
            r@ == self@,
    {
        match self {
            ItemLinePending::UnsupportedLineLayout => ItemLinePending::UnsupportedLineLayout,
            ItemLinePending::UnknownLine => ItemLinePending::UnknownLine,
            ItemLinePending::AmbiguousRules => ItemLinePending::AmbiguousRules,
            ItemLinePending::AmbiguousCapture => ItemLinePending::AmbiguousCapture,
            ItemLinePending::MalformedCapture { capture } => ItemLinePending::MalformedCapture {
                capture: copy_bytes(capture.as_slice()),
            },
            ItemLinePending::Schema { subject, status } => ItemLinePending::Schema {
                subject: subject.duplicate(),
                status: *status,
            },
            ItemLinePending::ValueOutsideSchema { slot } => ItemLinePending::ValueOutsideSchema {
                slot: match slot {
                    Some(s) => Some(s.duplicate()),
                    None => None,
                },
            },
            ItemLinePending::MissingProperty { property } => ItemLinePending::MissingProperty {
                property: copy_bytes(property.as_slice()),
            },
            ItemLinePending::SourcePresentation => ItemLinePending::SourcePresentation,
            ItemLinePending::SourceMeaningUnresolved => ItemLinePending::SourceMeaningUnresolved,
        }
    }
}


/// Checked schema context of a template emitted by some rule.
#[derive(Debug)]
pub struct TemplateContext {
    pub template: Vec<u8>,
    pub level: IntegerRange,
    pub modifiers: KeySet,
    pub required_parameters: Vec<DeclaredSlot>,
    pub parameters_complete: bool,
}

/// Per-rule facts established against the schema: the input constraint of
/// each value in emission order and the first schema uncertainty, if any.
#[derive(Debug)]
pub struct BoundRule {
    pub constraints: Vec<Option<ValueSchema>>,
    pub pending: Option<ItemLinePending>,
}

/// A line policy checked against one owned definition schema.
#[derive(Debug)]
pub struct OwnedItemLinePolicy {
    input: ItemLinePolicyInput,
    limits: ItemLineLimits,
    rules: Vec<BoundRule>,
    templates: Vec<TemplateContext>,
    schema_work: usize,
}

impl OwnedItemLinePolicy {
    #[verifier::type_invariant]
    spec fn wf(self) -> bool {
        &&& shape_valid(self.input, self.limits)
        &&& self.rules.len() == self.input.rules.len()
        &&& self.schema_work <= self.limits.max_schema_work
    }

    /// Schema work spent when the policy was checked.
    pub closed spec fn spec_schema_work(self) -> usize {
        self.schema_work
    }

    pub closed spec fn spec_input(self) -> ItemLinePolicyInput {
        self.input
    }

    pub closed spec fn spec_limits(self) -> ItemLineLimits {
        self.limits
    }

    /// What checking established about each rule, in rule order.
    pub closed spec fn spec_rules(self) -> Seq<BoundRule> {
        self.rules@
    }

    /// The checked contexts of the templates that rules emit.
    pub closed spec fn spec_templates(self) -> Seq<TemplateContext> {
        self.templates@
    }

    /// The checked input, unchanged.
    pub fn input(&self) -> (r: &ItemLinePolicyInput)
        ensures
            *r == self.spec_input(),
            shape_valid(*r, self.spec_limits()),
    {
        proof {
            use_type_invariant(self);
        }
        &self.input
    }

    /// Give back the checked input, so that a successor can be built from it.
    pub fn into_input(self) -> (r: ItemLinePolicyInput)
        ensures
            r == self.spec_input(),
    {
        let OwnedItemLinePolicy { input, .. } = self;
        input
    }

    /// The limits the policy was checked with.
    pub fn limits(&self) -> (r: ItemLineLimits)
        ensures
            r == self.spec_limits(),
    {
        self.limits
    }

    /// Schema work spent by the check.
    pub fn schema_work(&self) -> (r: usize)
        ensures
            r == self.spec_schema_work(),
            r <= self.spec_limits().max_schema_work,
    {
        proof {
            use_type_invariant(self);
        }
        self.schema_work
    }

}

} // verus!
