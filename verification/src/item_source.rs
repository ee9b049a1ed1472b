//! Source-format layout policy for item text: reviewed roles of item-line
//! rules and load-index prefixes of templates, bound to one checked item-line
//! policy and one owned schema, with offline source provenance.
use crate::item_lines::schema::{ItemLineSchema, SchemaEntry};
use crate::item_lines::{ItemLineError, ItemLinePolicyInput, OwnedItemLinePolicy};
use crate::provenance::{
    ExternalSourceSystem, SourceFilePin, SourcePin, has_control, has_control_exec, is_blank, is_blank_exec,
    sha256_hex_ok, sha256_hex_ok_exec, source_path_ok, source_path_ok_exec,
};
use crate::text::bytes_eq;
use vstd::prelude::*;

verus! {

pub const OWNED_ITEM_SOURCE_POLICY_VERSION: u32 = 1;

#[derive(Clone, Copy, Debug, PartialEq, Eq, Structural)]
pub enum ItemSourceDialect {
    PobExportedSingleTextV1,
}

/// The reviewed source role of an item-line rule.
#[derive(Clone, Copy, Debug, PartialEq, Eq, Structural)]
pub enum ItemRuleSourceRole {
    /// Reviewed zero-member preamble syntax; not valid after modifier insertion starts.
    Header,
    /// A reviewed one-member source grammar; malformed captures do not satisfy it.
    SingleModifier,
    Unresolved,
}

#[derive(Debug)]
pub struct ItemRuleSourceLayout {
    pub rule: Vec<u8>,
    pub role: ItemRuleSourceRole,
}

#[derive(Clone, Copy, Debug, PartialEq, Eq, Structural)]
pub enum ItemLoadIndexPrefix {
    NoGeneratedBuffMembers,
    Unresolved,
}

#[derive(Debug)]
pub struct ItemTemplateSourceLayout {
    pub template: Vec<u8>,
    pub load_index_prefix: ItemLoadIndexPrefix,
}

/// Resource limits of a layout policy and of attributions made with it.
#[derive(Clone, Copy, Debug)]
pub struct ItemSourceLimits {
    pub max_wire_bytes: usize,
    pub max_policy_text_bytes: usize,
    pub max_source_files: usize,
    pub max_rules: usize,
    pub max_templates: usize,
    pub max_source_bytes: usize,
    pub max_line_bytes: usize,
    pub max_lines: usize,
    pub max_tags: usize,
    pub max_overlays: usize,
    pub max_output_records: usize,
    pub max_work: usize,
}

pub open spec fn default_item_source_limits() -> ItemSourceLimits {
    ItemSourceLimits {
        max_wire_bytes: 4194304,
        max_policy_text_bytes: 2097152,
        max_source_files: 64,
        max_rules: 2048,
        max_templates: 8192,
        max_source_bytes: 1048576,
        max_line_bytes: 65536,
        max_lines: 8192,
        max_tags: 32768,
        max_overlays: 16384,
        max_output_records: 65536,
        max_work: 64194304,
    }
}

impl Default for ItemSourceLimits {
    fn default() -> (r: Self)
        ensures
            r == default_item_source_limits(),
    {
        ItemSourceLimits {
            max_wire_bytes: 4194304,
            max_policy_text_bytes: 2097152,
            max_source_files: 64,
            max_rules: 2048,
            max_templates: 8192,
            max_source_bytes: 1048576,
            max_line_bytes: 65536,
            max_lines: 8192,
            max_tags: 32768,
            max_overlays: 16384,
            max_output_records: 65536,
            max_work: 64194304,
        }
    }
}

/// Every limit is positive and at most its default.
pub open spec fn item_source_limits_valid(l: ItemSourceLimits) -> bool {
    let d = default_item_source_limits();
    &&& 0 < l.max_wire_bytes <= d.max_wire_bytes
    &&& 0 < l.max_policy_text_bytes <= d.max_policy_text_bytes
    &&& 0 < l.max_source_files <= d.max_source_files
    &&& 0 < l.max_rules <= d.max_rules
    &&& 0 < l.max_templates <= d.max_templates
    &&& 0 < l.max_source_bytes <= d.max_source_bytes
    &&& 0 < l.max_line_bytes <= d.max_line_bytes
    &&& 0 < l.max_lines <= d.max_lines
    &&& 0 < l.max_tags <= d.max_tags
    &&& 0 < l.max_overlays <= d.max_overlays
    &&& 0 < l.max_output_records <= d.max_output_records
    &&& 0 < l.max_work <= d.max_work
}

#[derive(Debug)]
pub enum ItemSourceError {
    UnsupportedVersion(u32),
    InvalidLimit,
    Limit(&'static str),
    Policy(&'static str),
    Binding,
    Lines(ItemLineError),
}

impl ItemSourceLimits {
    pub fn validate(self) -> (r: Result<(), ItemSourceError>)
        ensures
            r is Ok <==> item_source_limits_valid(self),
            r is Err ==> r matches Err(ItemSourceError::InvalidLimit),
    {
        let d = ItemSourceLimits::default();
        let ok = 0 < self.max_wire_bytes && self.max_wire_bytes <= d.max_wire_bytes && 0 < self.max_policy_text_bytes
            && self.max_policy_text_bytes <= d.max_policy_text_bytes && 0 < self.max_source_files
            && self.max_source_files <= d.max_source_files && 0 < self.max_rules && self.max_rules <= d.max_rules
            && 0 < self.max_templates && self.max_templates <= d.max_templates && 0 < self.max_source_bytes
            && self.max_source_bytes <= d.max_source_bytes && 0 < self.max_line_bytes && self.max_line_bytes
            <= d.max_line_bytes && 0 < self.max_lines && self.max_lines <= d.max_lines && 0 < self.max_tags
            && self.max_tags <= d.max_tags && 0 < self.max_overlays && self.max_overlays <= d.max_overlays && 0
            < self.max_output_records && self.max_output_records <= d.max_output_records && 0 < self.max_work
            && self.max_work <= d.max_work;
        if ok {
            Ok(())
        } else {
            Err(ItemSourceError::InvalidLimit)
        }
    }
}

#[derive(Debug)]
pub struct ItemSourceLayoutPolicyInput {
    pub schema_version: u32,
    pub namespace: Vec<u8>,
    pub version: Vec<u8>,
    /// Offline provenance, not authentication of the exporter or runtime files.
    pub source: SourcePin,
    /// Identity of the item-line policy this layout is reviewed against.
    pub item_lines: Vec<u8>,
    pub dialect: ItemSourceDialect,
    pub rule_layouts: Vec<ItemRuleSourceLayout>,
    pub template_layouts: Vec<ItemTemplateSourceLayout>,
}

/// The source names a Path of Building 2 revision that is neither blank nor
/// holds control characters, and at least one file.
pub open spec fn provenance_ok(p: SourcePin) -> bool {
    &&& p.system == ExternalSourceSystem::PathOfBuilding2
    &&& !is_blank(p.revision@)
    &&& !has_control(p.revision@)
    &&& p.files@.len() > 0
}

/// Each file has an acceptable path, distinct from the others, and a SHA-256 digest.
pub open spec fn files_ok(files: Seq<SourceFilePin>) -> bool {
    &&& forall|i: int| 0 <= i < files.len() ==> #[trigger] source_path_ok(files[i].path@) && sha256_hex_ok(files[i].sha256@)
    &&& forall|i: int, j: int| 0 <= i < j < files.len() ==> files[i].path@ != files[j].path@
}

/// Policy text charged for files, rules and templates.
pub open spec fn files_text(f: Seq<SourceFilePin>, n: int) -> int
    decreases n,
{
    if n <= 0 {
        0
    } else {
        files_text(f, n - 1) + f[n - 1].path@.len() + f[n - 1].sha256@.len()
    }
}

pub open spec fn rules_text(r: Seq<ItemRuleSourceLayout>, n: int) -> int
    decreases n,
{
    if n <= 0 {
        0
    } else {
        rules_text(r, n - 1) + r[n - 1].rule@.len()
    }
}

pub open spec fn templates_text(t: Seq<ItemTemplateSourceLayout>, n: int) -> int
    decreases n,
{
    if n <= 0 {
        0
    } else {
        templates_text(t, n - 1) + t[n - 1].template@.len()
    }
}

pub open spec fn policy_text(input: ItemSourceLayoutPolicyInput) -> int {
    input.source.revision@.len() + files_text(input.source.files@, input.source.files@.len() as int) + rules_text(
        input.rule_layouts@,
        input.rule_layouts@.len() as int,
    ) + templates_text(input.template_layouts@, input.template_layouts@.len() as int)
}

proof fn lemma_files_text_mono(f: Seq<SourceFilePin>, m: int, n: int)
    requires
        0 <= m <= n,
    ensures
        0 <= files_text(f, m) <= files_text(f, n),
    decreases n,
{
    if m < n {
        lemma_files_text_mono(f, m, n - 1);
    } else if n > 0 {
        lemma_files_text_mono(f, n - 1, n - 1);
    }
}

proof fn lemma_rules_text_mono(r: Seq<ItemRuleSourceLayout>, m: int, n: int)
    requires
        0 <= m <= n,
    ensures
        0 <= rules_text(r, m) <= rules_text(r, n),
    decreases n,
{
    if m < n {
        lemma_rules_text_mono(r, m, n - 1);
    } else if n > 0 {
        lemma_rules_text_mono(r, n - 1, n - 1);
    }
}

proof fn lemma_templates_text_mono(t: Seq<ItemTemplateSourceLayout>, m: int, n: int)
    requires
        0 <= m <= n,
    ensures
        0 <= templates_text(t, m) <= templates_text(t, n),
    decreases n,
{
    if m < n {
        lemma_templates_text_mono(t, m, n - 1);
    } else if n > 0 {
        lemma_templates_text_mono(t, n - 1, n - 1);
    }
}

/// Each rule layout names a rule of the item-line policy, once.
pub open spec fn rule_declared(lines: ItemLinePolicyInput, id: Seq<u8>) -> bool {
    exists|k: int| 0 <= k < lines.rules@.len() && #[trigger] lines.rules@[k].id@ == id
}

pub open spec fn rule_layouts_ok(layouts: Seq<ItemRuleSourceLayout>, lines: ItemLinePolicyInput) -> bool {
    &&& forall|i: int| 0 <= i < layouts.len() ==> rule_declared(lines, #[trigger] layouts[i].rule@)
    &&& forall|i: int, j: int| 0 <= i < j < layouts.len() ==> layouts[i].rule@ != layouts[j].rule@
}

/// The schema describes the template.
pub open spec fn template_known(schema: ItemLineSchema, t: Seq<u8>) -> bool {
    exists|k: int|
        0 <= k < schema.templates@.len() && #[trigger] schema.templates@[k].id@ == t && schema.templates@[k].schema is Known
            && (forall|j: int| 0 <= j < k ==> schema.templates@[j].id@ != t)
}

/// Each template layout names a template the schema describes, once.
pub open spec fn template_layouts_ok(layouts: Seq<ItemTemplateSourceLayout>, schema: ItemLineSchema) -> bool {
    &&& forall|i: int| 0 <= i < layouts.len() ==> template_known(schema, #[trigger] layouts[i].template@)
    &&& forall|i: int, j: int| 0 <= i < j < layouts.len() ==> layouts[i].template@ != layouts[j].template@
}

/// Everything a layout policy must satisfy against its bindings.
pub open spec fn layout_policy_ok(
    input: ItemSourceLayoutPolicyInput,
    lines: ItemLinePolicyInput,
    lines_identity: Seq<u8>,
    schema: ItemLineSchema,
    limits: ItemSourceLimits,
) -> bool {
    &&& item_source_limits_valid(limits)
    &&& input.schema_version == OWNED_ITEM_SOURCE_POLICY_VERSION
    &&& lines.definitions@ == schema.identity@ && lines.namespace@ == schema.namespace@
    &&& input.namespace@ == schema.namespace@ && input.item_lines@ == lines_identity
    &&& provenance_ok(input.source)
    &&& input.source.files@.len() <= limits.max_source_files
    &&& input.rule_layouts@.len() <= limits.max_rules
    &&& input.template_layouts@.len() <= limits.max_templates
    &&& policy_text(input) <= limits.max_policy_text_bytes
    &&& files_ok(input.source.files@)
    &&& rule_layouts_ok(input.rule_layouts@, lines)
    &&& template_layouts_ok(input.template_layouts@, schema)
}

/// A layout policy checked against one item-line policy and one schema.
#[derive(Debug)]
pub struct ItemSourceLayoutPolicy {
    input: ItemSourceLayoutPolicyInput,
    limits: ItemSourceLimits,
}

fn text_charge(left: &mut usize, n: usize) -> (r: Result<(), ItemSourceError>)
    ensures
        n <= *old(left) ==> r is Ok && *final(left) == *old(left) - n,
        n > *old(left) ==> r matches Err(ItemSourceError::Limit(_)),
{
    if n <= *left {
        *left = *left - n;
        Ok(())
    } else {
        Err(ItemSourceError::Limit("policy text"))
    }
}

impl ItemSourceLayoutPolicy {
    pub closed spec fn spec_input(self) -> ItemSourceLayoutPolicyInput {
        self.input
    }

    /// Check a layout policy. Its identity binding to the item-line policy is
    /// the digest `lines_identity` of that policy's input.
    #[verifier::loop_isolation(false)]
    pub fn new(
        input: ItemSourceLayoutPolicyInput,
        lines: &OwnedItemLinePolicy,
        lines_identity: &[u8],
        schema: &ItemLineSchema,
        limits: ItemSourceLimits,
    ) -> (r: Result<Self, ItemSourceError>)
        ensures
            r is Ok <==> layout_policy_ok(input, lines.spec_input(), lines_identity@, *schema, limits),
            r matches Ok(p) ==> p.spec_input() == input,
            !item_source_limits_valid(limits) ==> r matches Err(ItemSourceError::InvalidLimit),
            item_source_limits_valid(limits) && input.schema_version != OWNED_ITEM_SOURCE_POLICY_VERSION ==> (r matches Err(
                ItemSourceError::UnsupportedVersion(v),
            ) && v == input.schema_version),
    {
        limits.validate()?;
        if input.schema_version != OWNED_ITEM_SOURCE_POLICY_VERSION {
            return Err(ItemSourceError::UnsupportedVersion(input.schema_version));
        }
        let li = lines.input();
        if !bytes_eq(li.definitions.as_slice(), schema.identity.as_slice()) || !bytes_eq(
            li.namespace.as_slice(),
            schema.namespace.as_slice(),
        ) {
            return Err(ItemSourceError::Lines(ItemLineError::Binding));
        }
        if !bytes_eq(input.namespace.as_slice(), schema.namespace.as_slice()) || !bytes_eq(
            input.item_lines.as_slice(),
            lines_identity,
        ) {
            return Err(ItemSourceError::Binding);
        }
        let src = &input.source;
        if src.system != ExternalSourceSystem::PathOfBuilding2 || is_blank_exec(src.revision.as_slice())
            || has_control_exec(src.revision.as_slice()) || src.files.len() == 0 {
            return Err(ItemSourceError::Policy("source provenance"));
        }
        if src.files.len() > limits.max_source_files || input.rule_layouts.len() > limits.max_rules
            || input.template_layouts.len() > limits.max_templates {
            return Err(ItemSourceError::Limit("policy entries"));
        }
        let mut left = limits.max_policy_text_bytes;
        proof {
            lemma_files_text_mono(src.files@, 0, src.files@.len() as int);
            lemma_rules_text_mono(input.rule_layouts@, 0, input.rule_layouts@.len() as int);
            lemma_templates_text_mono(input.template_layouts@, 0, input.template_layouts@.len() as int);
        }
        text_charge(&mut left, src.revision.len())?;
        let ghost base = limits.max_policy_text_bytes - src.revision@.len();
        let mut i: usize = 0;
        while i < src.files.len()
            invariant
                i <= src.files@.len(),
                left == base - files_text(src.files@, i as int),
                left <= limits.max_policy_text_bytes,
                forall|q: int| 0 <= q < i ==> #[trigger] source_path_ok(src.files@[q].path@) && sha256_hex_ok(src.files@[q].sha256@),
                forall|a: int, b: int| 0 <= a < b < i ==> src.files@[a].path@ != src.files@[b].path@,
            decreases src.files@.len() - i,
        {
            let f = &src.files[i];
            proof {
                lemma_files_text_mono(src.files@, i + 1, src.files@.len() as int);
            }
            text_charge(&mut left, f.path.len().saturating_add(f.sha256.len()))?;
            if !source_path_ok_exec(f.path.as_slice()) || !sha256_hex_ok_exec(f.sha256.as_slice()) {
                return Err(ItemSourceError::Policy("source file provenance"));
            }
            let mut j: usize = 0;
            while j < i
                invariant
                    j <= i < src.files@.len(),
                    forall|b: int| 0 <= b < j ==> src.files@[b].path@ != src.files@[i as int].path@,
                decreases i - j,
            {
                if bytes_eq(src.files[j].path.as_slice(), f.path.as_slice()) {
                    return Err(ItemSourceError::Policy("source file provenance"));
                }
                j = j + 1;
            }
            i = i + 1;
        }
        let ghost base2 = base - files_text(src.files@, src.files@.len() as int);
        let mut k: usize = 0;
        while k < input.rule_layouts.len()
            invariant
                k <= input.rule_layouts@.len(),
                left == base2 - rules_text(input.rule_layouts@, k as int),
                forall|q: int| 0 <= q < k ==> rule_declared(*li, #[trigger] input.rule_layouts@[q].rule@),
                forall|a: int, b: int| 0 <= a < b < k ==> input.rule_layouts@[a].rule@ != input.rule_layouts@[b].rule@,
            decreases input.rule_layouts@.len() - k,
        {
            let r = &input.rule_layouts[k];
            proof {
                lemma_rules_text_mono(input.rule_layouts@, k + 1, input.rule_layouts@.len() as int);
            }
            text_charge(&mut left, r.rule.len())?;
            let mut known = false;
            let mut m: usize = 0;
            while m < li.rules.len()
                invariant
                    m <= li.rules@.len(),
                    known ==> rule_declared(*li, r.rule@),
                    !known ==> forall|w: int| 0 <= w < m ==> li.rules@[w].id@ != r.rule@,
                decreases li.rules@.len() - m,
            {
                if !known && bytes_eq(li.rules[m].id.as_slice(), r.rule.as_slice()) {
                    known = true;
                }
                m = m + 1;
            }
            if !known {
                return Err(ItemSourceError::Policy("unknown or duplicate rule"));
            }
            let mut j: usize = 0;
            while j < k
                invariant
                    j <= k < input.rule_layouts@.len(),
                    forall|b: int| 0 <= b < j ==> input.rule_layouts@[b].rule@ != input.rule_layouts@[k as int].rule@,
                decreases k - j,
            {
                if bytes_eq(input.rule_layouts[j].rule.as_slice(), r.rule.as_slice()) {
                    return Err(ItemSourceError::Policy("unknown or duplicate rule"));
                }
                j = j + 1;
            }
            k = k + 1;
        }
        let ghost base3 = base2 - rules_text(input.rule_layouts@, input.rule_layouts@.len() as int);
        let mut t: usize = 0;
        while t < input.template_layouts.len()
            invariant
                t <= input.template_layouts@.len(),
                left == base3 - templates_text(input.template_layouts@, t as int),
                forall|q: int| 0 <= q < t ==> template_known(*schema, #[trigger] input.template_layouts@[q].template@),
                forall|a: int, b: int|
                    0 <= a < b < t ==> input.template_layouts@[a].template@ != input.template_layouts@[b].template@,
            decreases input.template_layouts@.len() - t,
        {
            let layout = &input.template_layouts[t];
            proof {
                lemma_templates_text_mono(input.template_layouts@, t + 1, input.template_layouts@.len() as int);
            }
            text_charge(&mut left, layout.template.len())?;
            let mut w: usize = 0;
            while w < schema.templates.len() && !bytes_eq(schema.templates[w].id.as_slice(), layout.template.as_slice())
                invariant
                    w <= schema.templates@.len(),
                    forall|v: int| 0 <= v < w ==> schema.templates@[v].id@ != layout.template@,
                decreases schema.templates@.len() - w,
            {
                w = w + 1;
            }
            let described = w < schema.templates.len() && match &schema.templates[w].schema {
                SchemaEntry::Known(_) => true,
                _ => false,
            };
            if !described {
                return Err(ItemSourceError::Policy("unknown or duplicate template"));
            }
            let mut j: usize = 0;
            while j < t
                invariant
                    j <= t < input.template_layouts@.len(),
                    forall|b: int| 0 <= b < j ==> input.template_layouts@[b].template@ != input.template_layouts@[t as int].template@,
                decreases t - j,
            {
                if bytes_eq(input.template_layouts[j].template.as_slice(), layout.template.as_slice()) {
                    return Err(ItemSourceError::Policy("unknown or duplicate template"));
                }
                j = j + 1;
            }
            t = t + 1;
        }
        Ok(ItemSourceLayoutPolicy { input, limits })
    }

    /// The checked input.
    pub fn input(&self) -> (r: &ItemSourceLayoutPolicyInput)
        ensures
            *r == self.spec_input(),
    {
        &self.input
    }
}

/// The category of a source item modifier line.
#[derive(Clone, Copy, Debug, PartialEq, Eq, Structural)]
pub enum SourceModifierCategory {
    Buff,
    Enchant,
    Implicit,
    Explicit,
}

#[derive(Clone, Copy, Debug, PartialEq, Eq, Structural)]
pub struct SourceModifierSlot {
    pub category: SourceModifierCategory,
    pub ordinal: usize,
    pub line: usize,
}

/// Why a source item layout is not proven.
#[derive(Clone, Copy, Debug, PartialEq, Eq, Structural)]
pub enum ItemSourceProblem {
    ContentUnavailable,
    UnsupportedContentOrder,
    UnsupportedSourceControl,
    UnsupportedChild,
    UnsupportedAttribute,
    MissingRarity,
    UnsupportedRarity,
    UnknownHeader,
    HeaderAfterModifiers,
    MissingImplicitCount,
    InvalidImplicitCount,
    UnknownTemplatePrefix,
    UnknownMember,
    MalformedCapture,
    PossibleCombinedLine,
    UnsupportedTag,
    MalformedTag,
    RuneLifecycle,
    UnprovedTaggedLine,
    InvalidRange,
    InvalidOverlay,
}

#[derive(Debug)]
pub enum ItemLayoutStatus {
    Proven,
    Pending(Vec<ItemSourceProblem>),
    Unsupported(Vec<ItemSourceProblem>),
}

/// Where a range write was read: a span of an inline line, or an XML child
/// of a source occurrence with its optional attribute positions.
#[derive(Debug)]
pub enum ItemRangeOrigin {
    Inline { line: usize, span_start: usize, span_end: usize },
    Xml { occurrence: u64, content_entry: usize, id: Option<u64>, range: Option<u64> },
}

#[derive(Clone, Copy, Debug, PartialEq, Eq, Structural)]
pub enum ItemRangeTarget {
    Line(usize),
    Pending,
    IgnoredOutOfBounds,
}

} // verus!
