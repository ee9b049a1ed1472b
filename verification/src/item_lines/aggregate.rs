//! Whole-text conversion: per-line evidence is folded into item fields,
//! located parameters and modifiers, and issues. A positively matched but
//! unresolved header is never hidden by another line that resolved.
use super::{
    DeclaredSlot, DeclaredSlotView, ItemEmission, ItemLineBudget, ItemLineError, ItemLinePending,
    ItemLineRule, OwnedItemLinePolicy, SlotOwner, SlotOwnerView, TemplateContext,
};
use super::convert::{
    AssignmentView, ConvertedItemEmission, EmissionView, ItemLineEvidence, ItemLineInput,
    ItemLineOutcome, OutcomeView, ParameterAssignment, assignments_view, emissions_view, keys_view, outcome_spec,
    props_view, spend, sum_of, plus_one_sat, lemma_sum_step, lemma_sum_mono,
    lemma_sum_nonneg, line_bytes, line_output, line_work, facts, facts_work, matching_work,
    resolved_work, resolved_output, PropertyFact, line_text, lemma_line_charges_nonneg,
};
use super::matcher::walk_cost;
use super::pattern_view;
use super::schema::{key_set_contains, key_set_contains_exec};
use crate::text::{bytes_eq, copy_bytes};
use crate::gems::{lex_less, lex_lt};
use vstd::prelude::*;

verus! {

/// An item header field: not declared, declared once, or left pending by
/// the listed lines.
#[derive(Debug)]
pub enum ItemField<T> {
    Absent,
    Known { value: T, line: usize },
    Pending { lines: Vec<usize> },
}

pub enum FieldView<T> {
    Absent,
    Known { value: T, line: usize },
    Pending { lines: Seq<usize> },
}

pub open spec fn field_view<T>(f: ItemField<T>) -> FieldView<T> {
    match f {
        ItemField::Absent => FieldView::Absent,
        ItemField::Known { value, line } => FieldView::Known { value, line },
        ItemField::Pending { lines } => FieldView::Pending { lines: lines@ },
    }
}

pub open spec fn template_view(f: ItemField<Vec<u8>>) -> FieldView<Seq<u8>> {
    match f {
        ItemField::Absent => FieldView::Absent,
        ItemField::Known { value, line } => FieldView::Known { value: value@, line },
        ItemField::Pending { lines } => FieldView::Pending { lines: lines@ },
    }
}

pub open spec fn level_view(f: ItemField<i64>) -> FieldView<int> {
    match f {
        ItemField::Absent => FieldView::Absent,
        ItemField::Known { value, line } => FieldView::Known { value: value as int, line },
        ItemField::Pending { lines } => FieldView::Pending { lines: lines@ },
    }
}

/// A problem of the text as a whole.
#[derive(Clone, Copy, Debug, PartialEq, Eq, Structural)]
pub enum ItemTextProblem {
    DuplicateHeader,
    DuplicateParameter,
    TemplateUnavailable,
    WrongParameterOwner,
    ModifierNotAllowed,
    SchemaPartial,
    LevelOutsideSchema,
    RequiredParameterMissing,
}

#[derive(Debug)]
pub struct ItemTextIssue {
    pub problem: ItemTextProblem,
    pub lines: Vec<usize>,
}

pub struct IssueView {
    pub problem: ItemTextProblem,
    pub lines: Seq<usize>,
}

impl View for ItemTextIssue {
    type V = IssueView;

    open spec fn view(&self) -> IssueView {
        IssueView { problem: self.problem, lines: self.lines@ }
    }
}

pub open spec fn issues_view(s: Seq<ItemTextIssue>) -> Seq<IssueView> {
    s.map_values(|i: ItemTextIssue| i@)
}

/// An item parameter with the line and emission that declared it.
#[derive(Debug)]
pub struct LocatedItemParameter {
    pub line: usize,
    pub emission: usize,
    pub assignment: ParameterAssignment,
}

pub struct ParamView {
    pub line: usize,
    pub emission: usize,
    pub assignment: AssignmentView,
}

impl View for LocatedItemParameter {
    type V = ParamView;

    open spec fn view(&self) -> ParamView {
        ParamView { line: self.line, emission: self.emission, assignment: self.assignment@ }
    }
}

pub open spec fn params_view(s: Seq<LocatedItemParameter>) -> Seq<ParamView> {
    s.map_values(|p: LocatedItemParameter| p@)
}

/// A modifier with the line and emission that declared it.
#[derive(Debug)]
pub struct LocatedItemModifier {
    pub line: usize,
    pub emission: usize,
    pub definition: Vec<u8>,
    pub rolls: Vec<ParameterAssignment>,
}

pub struct ModView {
    pub line: usize,
    pub emission: usize,
    pub definition: Seq<u8>,
    pub rolls: Seq<AssignmentView>,
}

impl View for LocatedItemModifier {
    type V = ModView;

    open spec fn view(&self) -> ModView {
        ModView {
            line: self.line,
            emission: self.emission,
            definition: self.definition@,
            rolls: assignments_view(self.rolls@),
        }
    }
}

pub open spec fn mods_view(s: Seq<LocatedItemModifier>) -> Seq<ModView> {
    s.map_values(|m: LocatedItemModifier| m@)
}

pub struct EvidenceView {
    pub index: usize,
    pub text: Seq<u8>,
    pub outcome: OutcomeView,
}

impl View for ItemLineEvidence {
    type V = EvidenceView;

    open spec fn view(&self) -> EvidenceView {
        EvidenceView { index: self.index, text: self.text@, outcome: self.outcome@ }
    }
}

pub open spec fn evidence_view(s: Seq<ItemLineEvidence>) -> Seq<EvidenceView> {
    s.map_values(|e: ItemLineEvidence| e@)
}

/// The converted text: every line's evidence, the item fields, the located
/// parameters and modifiers that survived checking, and the issues found.
#[derive(Debug)]
pub struct ItemTextConversion {
    pub lines: Vec<ItemLineEvidence>,
    pub template: ItemField<Vec<u8>>,
    pub item_level: ItemField<i64>,
    pub modifiers: Vec<LocatedItemModifier>,
    pub parameters: Vec<LocatedItemParameter>,
    pub issues: Vec<ItemTextIssue>,
}

/// Everything of a conversion but its line evidence.
pub struct ConversionView {
    pub template: FieldView<Seq<u8>>,
    pub level: FieldView<int>,
    pub modifiers: Seq<ModView>,
    pub parameters: Seq<ParamView>,
    pub issues: Seq<IssueView>,
}

pub open spec fn conversion_view(c: ItemTextConversion) -> ConversionView {
    ConversionView {
        template: template_view(c.template),
        level: level_view(c.item_level),
        modifiers: mods_view(c.modifiers@),
        parameters: params_view(c.parameters@),
        issues: issues_view(c.issues@),
    }
}

// ---------------------------------------------------------------------------
// Field updates.

/// A line leaves a field pending: a known field becomes pending on both its
/// line and this one; a pending field records the line once.
pub open spec fn pending_spec<T>(f: FieldView<T>, line: usize) -> FieldView<T> {
    match f {
        FieldView::Known { line: first, .. } => FieldView::Pending {
            lines: if first == line {
                seq![line]
            } else {
                seq![first, line]
            },
        },
        FieldView::Pending { lines } => FieldView::Pending {
            lines: if lines.len() > 0 && lines.last() == line {
                lines
            } else {
                lines.push(line)
            },
        },
        FieldView::Absent => FieldView::Pending { lines: seq![line] },
    }
}

/// A line declares a field: the first declaration is known, any further one
/// leaves the field pending and reports a duplicate header.
pub open spec fn set_spec<T>(f: FieldView<T>, value: T, line: usize, issues: Seq<IssueView>) -> (
    FieldView<T>,
    Seq<IssueView>,
) {
    match f {
        FieldView::Absent => (FieldView::Known { value, line }, issues),
        _ => {
            let p = pending_spec(f, line);
            let lines = p->Pending_lines;
            (
                p,
                issues.push(
                    IssueView {
                        problem: ItemTextProblem::DuplicateHeader,
                        lines: if lines[0] == line {
                            seq![line]
                        } else {
                            seq![lines[0], line]
                        },
                    },
                ),
            )
        },
    }
}

proof fn lemma_pending_nonempty<T>(f: FieldView<T>, line: usize)
    ensures
        pending_spec(f, line) is Pending,
        pending_spec(f, line)->Pending_lines.len() > 0,
{
}

/// Mark a field pending on `line`.
pub fn pending_field<T>(field: &mut ItemField<T>, line: usize)
    ensures
        field_view(*final(field)) == pending_spec(field_view(*old(field)), line),
{
    let mut old_field: ItemField<T> = ItemField::Absent;
    std::mem::swap(field, &mut old_field);
    let next = match old_field {
        ItemField::Known { line: first, .. } => {
            let mut lines: Vec<usize> = Vec::new();
            if first != line {
                lines.push(first);
            }
            lines.push(line);
            ItemField::Pending { lines }
        },
        ItemField::Pending { mut lines } => {
            let n = lines.len();
            if !(n > 0 && lines[n - 1] == line) {
                lines.push(line);
            }
            ItemField::Pending { lines }
        },
        ItemField::Absent => {
            let mut lines: Vec<usize> = Vec::new();
            lines.push(line);
            ItemField::Pending { lines }
        },
    };
    proof {
        match field_view(next) {
            FieldView::Pending { lines } => {
                assert(lines =~= pending_spec(field_view(old_field), line)->Pending_lines);
            },
            _ => {},
        }
    }
    *field = next;
}

/// Declare a field on `line`, reporting a duplicate header when it was
/// already declared or pending.
pub fn set_field<T>(field: &mut ItemField<T>, value: T, line: usize, issues: &mut Vec<ItemTextIssue>)
    ensures
        (field_view(*final(field)), issues_view(final(issues)@)) == set_spec(
            field_view(*old(field)),
            value,
            line,
            issues_view(old(issues)@),
        ),
{
    if let ItemField::Absent = field {
        *field = ItemField::Known { value, line };
        return;
    }
    pending_field(field, line);
    proof {
        lemma_pending_nonempty(field_view(*old(field)), line);
    }
    let first = match field {
        ItemField::Pending { lines } => lines[0],
        _ => line,
    };
    let mut lines: Vec<usize> = Vec::new();
    if first != line {
        lines.push(first);
    }
    lines.push(line);
    let ghost before = issues_view(issues@);
    issues.push(ItemTextIssue { problem: ItemTextProblem::DuplicateHeader, lines });
    proof {
        assert(issues_view(issues@) =~= before.push(issues@.last()@));
        let p = pending_spec(field_view(*old(field)), line);
        let expected = if p->Pending_lines[0] == line {
            seq![line]
        } else {
            seq![p->Pending_lines[0], line]
        };
        assert(issues@.last()@.lines =~= expected);
    }
}


// ---------------------------------------------------------------------------
// The fold over line evidence.

/// What the fold has gathered so far; `occ` lists each parameter slot with the
/// lines that declared it or left it pending, in first-occurrence order.
pub struct AggState {
    pub template: FieldView<Seq<u8>>,
    pub level: FieldView<int>,
    pub modifiers: Seq<ModView>,
    pub parameters: Seq<ParamView>,
    pub issues: Seq<IssueView>,
    pub occ: Seq<(DeclaredSlotView, Seq<usize>)>,
}

pub open spec fn initial_state() -> AggState {
    AggState {
        template: FieldView::Absent,
        level: FieldView::Absent,
        modifiers: seq![],
        parameters: seq![],
        issues: seq![],
        occ: seq![],
    }
}

/// Position of `slot` in `occ` at or after `i`, or `occ.len()`.
pub open spec fn occ_index(occ: Seq<(DeclaredSlotView, Seq<usize>)>, slot: DeclaredSlotView, i: int) -> int
    decreases occ.len() - i,
{
    if i < 0 || i >= occ.len() {
        occ.len() as int
    } else if occ[i].0 == slot {
        i
    } else {
        occ_index(occ, slot, i + 1)
    }
}

pub open spec fn owner_rank(o: SlotOwnerView) -> int {
    match o {
        SlotOwnerView::ItemTemplate(_) => 0,
        SlotOwnerView::Modifier(_) => 1,
    }
}

pub open spec fn owner_key(o: SlotOwnerView) -> Seq<u8> {
    match o {
        SlotOwnerView::ItemTemplate(k) => k,
        SlotOwnerView::Modifier(k) => k,
    }
}

/// Declared slots are ordered by their declaration's kind and key, then by
/// their own key, bytewise.
pub open spec fn slot_before(a: DeclaredSlotView, b: DeclaredSlotView) -> bool {
    ||| owner_rank(a.declaration) < owner_rank(b.declaration)
    ||| owner_rank(a.declaration) == owner_rank(b.declaration) && lex_lt(
        owner_key(a.declaration),
        owner_key(b.declaration),
    )
    ||| owner_rank(a.declaration) == owner_rank(b.declaration) && owner_key(a.declaration) == owner_key(
        b.declaration,
    ) && lex_lt(a.slot, b.slot)
}

/// Where a new slot goes among the recorded ones: before the first that it
/// sorts before, at or after `i`.
pub open spec fn occ_position(occ: Seq<(DeclaredSlotView, Seq<usize>)>, slot: DeclaredSlotView, i: int) -> int
    decreases occ.len() - i,
{
    if i < 0 || i >= occ.len() {
        occ.len() as int
    } else if slot_before(slot, occ[i].0) {
        i
    } else {
        occ_position(occ, slot, i + 1)
    }
}

/// Record that `line` declares (or may declare) `slot`; with `dedupe`, a line
/// already recorded last is not recorded again. A slot met for the first
/// time is recorded in slot order.
pub open spec fn occ_add(
    occ: Seq<(DeclaredSlotView, Seq<usize>)>,
    slot: DeclaredSlotView,
    line: usize,
    dedupe: bool,
) -> Seq<(DeclaredSlotView, Seq<usize>)> {
    let p = occ_index(occ, slot, 0);
    if p < occ.len() {
        let ls = occ[p].1;
        if dedupe && ls.len() > 0 && ls.last() == line {
            occ
        } else {
            occ.update(p, (occ[p].0, ls.push(line)))
        }
    } else {
        occ.insert(occ_position(occ, slot, 0), (slot, seq![line]))
    }
}

/// Number of lines recorded for `slot`.
pub open spec fn occ_count(occ: Seq<(DeclaredSlotView, Seq<usize>)>, slot: DeclaredSlotView) -> nat {
    let p = occ_index(occ, slot, 0);
    if p < occ.len() {
        occ[p].1.len()
    } else {
        0
    }
}

/// One emission of a known line.
pub open spec fn known_step(s: AggState, line: usize, e: int, em: EmissionView) -> AggState {
    match em {
        EmissionView::Template { definition } => {
            let (f, issues) = set_spec(s.template, definition, line, s.issues);
            AggState { template: f, issues, ..s }
        },
        EmissionView::ItemLevel { value } => {
            let (f, issues) = set_spec(s.level, value, line, s.issues);
            AggState { level: f, issues, ..s }
        },
        EmissionView::ItemParameter { assignment } => AggState {
            occ: occ_add(s.occ, assignment.slot, line, false),
            parameters: s.parameters.push(ParamView { line, emission: e as usize, assignment }),
            ..s
        },
        EmissionView::Modifier { definition, rolls } => AggState {
            modifiers: s.modifiers.push(ModView { line, emission: e as usize, definition, rolls }),
            ..s
        },
        EmissionView::Metadata { .. } => s,
    }
}

pub open spec fn known_upto(s: AggState, line: usize, ems: Seq<EmissionView>, n: int) -> AggState
    decreases n,
{
    if n <= 0 {
        s
    } else {
        known_step(known_upto(s, line, ems, n - 1), line, n - 1, ems[n - 1])
    }
}

/// Index of the rule with identifier `id`, at or after `i`.
pub open spec fn rule_index(rules: Seq<ItemLineRule>, id: Seq<u8>, i: int) -> Option<int>
    decreases rules.len() - i,
{
    if i < 0 || i >= rules.len() {
        None
    } else if rules[i].id@ == id {
        Some(i)
    } else {
        rule_index(rules, id, i + 1)
    }
}

/// One emission of a candidate rule of a pending line: what it could have
/// declared becomes pending on this line.
pub open spec fn cand_em_step(s: AggState, line: usize, em: ItemEmission) -> AggState {
    match em {
        ItemEmission::ItemParameter { slot, .. } => AggState { occ: occ_add(s.occ, slot@, line, true), ..s },
        ItemEmission::Template { .. } => AggState { template: pending_spec(s.template, line), ..s },
        ItemEmission::ItemLevel { .. } => AggState { level: pending_spec(s.level, line), ..s },
        _ => s,
    }
}

pub open spec fn cand_ems_upto(s: AggState, line: usize, ems: Seq<ItemEmission>, n: int) -> AggState
    decreases n,
{
    if n <= 0 {
        s
    } else {
        cand_em_step(cand_ems_upto(s, line, ems, n - 1), line, ems[n - 1])
    }
}

pub open spec fn cand_step(s: AggState, line: usize, rules: Seq<ItemLineRule>, id: Seq<u8>) -> AggState {
    match rule_index(rules, id, 0) {
        Some(i) => cand_ems_upto(s, line, rules[i].emissions@, rules[i].emissions@.len() as int),
        None => s,
    }
}

pub open spec fn cands_upto(
    s: AggState,
    line: usize,
    rules: Seq<ItemLineRule>,
    cands: Seq<Seq<u8>>,
    n: int,
) -> AggState
    decreases n,
{
    if n <= 0 {
        s
    } else {
        cand_step(cands_upto(s, line, rules, cands, n - 1), line, rules, cands[n - 1])
    }
}

pub open spec fn line_step(s: AggState, rules: Seq<ItemLineRule>, ev: EvidenceView) -> AggState {
    match ev.outcome {
        OutcomeView::Known { emissions, .. } => known_upto(s, ev.index, emissions, emissions.len() as int),
        OutcomeView::Pending { candidates, .. } => cands_upto(
            s,
            ev.index,
            rules,
            candidates,
            candidates.len() as int,
        ),
    }
}

/// The fold over the first `n` lines.
pub open spec fn lines_upto(rules: Seq<ItemLineRule>, evs: Seq<EvidenceView>, n: int) -> AggState
    decreases n,
{
    if n <= 0 {
        initial_state()
    } else {
        line_step(lines_upto(rules, evs, n - 1), rules, evs[n - 1])
    }
}

// ---------------------------------------------------------------------------
// After the fold.

/// A duplicate-parameter issue for every slot recorded on more than one line.
pub open spec fn dup_upto(occ: Seq<(DeclaredSlotView, Seq<usize>)>, n: int) -> Seq<IssueView>
    decreases n,
{
    if n <= 0 {
        seq![]
    } else if occ[n - 1].1.len() > 1 {
        dup_upto(occ, n - 1).push(IssueView { problem: ItemTextProblem::DuplicateParameter, lines: occ[n - 1].1 })
    } else {
        dup_upto(occ, n - 1)
    }
}

/// The parameters whose slot was declared by exactly one line.
pub open spec fn single_upto(ps: Seq<ParamView>, occ: Seq<(DeclaredSlotView, Seq<usize>)>, n: int) -> Seq<
    ParamView,
>
    decreases n,
{
    if n <= 0 {
        seq![]
    } else if occ_count(occ, ps[n - 1].assignment.slot) == 1 {
        single_upto(ps, occ, n - 1).push(ps[n - 1])
    } else {
        single_upto(ps, occ, n - 1)
    }
}

/// Lines whose declarations cannot be checked without a known template.
pub open spec fn unresolved_lines(s: AggState) -> Seq<usize> {
    s.modifiers.map_values(|m: ModView| m.line) + s.parameters.map_values(|p: ParamView| p.line) + match s.level {
        FieldView::Known { line, .. } => seq![line],
        _ => seq![],
    }
}

/// Without a known template nothing is checked: the item level, modifiers and
/// parameters cannot be attributed and the lines that declared them are listed.
pub open spec fn without_template(s: AggState) -> ConversionView {
    let u = unresolved_lines(s);
    ConversionView {
        template: s.template,
        level: match s.level {
            FieldView::Known { line, .. } => pending_spec(s.level, line),
            _ => s.level,
        },
        modifiers: seq![],
        parameters: seq![],
        issues: if u.len() > 0 {
            s.issues.push(IssueView { problem: ItemTextProblem::TemplateUnavailable, lines: u })
        } else {
            s.issues
        },
    }
}

pub open spec fn context_index(templates: Seq<TemplateContext>, id: Seq<u8>, i: int) -> Option<int>
    decreases templates.len() - i,
{
    if i < 0 || i >= templates.len() {
        None
    } else if templates[i].template@ == id {
        Some(i)
    } else {
        context_index(templates, id, i + 1)
    }
}

pub open spec fn owner_kept(ps: Seq<ParamView>, owner: SlotOwnerView, n: int) -> Seq<ParamView>
    decreases n,
{
    if n <= 0 {
        seq![]
    } else if ps[n - 1].assignment.slot.declaration == owner {
        owner_kept(ps, owner, n - 1).push(ps[n - 1])
    } else {
        owner_kept(ps, owner, n - 1)
    }
}

pub open spec fn owner_issues(ps: Seq<ParamView>, owner: SlotOwnerView, n: int) -> Seq<IssueView>
    decreases n,
{
    if n <= 0 {
        seq![]
    } else if ps[n - 1].assignment.slot.declaration == owner {
        owner_issues(ps, owner, n - 1)
    } else {
        owner_issues(ps, owner, n - 1).push(
            IssueView { problem: ItemTextProblem::WrongParameterOwner, lines: seq![ps[n - 1].line] },
        )
    }
}

pub open spec fn mods_kept(ms: Seq<ModView>, ctx: TemplateContext, n: int) -> Seq<ModView>
    decreases n,
{
    if n <= 0 {
        seq![]
    } else if key_set_contains(ctx.modifiers, ms[n - 1].definition) {
        mods_kept(ms, ctx, n - 1).push(ms[n - 1])
    } else {
        mods_kept(ms, ctx, n - 1)
    }
}

pub open spec fn mods_issues(ms: Seq<ModView>, ctx: TemplateContext, n: int) -> Seq<IssueView>
    decreases n,
{
    if n <= 0 {
        seq![]
    } else if key_set_contains(ctx.modifiers, ms[n - 1].definition) {
        mods_issues(ms, ctx, n - 1)
    } else {
        mods_issues(ms, ctx, n - 1).push(
            IssueView {
                problem: if ctx.modifiers.complete {
                    ItemTextProblem::ModifierNotAllowed
                } else {
                    ItemTextProblem::SchemaPartial
                },
                lines: seq![ms[n - 1].line],
            },
        )
    }
}

/// A required slot of the template that no kept parameter supplies.
pub open spec fn supplies(ps: Seq<ParamView>, slot: DeclaredSlotView) -> bool {
    exists|q: int| 0 <= q < ps.len() && #[trigger] ps[q].assignment.slot == slot
}

pub open spec fn required_missing(ctx: TemplateContext, ps: Seq<ParamView>) -> bool {
    exists|r: int|
        0 <= r < ctx.required_parameters@.len() && !supplies(ps, #[trigger] ctx.required_parameters@[r]@)
}

/// The checks against a known template's schema context.
pub open spec fn with_template(s: AggState, ctx: TemplateContext, t: Seq<u8>) -> ConversionView {
    let owner = SlotOwnerView::ItemTemplate(t);
    let kept = owner_kept(s.parameters, owner, s.parameters.len() as int);
    let i1 = s.issues + owner_issues(s.parameters, owner, s.parameters.len() as int);
    let mods = mods_kept(s.modifiers, ctx, s.modifiers.len() as int);
    let i2 = i1 + mods_issues(s.modifiers, ctx, s.modifiers.len() as int);
    let outside = match s.level {
        FieldView::Known { value, .. } => value < ctx.level.minimum || value > ctx.level.maximum,
        _ => false,
    };
    let level = if outside {
        pending_spec(s.level, s.level->Known_line)
    } else {
        s.level
    };
    let i3 = if outside {
        i2.push(IssueView { problem: ItemTextProblem::LevelOutsideSchema, lines: seq![s.level->Known_line] })
    } else {
        i2
    };
    let i4 = if required_missing(ctx, kept) {
        i3.push(IssueView { problem: ItemTextProblem::RequiredParameterMissing, lines: seq![] })
    } else {
        i3
    };
    let i5 = if !ctx.parameters_complete {
        i4.push(IssueView { problem: ItemTextProblem::SchemaPartial, lines: seq![] })
    } else {
        i4
    };
    ConversionView { template: s.template, level, modifiers: mods, parameters: kept, issues: i5 }
}

/// The conversion of folded evidence; `None` when a known template has no
/// checked context.
pub open spec fn finish(s: AggState, templates: Seq<TemplateContext>) -> Option<ConversionView> {
    let s1 = AggState {
        issues: s.issues + dup_upto(s.occ, s.occ.len() as int),
        parameters: single_upto(s.parameters, s.occ, s.parameters.len() as int),
        ..s
    };
    match s.template {
        FieldView::Known { value, .. } => match context_index(templates, value, 0) {
            Some(c) => Some(with_template(s1, templates[c], value)),
            None => None,
        },
        _ => Some(without_template(s1)),
    }
}

/// The whole-text result of a sequence of line evidence.
pub open spec fn aggregate_spec(
    rules: Seq<ItemLineRule>,
    templates: Seq<TemplateContext>,
    evs: Seq<EvidenceView>,
) -> Option<ConversionView> {
    finish(lines_upto(rules, evs, evs.len() as int), templates)
}

/// The emissions of the rule a candidate identifier names; none for an
/// identifier that no rule has.
pub open spec fn cand_emissions(rules: Seq<ItemLineRule>, id: Seq<u8>) -> int {
    match rule_index(rules, id, 0) {
        Some(i) => rules[i].emissions@.len() as int,
        None => 0,
    }
}

/// Work one candidate of a pending line is charged: one unit, and one per
/// emission of its rule.
pub open spec fn cand_work(rules: Seq<ItemLineRule>, id: Seq<u8>) -> int {
    1 + cand_emissions(rules, id)
}

/// Work folding one line is charged: one unit per emission of a known line,
/// and the work of every candidate of a pending line.
pub open spec fn fold_line_work(rules: Seq<ItemLineRule>, ev: EvidenceView) -> int {
    match ev.outcome {
        OutcomeView::Known { emissions, .. } => emissions.len() as int,
        OutcomeView::Pending { candidates, .. } => sum_of(candidates, |c: Seq<u8>| cand_work(rules, c)),
    }
}

/// Output declarations folding one line is charged: one per emission that
/// the candidates of a pending line could have made.
pub open spec fn fold_line_output(rules: Seq<ItemLineRule>, ev: EvidenceView) -> int {
    match ev.outcome {
        OutcomeView::Known { .. } => 0,
        OutcomeView::Pending { candidates, .. } => sum_of(candidates, |c: Seq<u8>| cand_emissions(rules, c)),
    }
}

pub open spec fn fold_work(rules: Seq<ItemLineRule>, evs: Seq<EvidenceView>) -> int {
    sum_of(evs, |ev: EvidenceView| fold_line_work(rules, ev))
}

pub open spec fn fold_output(rules: Seq<ItemLineRule>, evs: Seq<EvidenceView>) -> int {
    sum_of(evs, |ev: EvidenceView| fold_line_output(rules, ev))
}

/// `a + b`, saturating at the largest `usize`.
pub open spec fn sat_sum(a: int, b: int) -> int {
    if a + b > usize::MAX {
        usize::MAX as int
    } else {
        a + b
    }
}

/// Work the checks against a template context are charged: each modifier
/// is looked up among the allowed ones, and the required slots are compared
/// with the kept parameters.
pub open spec fn settle_work(s: AggState, ctx: TemplateContext, t: Seq<u8>) -> int {
    s.modifiers.len() * plus_one_sat(ctx.modifiers.members@.len() as int) + sat_sum(
        ctx.required_parameters@.len() as int,
        owner_kept(s.parameters, SlotOwnerView::ItemTemplate(t), s.parameters.len() as int).len() as int,
    )
}

/// The folded state once duplicate parameters are settled.
pub open spec fn deduped(s: AggState) -> AggState {
    AggState {
        issues: s.issues + dup_upto(s.occ, s.occ.len() as int),
        parameters: single_upto(s.parameters, s.occ, s.parameters.len() as int),
        ..s
    }
}

/// All the work aggregating a sequence of line evidence is charged.
pub open spec fn aggregate_work(
    rules: Seq<ItemLineRule>,
    templates: Seq<TemplateContext>,
    evs: Seq<EvidenceView>,
) -> int {
    let s = lines_upto(rules, evs, evs.len() as int);
    fold_work(rules, evs) + match s.template {
        FieldView::Known { value, .. } => match context_index(templates, value, 0) {
            Some(c) => settle_work(deduped(s), templates[c], value),
            None => 0,
        },
        _ => 0,
    }
}


// ---------------------------------------------------------------------------
// Executable fold.

pub open spec fn occ_view(o: Seq<(DeclaredSlot, Vec<usize>)>) -> Seq<(DeclaredSlotView, Seq<usize>)> {
    o.map_values(|x: (DeclaredSlot, Vec<usize>)| (x.0@, x.1@))
}

/// The state of the fold while it walks the lines.
struct Accumulator {
    template: ItemField<Vec<u8>>,
    level: ItemField<i64>,
    modifiers: Vec<LocatedItemModifier>,
    parameters: Vec<LocatedItemParameter>,
    issues: Vec<ItemTextIssue>,
    occ: Vec<(DeclaredSlot, Vec<usize>)>,
}

spec fn acc_view(a: Accumulator) -> AggState {
    AggState {
        template: template_view(a.template),
        level: level_view(a.level),
        modifiers: mods_view(a.modifiers@),
        parameters: params_view(a.parameters@),
        issues: issues_view(a.issues@),
        occ: occ_view(a.occ@),
    }
}

fn copy_lines(v: &Vec<usize>) -> (r: Vec<usize>)
    ensures
        r@ == v@,
{
    let mut r: Vec<usize> = Vec::new();
    let mut k: usize = 0;
    while k < v.len()
        invariant
            k <= v@.len(),
            r@ == v@.take(k as int),
        decreases v@.len() - k,
    {
        r.push(v[k]);
        k = k + 1;
        assert(r@ =~= v@.take(k as int));
    }
    assert(v@.take(v@.len() as int) =~= v@);
    r
}

fn occ_record(occ: &mut Vec<(DeclaredSlot, Vec<usize>)>, slot: &DeclaredSlot, line: usize, dedupe: bool)
    ensures
        occ_view(final(occ)@) == occ_add(occ_view(old(occ)@), slot@, line, dedupe),
{
    let ghost ov = occ_view(occ@);
    let mut p: usize = 0;
    while p < occ.len() && !occ[p].0.same(slot)
        invariant
            p <= occ@.len(),
            ov == occ_view(occ@),
            occ@ == old(occ)@,
            occ_index(ov, slot@, 0) == occ_index(ov, slot@, p as int),
        decreases occ@.len() - p,
    {
        p = p + 1;
    }
    if p < occ.len() {
        let n = occ[p].1.len();
        if dedupe && n > 0 && occ[p].1[n - 1] == line {
            return;
        }
        let mut lines = copy_lines(&occ[p].1);
        lines.push(line);
        let key = occ[p].0.duplicate();
        occ.set(p, (key, lines));
        assert(occ_view(occ@) =~= ov.update(p as int, (ov[p as int].0, ov[p as int].1.push(line))));
    } else {
        let mut fresh: Vec<usize> = Vec::new();
        fresh.push(line);
        assert(fresh@ =~= seq![line]);
        let mut q: usize = 0;
        while q < occ.len() && !slot_before_exec(slot, &occ[q].0)
            invariant
                q <= occ@.len(),
                ov == occ_view(occ@),
                occ@ == old(occ)@,
                occ_position(ov, slot@, 0) == occ_position(ov, slot@, q as int),
            decreases occ@.len() - q,
        {
            assert(ov[q as int].0 == occ@[q as int].0@);
            q = q + 1;
        }
        proof {
            if q < occ@.len() {
                assert(ov[q as int].0 == occ@[q as int].0@);
            }
        }
        let d = slot.duplicate();
        occ.insert(q, (d, fresh));
        assert(occ_view(occ@) =~= ov.insert(q as int, (slot@, seq![line])));
    }
}

fn owner_parts(o: &SlotOwner) -> (r: (u8, &Vec<u8>))
    ensures
        r.0 as int == owner_rank(o@),
        r.1@ == owner_key(o@),
{
    match o {
        SlotOwner::ItemTemplate(k) => (0, k),
        SlotOwner::Modifier(k) => (1, k),
    }
}

fn slot_before_exec(a: &DeclaredSlot, b: &DeclaredSlot) -> (r: bool)
    ensures
        r == slot_before(a@, b@),
{
    let (ra, ka) = owner_parts(&a.declaration);
    let (rb, kb) = owner_parts(&b.declaration);
    if ra != rb {
        return ra < rb;
    }
    if lex_less(ka.as_slice(), kb.as_slice()) {
        return true;
    }
    if !bytes_eq(ka.as_slice(), kb.as_slice()) {
        return false;
    }
    lex_less(a.slot.as_slice(), b.slot.as_slice())
}

proof fn lemma_template_pending(f: ItemField<Vec<u8>>, g: ItemField<Vec<u8>>, line: usize)
    requires
        field_view(g) == pending_spec(field_view(f), line),
    ensures
        template_view(g) == pending_spec(template_view(f), line),
{
}

proof fn lemma_level_pending(f: ItemField<i64>, g: ItemField<i64>, line: usize)
    requires
        field_view(g) == pending_spec(field_view(f), line),
    ensures
        level_view(g) == pending_spec(level_view(f), line),
{
}

proof fn lemma_template_set(
    f: ItemField<Vec<u8>>,
    g: ItemField<Vec<u8>>,
    v: Vec<u8>,
    line: usize,
    i0: Seq<IssueView>,
    i1: Seq<IssueView>,
)
    requires
        (field_view(g), i1) == set_spec(field_view(f), v, line, i0),
    ensures
        (template_view(g), i1) == set_spec(template_view(f), v@, line, i0),
{
}

proof fn lemma_level_set(
    f: ItemField<i64>,
    g: ItemField<i64>,
    v: i64,
    line: usize,
    i0: Seq<IssueView>,
    i1: Seq<IssueView>,
)
    requires
        (field_view(g), i1) == set_spec(field_view(f), v, line, i0),
    ensures
        (level_view(g), i1) == set_spec(level_view(f), v as int, line, i0),
{
}

impl ParameterAssignment {
    pub fn duplicate(&self) -> (r: ParameterAssignment)
        ensures
            r@ == self@,
    {
        ParameterAssignment { slot: self.slot.duplicate(), value: self.value.duplicate() }
    }
}

fn copy_assignments(v: &Vec<ParameterAssignment>) -> (r: Vec<ParameterAssignment>)
    ensures
        assignments_view(r@) == assignments_view(v@),
{
    let mut r: Vec<ParameterAssignment> = Vec::new();
    let mut k: usize = 0;
    while k < v.len()
        invariant
            k <= v@.len(),
            r@.len() == k,
            forall|j: int| 0 <= j < k ==> r@[j]@ == v@[j]@,
        decreases v@.len() - k,
    {
        r.push(v[k].duplicate());
        k = k + 1;
    }
    assert(assignments_view(r@) =~= assignments_view(v@));
    r
}

fn known_line(a: &mut Accumulator, line: usize, ems: &Vec<ConvertedItemEmission>, work: &mut usize) -> (r: Result<
    (),
    ItemLineError,
>)
    ensures
        r is Ok ==> acc_view(*final(a)) == known_upto(acc_view(*old(a)), line, emissions_view(ems@), ems@.len() as int),
        r is Ok <==> ems@.len() <= *old(work),
        r is Ok ==> *final(work) == *old(work) - ems@.len(),
        r matches Err(e) ==> e matches ItemLineError::Limit(_),
        *final(work) <= *old(work),
{
    let ghost start = acc_view(*a);
    let ghost evs = emissions_view(ems@);
    let mut e: usize = 0;
    while e < ems.len()
        invariant
            e <= ems@.len(),
            evs == emissions_view(ems@),
            acc_view(*a) == known_upto(start, line, evs, e as int),
            *work == *old(work) - e,
        decreases ems@.len() - e,
    {
        spend(work, 1, ItemLineBudget::Work)?;
        let ghost before = *a;
        match &ems[e] {
            ConvertedItemEmission::Template { definition } => {
                set_field(&mut a.template, copy_bytes(definition.as_slice()), line, &mut a.issues);
                proof {
                    lemma_template_set(before.template, a.template, a.template->Known_value, line, issues_view(before.issues@), issues_view(a.issues@));
                }
            },
            ConvertedItemEmission::ItemLevel { value } => {
                set_field(&mut a.level, *value, line, &mut a.issues);
                proof {
                    lemma_level_set(before.level, a.level, *value, line, issues_view(before.issues@), issues_view(a.issues@));
                }
            },
            ConvertedItemEmission::ItemParameter { assignment } => {
                occ_record(&mut a.occ, &assignment.slot, line, false);
                a.parameters.push(LocatedItemParameter { line, emission: e, assignment: assignment.duplicate() });
                assert(params_view(a.parameters@) =~= params_view(before.parameters@).push(
                    ParamView { line, emission: e, assignment: assignment@ },
                ));
            },
            ConvertedItemEmission::Modifier { definition, rolls } => {
                a.modifiers.push(LocatedItemModifier {
                    line,
                    emission: e,
                    definition: copy_bytes(definition.as_slice()),
                    rolls: copy_assignments(rolls),
                });
                assert(mods_view(a.modifiers@) =~= mods_view(before.modifiers@).push(
                    ModView { line, emission: e, definition: definition@, rolls: assignments_view(rolls@) },
                ));
            },
            ConvertedItemEmission::Metadata { .. } => {},
        }
        e = e + 1;
    }
    Ok(())
}


fn find_rule(rules: &Vec<ItemLineRule>, id: &[u8]) -> (r: Option<usize>)
    ensures
        match r {
            Some(i) => rule_index(rules@, id@, 0) == Some(i as int) && i < rules@.len(),
            None => rule_index(rules@, id@, 0) is None,
        },
{
    let mut k: usize = 0;
    while k < rules.len()
        invariant
            k <= rules@.len(),
            rule_index(rules@, id@, 0) == rule_index(rules@, id@, k as int),
        decreases rules@.len() - k,
    {
        if bytes_eq(rules[k].id.as_slice(), id) {
            return Some(k);
        }
        k = k + 1;
    }
    None
}

fn candidate_emissions(
    a: &mut Accumulator,
    line: usize,
    ems: &Vec<ItemEmission>,
    work: &mut usize,
    output: &mut usize,
) -> (r: Result<(), ItemLineError>)
    ensures
        r is Ok ==> acc_view(*final(a)) == cand_ems_upto(acc_view(*old(a)), line, ems@, ems@.len() as int),
        r is Ok <==> ems@.len() <= *old(work) && ems@.len() <= *old(output),
        r is Ok ==> *final(work) == *old(work) - ems@.len() && *final(output) == *old(output) - ems@.len(),
        r matches Err(e) ==> e matches ItemLineError::Limit(_),
        *final(work) <= *old(work),
        *final(output) <= *old(output),
{
    let ghost start = acc_view(*a);
    let mut e: usize = 0;
    while e < ems.len()
        invariant
            e <= ems@.len(),
            acc_view(*a) == cand_ems_upto(start, line, ems@, e as int),
            *work == *old(work) - e,
            *output == *old(output) - e,
        decreases ems@.len() - e,
    {
        spend(work, 1, ItemLineBudget::Work)?;
        spend(output, 1, ItemLineBudget::OutputDeclarations)?;
        let ghost before = *a;
        match &ems[e] {
            ItemEmission::ItemParameter { slot, .. } => {
                occ_record(&mut a.occ, slot, line, true);
            },
            ItemEmission::Template { .. } => {
                pending_field(&mut a.template, line);
                proof {
                    lemma_template_pending(before.template, a.template, line);
                }
            },
            ItemEmission::ItemLevel { .. } => {
                pending_field(&mut a.level, line);
                proof {
                    lemma_level_pending(before.level, a.level, line);
                }
            },
            _ => {},
        }
        e = e + 1;
    }
    Ok(())
}

/// What folding one line charges is never negative.
proof fn lemma_sum_nonneg_seq(rules: Seq<ItemLineRule>, ev: EvidenceView)
    ensures
        fold_line_work(rules, ev) >= 0,
        fold_line_output(rules, ev) >= 0,
{
    if let OutcomeView::Pending { candidates, .. } = ev.outcome {
        let fw = |c: Seq<u8>| cand_work(rules, c);
        let fo = |c: Seq<u8>| cand_emissions(rules, c);
        assert forall|x: Seq<u8>| #[trigger] fw(x) >= 0 by {}
        assert forall|x: Seq<u8>| #[trigger] fo(x) >= 0 by {}
        lemma_sum_nonneg(candidates, fw);
        lemma_sum_nonneg(candidates, fo);
    }
}

impl OwnedItemLinePolicy {
    fn candidates(
        &self,
        a: &mut Accumulator,
        line: usize,
        cands: &Vec<Vec<u8>>,
        work: &mut usize,
        output: &mut usize,
    ) -> (r: Result<(), ItemLineError>)
        ensures
            r is Ok ==> acc_view(*final(a)) == cands_upto(
                acc_view(*old(a)),
                line,
                self.spec_input().rules@,
                keys_view(cands@),
                cands@.len() as int,
            ),
            r is Ok <==> sum_of(keys_view(cands@), |c: Seq<u8>| cand_work(self.spec_input().rules@, c)) <= *old(work)
                && sum_of(keys_view(cands@), |c: Seq<u8>| cand_emissions(self.spec_input().rules@, c)) <= *old(output),
            r is Ok ==> *final(work) == *old(work) - sum_of(
                keys_view(cands@),
                |c: Seq<u8>| cand_work(self.spec_input().rules@, c),
            ) && *final(output) == *old(output) - sum_of(
                keys_view(cands@),
                |c: Seq<u8>| cand_emissions(self.spec_input().rules@, c),
            ),
            r matches Err(e) ==> e matches ItemLineError::Limit(_),
            *final(work) <= *old(work),
            *final(output) <= *old(output),
    {
        let ghost start = acc_view(*a);
        let ghost rules = self.input.rules@;
        let ghost kv = keys_view(cands@);
        let ghost fw = |c: Seq<u8>| cand_work(self.spec_input().rules@, c);
        let ghost fo = |c: Seq<u8>| cand_emissions(self.spec_input().rules@, c);
        proof {
            assert(kv.take(0) =~= Seq::<Seq<u8>>::empty());
            assert(kv.take(kv.len() as int) =~= kv);
        }
        let mut c: usize = 0;
        while c < cands.len()
            invariant
                c <= cands@.len(),
                rules == self.spec_input().rules@,
                rules == self.input.rules@,
                kv == keys_view(cands@),
                kv.take(kv.len() as int) == kv,
                fw == (|c: Seq<u8>| cand_work(self.spec_input().rules@, c)),
                fo == (|c: Seq<u8>| cand_emissions(self.spec_input().rules@, c)),
                acc_view(*a) == cands_upto(start, line, rules, keys_view(cands@), c as int),
                *work == *old(work) - sum_of(kv.take(c as int), fw),
                *output == *old(output) - sum_of(kv.take(c as int), fo),
                sum_of(kv.take(c as int), fw) >= 0,
                sum_of(kv.take(c as int), fo) >= 0,
            decreases cands@.len() - c,
        {
            proof {
                assert forall|x: Seq<u8>| #[trigger] fw(x) >= 0 by {}
                assert forall|x: Seq<u8>| #[trigger] fo(x) >= 0 by {}
                lemma_sum_step(kv, fw, c as int);
                lemma_sum_step(kv, fo, c as int);
                lemma_sum_mono(kv, fw, c as int + 1, kv.len() as int);
                lemma_sum_mono(kv, fo, c as int + 1, kv.len() as int);
            }
            spend(work, 1, ItemLineBudget::Work)?;
            assert(keys_view(cands@)[c as int] == cands@[c as int]@);
            if let Some(i) = find_rule(&self.input.rules, cands[c].as_slice()) {
                candidate_emissions(a, line, &self.input.rules[i].emissions, work, output)?;
            }
            proof {
                assert(kv[c as int] == cands@[c as int]@);
            }
            c = c + 1;
        }
        Ok(())
    }

    /// Fold the evidence of every line, in order.
    fn fold_lines(&self, lines: &Vec<ItemLineEvidence>, work: &mut usize, output: &mut usize) -> (r: Result<
        Accumulator,
        ItemLineError,
    >)
        ensures
            r matches Ok(a) ==> acc_view(a) == lines_upto(
                self.spec_input().rules@,
                evidence_view(lines@),
                lines@.len() as int,
            ),
            r is Ok <==> fold_work(self.spec_input().rules@, evidence_view(lines@)) <= *old(work) && fold_output(
                self.spec_input().rules@,
                evidence_view(lines@),
            ) <= *old(output),
            r is Ok ==> *final(work) == *old(work) - fold_work(self.spec_input().rules@, evidence_view(lines@))
                && *final(output) == *old(output) - fold_output(self.spec_input().rules@, evidence_view(lines@)),
            r matches Err(e) ==> e matches ItemLineError::Limit(_),
            *final(work) <= *old(work),
            *final(output) <= *old(output),
    {
        let ghost evs = evidence_view(lines@);
        let mut a = Accumulator {
            template: ItemField::Absent,
            level: ItemField::Absent,
            modifiers: Vec::new(),
            parameters: Vec::new(),
            issues: Vec::new(),
            occ: Vec::new(),
        };
        assert(acc_view(a) == initial_state()) by {
            assert(mods_view(a.modifiers@) =~= seq![]);
            assert(params_view(a.parameters@) =~= seq![]);
            assert(issues_view(a.issues@) =~= seq![]);
            assert(occ_view(a.occ@) =~= seq![]);
        }
        let ghost rules = self.spec_input().rules@;
        let ghost fw = |ev: EvidenceView| fold_line_work(self.spec_input().rules@, ev);
        let ghost fo = |ev: EvidenceView| fold_line_output(self.spec_input().rules@, ev);
        proof {
            assert(evs.take(0) =~= Seq::<EvidenceView>::empty());
            assert(evs.take(evs.len() as int) =~= evs);
            assert forall|x: EvidenceView| #[trigger] fw(x) >= 0 by {
                lemma_sum_nonneg_seq(rules, x);
            }
            assert forall|x: EvidenceView| #[trigger] fo(x) >= 0 by {
                lemma_sum_nonneg_seq(rules, x);
            }
        }
        let mut n: usize = 0;
        while n < lines.len()
            invariant
                n <= lines@.len(),
                evs == evidence_view(lines@),
                rules == self.spec_input().rules@,
                evs.take(evs.len() as int) == evs,
                fw == (|ev: EvidenceView| fold_line_work(self.spec_input().rules@, ev)),
                fo == (|ev: EvidenceView| fold_line_output(self.spec_input().rules@, ev)),
                forall|x: EvidenceView| #[trigger] fw(x) >= 0,
                forall|x: EvidenceView| #[trigger] fo(x) >= 0,
                acc_view(a) == lines_upto(self.spec_input().rules@, evs, n as int),
                *work == *old(work) - sum_of(evs.take(n as int), fw),
                *output == *old(output) - sum_of(evs.take(n as int), fo),
                sum_of(evs.take(n as int), fw) >= 0,
                sum_of(evs.take(n as int), fo) >= 0,
            decreases lines@.len() - n,
        {
            proof {
                lemma_sum_step(evs, fw, n as int);
                lemma_sum_step(evs, fo, n as int);
                lemma_sum_mono(evs, fw, n as int + 1, evs.len() as int);
                lemma_sum_mono(evs, fo, n as int + 1, evs.len() as int);
            }
            let ev = &lines[n];
            assert(evs[n as int] == ev@);
            match &ev.outcome {
                ItemLineOutcome::Known { emissions, .. } => {
                    known_line(&mut a, ev.index, emissions, work)?;
                },
                ItemLineOutcome::Pending { candidates, .. } => {
                    self.candidates(&mut a, ev.index, candidates, work, output)?;
                },
            }
            n = n + 1;
        }
        Ok(a)
    }
}


impl LocatedItemParameter {
    pub fn duplicate(&self) -> (r: LocatedItemParameter)
        ensures
            r@ == self@,
    {
        LocatedItemParameter { line: self.line, emission: self.emission, assignment: self.assignment.duplicate() }
    }
}

impl LocatedItemModifier {
    pub fn duplicate(&self) -> (r: LocatedItemModifier)
        ensures
            r@ == self@,
    {
        LocatedItemModifier {
            line: self.line,
            emission: self.emission,
            definition: copy_bytes(self.definition.as_slice()),
            rolls: copy_assignments(&self.rolls),
        }
    }
}

fn occ_count_exec(occ: &Vec<(DeclaredSlot, Vec<usize>)>, slot: &DeclaredSlot) -> (r: usize)
    ensures
        r == occ_count(occ_view(occ@), slot@),
{
    let ghost ov = occ_view(occ@);
    let mut p: usize = 0;
    while p < occ.len() && !occ[p].0.same(slot)
        invariant
            p <= occ@.len(),
            ov == occ_view(occ@),
            occ_index(ov, slot@, 0) == occ_index(ov, slot@, p as int),
        decreases occ@.len() - p,
    {
        p = p + 1;
    }
    if p < occ.len() {
        occ[p].1.len()
    } else {
        0
    }
}

/// Report every slot declared by more than one line, and keep only the
/// parameters whose slot was declared once.
fn settle_duplicates(a: &mut Accumulator)
    ensures
        acc_view(*final(a)) == (AggState {
            issues: acc_view(*old(a)).issues + dup_upto(acc_view(*old(a)).occ, acc_view(*old(a)).occ.len() as int),
            parameters: single_upto(
                acc_view(*old(a)).parameters,
                acc_view(*old(a)).occ,
                acc_view(*old(a)).parameters.len() as int,
            ),
            ..acc_view(*old(a))
        }),
{
    let ghost s0 = acc_view(*a);
    let mut k: usize = 0;
    while k < a.occ.len()
        invariant
            k <= a.occ@.len(),
            s0.occ == occ_view(a.occ@),
            acc_view(*a) == (AggState { issues: s0.issues + dup_upto(s0.occ, k as int), ..s0 }),
        decreases a.occ@.len() - k,
    {
        let ghost before = issues_view(a.issues@);
        if a.occ[k].1.len() > 1 {
            let lines = copy_lines(&a.occ[k].1);
            a.issues.push(ItemTextIssue { problem: ItemTextProblem::DuplicateParameter, lines });
            assert(issues_view(a.issues@) =~= before.push(
                IssueView { problem: ItemTextProblem::DuplicateParameter, lines: s0.occ[k as int].1 },
            ));
            assert(s0.issues + dup_upto(s0.occ, k + 1) =~= (s0.issues + dup_upto(s0.occ, k as int)).push(
                IssueView { problem: ItemTextProblem::DuplicateParameter, lines: s0.occ[k as int].1 },
            ));
        }
        k = k + 1;
    }
    let ghost s1 = acc_view(*a);
    let mut kept: Vec<LocatedItemParameter> = Vec::new();
    let mut q: usize = 0;
    assert(params_view(kept@) =~= seq![]);
    while q < a.parameters.len()
        invariant
            q <= a.parameters@.len(),
            acc_view(*a) == s1,
            params_view(kept@) == single_upto(s1.parameters, s1.occ, q as int),
        decreases a.parameters@.len() - q,
    {
        assert(s1.parameters[q as int] == a.parameters@[q as int]@);
        if occ_count_exec(&a.occ, &a.parameters[q].assignment.slot) == 1 {
            let ghost before = params_view(kept@);
            kept.push(a.parameters[q].duplicate());
            assert(params_view(kept@) =~= before.push(s1.parameters[q as int]));
        }
        q = q + 1;
    }
    a.parameters = kept;
}

fn find_context(templates: &Vec<TemplateContext>, id: &[u8]) -> (r: Option<usize>)
    ensures
        match r {
            Some(i) => context_index(templates@, id@, 0) == Some(i as int) && i < templates@.len(),
            None => context_index(templates@, id@, 0) is None,
        },
{
    let mut k: usize = 0;
    while k < templates.len()
        invariant
            k <= templates@.len(),
            context_index(templates@, id@, 0) == context_index(templates@, id@, k as int),
        decreases templates@.len() - k,
    {
        if bytes_eq(templates[k].template.as_slice(), id) {
            return Some(k);
        }
        k = k + 1;
    }
    None
}

fn missing_required(required: &Vec<DeclaredSlot>, kept: &Vec<LocatedItemParameter>) -> (r: bool)
    ensures
        r == (exists|i: int|
            0 <= i < required@.len() && !supplies(params_view(kept@), #[trigger] required@[i]@)),
{
    let ghost ps = params_view(kept@);
    let mut i: usize = 0;
    while i < required.len()
        invariant
            i <= required@.len(),
            ps == params_view(kept@),
            forall|j: int| 0 <= j < i ==> supplies(ps, #[trigger] required@[j]@),
        decreases required@.len() - i,
    {
        let mut q: usize = 0;
        let mut found = false;
        while q < kept.len()
            invariant
                q <= kept@.len(),
                i < required@.len(),
                ps == params_view(kept@),
                found ==> supplies(ps, required@[i as int]@),
                !found ==> forall|p: int| 0 <= p < q ==> ps[p].assignment.slot != required@[i as int]@,
            decreases kept@.len() - q,
        {
            if !found && kept[q].assignment.slot.same(&required[i]) {
                found = true;
                assert(ps[q as int].assignment.slot == required@[i as int]@);
            }
            q = q + 1;
        }
        if !found {
            assert(!supplies(ps, required@[i as int]@));
            return true;
        }
        i = i + 1;
    }
    false
}

/// Lines of the located modifiers, then parameters, then a known item level.
fn unresolved(a: &Accumulator) -> (r: Vec<usize>)
    ensures
        r@ == unresolved_lines(acc_view(*a)),
{
    let ghost s = acc_view(*a);
    let mut u: Vec<usize> = Vec::new();
    let mut k: usize = 0;
    while k < a.modifiers.len()
        invariant
            k <= a.modifiers@.len(),
            s == acc_view(*a),
            u@ == s.modifiers.map_values(|m: ModView| m.line).take(k as int),
        decreases a.modifiers@.len() - k,
    {
        u.push(a.modifiers[k].line);
        k = k + 1;
        assert(u@ =~= s.modifiers.map_values(|m: ModView| m.line).take(k as int));
    }
    assert(s.modifiers.map_values(|m: ModView| m.line).take(k as int) =~= s.modifiers.map_values(|m: ModView| m.line));
    let ghost first = u@;
    let mut q: usize = 0;
    while q < a.parameters.len()
        invariant
            q <= a.parameters@.len(),
            s == acc_view(*a),
            u@ == first + s.parameters.map_values(|p: ParamView| p.line).take(q as int),
        decreases a.parameters@.len() - q,
    {
        u.push(a.parameters[q].line);
        q = q + 1;
        assert(u@ =~= first + s.parameters.map_values(|p: ParamView| p.line).take(q as int));
    }
    assert(s.parameters.map_values(|p: ParamView| p.line).take(q as int) =~= s.parameters.map_values(|p: ParamView| p.line));
    if let ItemField::Known { line, .. } = &a.level {
        u.push(*line);
    }
    assert(u@ =~= unresolved_lines(s));
    u
}


spec fn matches_view(a: Accumulator, cv: ConversionView) -> bool {
    &&& template_view(a.template) == cv.template
    &&& level_view(a.level) == cv.level
    &&& mods_view(a.modifiers@) == cv.modifiers
    &&& params_view(a.parameters@) == cv.parameters
    &&& issues_view(a.issues@) == cv.issues
}

fn settle_without_template(a: &mut Accumulator)
    ensures
        matches_view(*final(a), without_template(acc_view(*old(a)))),
{
    let ghost s = acc_view(*a);
    let u = unresolved(a);
    let level_line: Option<usize> = match &a.level {
        ItemField::Known { line, .. } => Some(*line),
        _ => None,
    };
    if let Some(line) = level_line {
        let ghost before = a.level;
        pending_field(&mut a.level, line);
        proof {
            lemma_level_pending(before, a.level, line);
        }
    }
    if u.len() > 0 {
        let ghost before = issues_view(a.issues@);
        let ghost uv = u@;
        a.issues.push(ItemTextIssue { problem: ItemTextProblem::TemplateUnavailable, lines: u });
        assert(issues_view(a.issues@) =~= before.push(
            IssueView { problem: ItemTextProblem::TemplateUnavailable, lines: uv },
        ));
    }
    a.modifiers = Vec::new();
    a.parameters = Vec::new();
    assert(mods_view(a.modifiers@) =~= seq![]);
    assert(params_view(a.parameters@) =~= seq![]);
}

fn settle_with_template(a: &mut Accumulator, ctx: &TemplateContext, t: &Vec<u8>, work: &mut usize) -> (r: Result<
    (),
    ItemLineError,
>)
    requires
        template_view(old(a).template) matches FieldView::Known { value, .. } && value == t@,
    ensures
        r is Ok ==> matches_view(*final(a), with_template(acc_view(*old(a)), *ctx, t@)),
        r is Ok <==> settle_work(acc_view(*old(a)), *ctx, t@) <= *old(work),
        r is Ok ==> *final(work) == *old(work) - settle_work(acc_view(*old(a)), *ctx, t@),
        r matches Err(e) ==> e matches ItemLineError::Limit(_),
        *final(work) <= *old(work),
{
    let ghost s = acc_view(*a);
    let ghost big_m = s.modifiers.len() as int;
    let ghost per = plus_one_sat(ctx.modifiers.members@.len() as int);
    let ghost tail = sat_sum(
        ctx.required_parameters@.len() as int,
        owner_kept(s.parameters, SlotOwnerView::ItemTemplate(t@), s.parameters.len() as int).len() as int,
    );
    assert(settle_work(s, *ctx, t@) == big_m * per + tail);
    assert(per >= 0 && tail >= 0);
    let owner = super::SlotOwner::ItemTemplate(copy_bytes(t.as_slice()));
    let ghost ov = SlotOwnerView::ItemTemplate(t@);
    assert(owner@ == ov);
    let mut kept: Vec<LocatedItemParameter> = Vec::new();
    let mut q: usize = 0;
    assert(params_view(kept@) =~= seq![]);
    assert(s.issues + Seq::<IssueView>::empty() =~= s.issues);
    while q < a.parameters.len()
        invariant
            q <= a.parameters@.len(),
            owner@ == ov,
            s.parameters == params_view(a.parameters@),
            s.modifiers == mods_view(a.modifiers@),
            s.level == level_view(a.level),
            s.template == template_view(a.template),
            params_view(kept@) == owner_kept(s.parameters, ov, q as int),
            issues_view(a.issues@) == s.issues + owner_issues(s.parameters, ov, q as int),
        decreases a.parameters@.len() - q,
    {
        assert(s.parameters[q as int] == a.parameters@[q as int]@);
        if a.parameters[q].assignment.slot.declaration.same(&owner) {
            let ghost before = params_view(kept@);
            kept.push(a.parameters[q].duplicate());
            assert(params_view(kept@) =~= before.push(s.parameters[q as int]));
        } else {
            let ghost before = issues_view(a.issues@);
            let mut lines: Vec<usize> = Vec::new();
            lines.push(a.parameters[q].line);
            let ghost issue = IssueView { problem: ItemTextProblem::WrongParameterOwner, lines: seq![a.parameters@[q as int].line] };
            assert(lines@ =~= issue.lines);
            a.issues.push(ItemTextIssue { problem: ItemTextProblem::WrongParameterOwner, lines });
            assert(issues_view(a.issues@) =~= before.push(issue));
            assert(s.issues + owner_issues(s.parameters, ov, q + 1) =~= (s.issues + owner_issues(s.parameters, ov, q as int)).push(issue));
        }
        q = q + 1;
    }
    a.parameters = kept;
    let ghost i1 = issues_view(a.issues@);
    let mut mods: Vec<LocatedItemModifier> = Vec::new();
    let mut m: usize = 0;
    assert(mods_view(mods@) =~= seq![]);
    assert(i1 + Seq::<IssueView>::empty() =~= i1);
    while m < a.modifiers.len()
        invariant
            m <= a.modifiers@.len(),
            s.modifiers == mods_view(a.modifiers@),
            s.level == level_view(a.level),
            s.template == template_view(a.template),
            params_view(a.parameters@) == owner_kept(s.parameters, ov, s.parameters.len() as int),
            i1 == s.issues + owner_issues(s.parameters, ov, s.parameters.len() as int),
            mods_view(mods@) == mods_kept(s.modifiers, *ctx, m as int),
            issues_view(a.issues@) == i1 + mods_issues(s.modifiers, *ctx, m as int),
            s == acc_view(*old(a)),
            big_m == s.modifiers.len(),
            per == plus_one_sat(ctx.modifiers.members@.len() as int),
            per >= 0,
            tail >= 0,
            settle_work(s, *ctx, t@) == big_m * per + tail,
            0 <= m * per <= *old(work),
            *work == *old(work) - m * per,
        decreases a.modifiers@.len() - m,
    {
        proof {
            assert((m + 1) * per == m * per + per && (m + 1) * per <= big_m * per) by (nonlinear_arith)
                requires
                    m + 1 <= big_m,
                    per >= 0,
            ;
        }
        let per_exec = ctx.modifiers.members.len().saturating_add(1);
        assert(per_exec == per);
        spend(work, per_exec, ItemLineBudget::Work)?;
        assert(s.modifiers[m as int] == a.modifiers@[m as int]@);
        if key_set_contains_exec(&ctx.modifiers, a.modifiers[m].definition.as_slice()) {
            let ghost before = mods_view(mods@);
            mods.push(a.modifiers[m].duplicate());
            assert(mods_view(mods@) =~= before.push(s.modifiers[m as int]));
        } else {
            let ghost before = issues_view(a.issues@);
            let problem = if ctx.modifiers.complete {
                ItemTextProblem::ModifierNotAllowed
            } else {
                ItemTextProblem::SchemaPartial
            };
            let mut lines: Vec<usize> = Vec::new();
            lines.push(a.modifiers[m].line);
            let ghost issue = IssueView { problem, lines: seq![a.modifiers@[m as int].line] };
            assert(lines@ =~= issue.lines);
            a.issues.push(ItemTextIssue { problem, lines });
            assert(issues_view(a.issues@) =~= before.push(issue));
            assert(i1 + mods_issues(s.modifiers, *ctx, m + 1) =~= (i1 + mods_issues(s.modifiers, *ctx, m as int)).push(issue));
        }
        m = m + 1;
    }
    a.modifiers = mods;
    let outside: Option<usize> = match &a.level {
        ItemField::Known { value, line } => if *value < ctx.level.minimum || *value > ctx.level.maximum {
            Some(*line)
        } else {
            None
        },
        _ => None,
    };
    if let Some(line) = outside {
        let ghost before = issues_view(a.issues@);
        let mut lines: Vec<usize> = Vec::new();
        lines.push(line);
        assert(lines@ =~= seq![line]);
        a.issues.push(ItemTextIssue { problem: ItemTextProblem::LevelOutsideSchema, lines });
        assert(issues_view(a.issues@) =~= before.push(
            IssueView { problem: ItemTextProblem::LevelOutsideSchema, lines: seq![line] },
        ));
        let ghost lb = a.level;
        pending_field(&mut a.level, line);
        proof {
            lemma_level_pending(lb, a.level, line);
        }
    }
    assert(a.parameters@.len() == owner_kept(s.parameters, ov, s.parameters.len() as int).len());
    spend(work, ctx.required_parameters.len().saturating_add(a.parameters.len()), ItemLineBudget::Work)?;
    if missing_required(&ctx.required_parameters, &a.parameters) {
        let ghost before = issues_view(a.issues@);
        a.issues.push(ItemTextIssue { problem: ItemTextProblem::RequiredParameterMissing, lines: Vec::new() });
        assert(issues_view(a.issues@) =~= before.push(
            IssueView { problem: ItemTextProblem::RequiredParameterMissing, lines: seq![] },
        ));
    }
    if !ctx.parameters_complete {
        let ghost before = issues_view(a.issues@);
        a.issues.push(ItemTextIssue { problem: ItemTextProblem::SchemaPartial, lines: Vec::new() });
        assert(issues_view(a.issues@) =~= before.push(
            IssueView { problem: ItemTextProblem::SchemaPartial, lines: seq![] },
        ));
    }
    Ok(())
}


/// The evidence each input line yields.
pub open spec fn expected_evidence(
    input: super::ItemLinePolicyInput,
    bound: Seq<super::BoundRule>,
    lines: Seq<ItemLineInput>,
) -> Seq<EvidenceView> {
    lines.map_values(
        |l: ItemLineInput|
            EvidenceView {
                index: l.index,
                text: l.text@,
                outcome: outcome_spec(input, bound, l.text@, props_view(l.properties)),
            },
    )
}

/// Line positions are positive and strictly increasing.
pub open spec fn ordered_inputs(lines: Seq<ItemLineInput>) -> bool {
    &&& forall|i: int| 0 <= i < lines.len() ==> lines[i].index > 0
    &&& forall|i: int, j: int| 0 <= i < j < lines.len() ==> lines[i].index < lines[j].index
}

/// Work converting each of `lines` may take, summed.
pub open spec fn lines_work(
    input: super::ItemLinePolicyInput,
    bound: Seq<super::BoundRule>,
    lines: Seq<ItemLineInput>,
) -> int {
    sum_of(lines, |l: ItemLineInput| line_work(input, bound, l))
}

/// Output declarations converting each of `lines` may take, summed.
pub open spec fn lines_output(input: super::ItemLinePolicyInput, lines: Seq<ItemLineInput>) -> int {
    sum_of(lines, |l: ItemLineInput| line_output(input, l))
}

/// Source bytes each of `lines` is charged, summed.
pub open spec fn lines_bytes(lines: Seq<ItemLineInput>) -> int {
    sum_of(lines, |l: ItemLineInput| line_bytes(l))
}

/// Every line is within the policy's line length.
pub open spec fn lines_short(lines: Seq<ItemLineInput>, max_line_bytes: usize) -> bool {
    forall|i: int| 0 <= i < lines.len() ==> lines[i].text@.len() <= max_line_bytes
}

/// The line at `k` is the first whose position is not positive and above the
/// one before it.
pub open spec fn first_disorder(lines: Seq<ItemLineInput>, k: int) -> bool {
    &&& 0 <= k < lines.len()
    &&& ordered_inputs(lines.take(k))
    &&& lines[k].index <= if k == 0 {
        0
    } else {
        lines[k - 1].index
    }
}

/// Converting the first `k` lines fits the policy's limits.
pub open spec fn prefix_fits(
    input: super::ItemLinePolicyInput,
    bound: Seq<super::BoundRule>,
    limits: super::ItemLineLimits,
    lines: Seq<ItemLineInput>,
    k: int,
) -> bool {
    &&& lines_short(lines.take(k), limits.max_line_bytes)
    &&& lines_bytes(lines.take(k)) <= limits.max_source_bytes
    &&& lines_output(input, lines.take(k)) <= limits.max_output_declarations
    &&& lines_work(input, bound, lines.take(k)) <= limits.max_work
}

/// Converting and aggregating every line fits the policy's limits.
pub open spec fn lines_fit(
    input: super::ItemLinePolicyInput,
    bound: Seq<super::BoundRule>,
    templates: Seq<TemplateContext>,
    limits: super::ItemLineLimits,
    lines: Seq<ItemLineInput>,
) -> bool {
    let evs = expected_evidence(input, bound, lines);
    &&& ordered_inputs(lines)
    &&& lines.len() <= limits.max_lines
    &&& lines_short(lines, limits.max_line_bytes)
    &&& lines_bytes(lines) <= limits.max_source_bytes
    &&& lines_output(input, lines) + fold_output(input.rules@, evs) <= limits.max_output_declarations
    &&& lines_work(input, bound, lines) + aggregate_work(input.rules@, templates, evs) <= limits.max_work
    &&& aggregate_spec(input.rules@, templates, evs) is Some
}

/// What aggregation charges is never negative.
proof fn lemma_aggregate_charges(rules: Seq<ItemLineRule>, templates: Seq<TemplateContext>, evs: Seq<EvidenceView>)
    ensures
        aggregate_work(rules, templates, evs) >= fold_work(rules, evs) >= 0,
        fold_output(rules, evs) >= 0,
{
    let fw = |ev: EvidenceView| fold_line_work(rules, ev);
    let fo = |ev: EvidenceView| fold_line_output(rules, ev);
    assert forall|x: EvidenceView| #[trigger] fw(x) >= 0 by {
        lemma_sum_nonneg_seq(rules, x);
    }
    assert forall|x: EvidenceView| #[trigger] fo(x) >= 0 by {
        lemma_sum_nonneg_seq(rules, x);
    }
    lemma_sum_nonneg(evs, fw);
    lemma_sum_nonneg(evs, fo);
    let st = lines_upto(rules, evs, evs.len() as int);
    if let FieldView::Known { value, .. } = st.template {
        if let Some(c) = context_index(templates, value, 0) {
            let mm = deduped(st).modifiers.len() as int;
            let pp = plus_one_sat(templates[c].modifiers.members@.len() as int);
            assert(mm * pp >= 0) by (nonlinear_arith)
                requires
                    mm >= 0,
                    pp >= 0,
            ;
        }
    }
}

/// A sum over a prefix, the next item, and the sum over a longer prefix.
proof fn lemma_prefix_step<T>(s: Seq<T>, f: spec_fn(T) -> int, k: int, j: int)
    requires
        0 <= k < j <= s.len(),
        forall|x: T| #[trigger] f(x) >= 0,
    ensures
        sum_of(s.take(k), f) + f(s[k]) <= sum_of(s.take(j), f),
        s.take(j).take(k) == s.take(k),
{
    lemma_sum_step(s, f, k);
    lemma_sum_mono(s, f, k + 1, j);
    assert(s.take(j).take(k) =~= s.take(k));
}

/// What one line may charge is never negative.
proof fn lemma_line_charges(input: super::ItemLinePolicyInput, bound: Seq<super::BoundRule>, l: ItemLineInput)
    ensures
        line_work(input, bound, l) >= 0,
        line_output(input, l) >= 0,
        line_bytes(l) >= 0,
{
    let fl = |f: PropertyFact| f.property@.len() as int;
    let fb = |f: PropertyFact| plus_one_sat(f.property@.len() as int);
    let mw = |r: ItemLineRule| walk_cost(pattern_view(r.pattern@), 0, line_text(input, l.text@), 0) as int;
    assert forall|x: PropertyFact| #[trigger] fl(x) >= 0 by {}
    assert forall|x: PropertyFact| #[trigger] fb(x) >= 0 by {}
    assert forall|x: ItemLineRule| #[trigger] mw(x) >= 0 by {}
    lemma_sum_nonneg(facts(l.properties), fl);
    lemma_sum_nonneg(facts(l.properties), fb);
    lemma_sum_nonneg(input.rules@, mw);
    lemma_line_charges_nonneg(input, bound, l.text@, l.properties);
}

/// Position of the first line feed at or after `i`, or the text's length.
pub open spec fn next_newline(text: Seq<u8>, i: int) -> int
    decreases text.len() - i,
{
    if i < 0 || i >= text.len() {
        text.len() as int
    } else if text[i] == 0x0Au8 {
        i
    } else {
        next_newline(text, i + 1)
    }
}

pub proof fn lemma_next_newline(text: Seq<u8>, i: int)
    requires
        0 <= i <= text.len(),
    ensures
        i <= next_newline(text, i) <= text.len(),
    decreases text.len() - i,
{
    if i < text.len() && text[i] != 0x0Au8 {
        lemma_next_newline(text, i + 1);
    }
}

/// A line without its carriage return, if it ends with one.
pub open spec fn strip_cr(s: Seq<u8>) -> Seq<u8> {
    if s.len() > 0 && s.last() == 0x0Du8 {
        s.drop_last()
    } else {
        s
    }
}

/// The physical lines of `text[start..]`: split after each line feed, without
/// the line feed and a carriage return before it. No line follows a final
/// line feed.
pub open spec fn lines_from(text: Seq<u8>, start: int) -> Seq<Seq<u8>>
    decreases text.len() + 1 - start,
    via lines_from_decreases
{
    if start < 0 || start >= text.len() {
        seq![]
    } else {
        let e = next_newline(text, start);
        seq![strip_cr(text.subrange(start, e))] + lines_from(text, e + 1)
    }
}

#[via_fn]
proof fn lines_from_decreases(text: Seq<u8>, start: int) {
    if 0 <= start < text.len() {
        lemma_next_newline(text, start);
    }
}

pub open spec fn physical_lines(text: Seq<u8>) -> Seq<Seq<u8>> {
    lines_from(text, 0)
}

impl OwnedItemLinePolicy {
    fn aggregate(&self, lines: Vec<ItemLineEvidence>, work: &mut usize, output: &mut usize) -> (r: Result<
        ItemTextConversion,
        ItemLineError,
    >)
        ensures
            r matches Ok(c) ==> {
                &&& evidence_view(c.lines@) == evidence_view(lines@)
                &&& aggregate_spec(self.spec_input().rules@, self.spec_templates(), evidence_view(lines@))
                    == Some(conversion_view(c))
            },
            r matches Err(e) ==> (e matches ItemLineError::Limit(_) || aggregate_spec(
                self.spec_input().rules@,
                self.spec_templates(),
                evidence_view(lines@),
            ) is None),
            aggregate_spec(self.spec_input().rules@, self.spec_templates(), evidence_view(lines@)) is None
                ==> r is Err,
            r matches Err(e) ==> (e matches ItemLineError::Limit(_) || e matches ItemLineError::IndexFault { .. }),
            r is Ok <==> {
                &&& aggregate_spec(self.spec_input().rules@, self.spec_templates(), evidence_view(lines@)) is Some
                &&& aggregate_work(self.spec_input().rules@, self.spec_templates(), evidence_view(lines@))
                    <= *old(work)
                &&& fold_output(self.spec_input().rules@, evidence_view(lines@)) <= *old(output)
            },
            fold_work(self.spec_input().rules@, evidence_view(lines@)) <= *old(work) && fold_output(
                self.spec_input().rules@,
                evidence_view(lines@),
            ) <= *old(output) && aggregate_spec(
                self.spec_input().rules@,
                self.spec_templates(),
                evidence_view(lines@),
            ) is None ==> r matches Err(ItemLineError::IndexFault { .. }),
            r matches Err(ItemLineError::Limit(_)) ==> aggregate_work(
                self.spec_input().rules@,
                self.spec_templates(),
                evidence_view(lines@),
            ) > *old(work) || fold_output(self.spec_input().rules@, evidence_view(lines@)) > *old(output),
            *final(work) <= *old(work),
            *final(output) <= *old(output),
    {
        let ghost rules = self.spec_input().rules@;
        let ghost evs = evidence_view(lines@);
        let ghost st = lines_upto(rules, evs, evs.len() as int);
        proof {
            if let FieldView::Known { value, .. } = st.template {
                if let Some(c) = context_index(self.spec_templates(), value, 0) {
                    let mm = deduped(st).modifiers.len() as int;
                    let pp = plus_one_sat(self.spec_templates()[c].modifiers.members@.len() as int);
                    assert(mm * pp >= 0) by (nonlinear_arith)
                        requires
                            mm >= 0,
                            pp >= 0,
                    ;
                }
            }
        }
        let mut a = self.fold_lines(&lines, work, output)?;
        let ghost s = acc_view(a);
        settle_duplicates(&mut a);
        let known = match &a.template {
            ItemField::Known { value, .. } => Some(copy_bytes(value.as_slice())),
            _ => None,
        };
        match known {
            None => {
                settle_without_template(&mut a);
            },
            Some(t) => match find_context(&self.templates, t.as_slice()) {
                None => {
                    return Err(ItemLineError::IndexFault { subject: t });
                },
                Some(c) => {
                    settle_with_template(&mut a, &self.templates[c], &t, work)?;
                },
            },
        }
        let Accumulator { template, level, modifiers, parameters, issues, .. } = a;
        Ok(ItemTextConversion { lines, template, item_level: level, modifiers, parameters, issues })
    }

    /// Convert positioned lines. Positions must be positive and strictly
    /// increasing; every line is charged against the policy's limits and
    /// converted before the evidence is folded.
    pub fn convert_lines(&self, lines: Vec<ItemLineInput>) -> (r: Result<ItemTextConversion, ItemLineError>)
        ensures
            r matches Ok(c) ==> {
                &&& evidence_view(c.lines@) == expected_evidence(self.spec_input(), self.spec_rules(), lines@)
                &&& aggregate_spec(self.spec_input().rules@, self.spec_templates(), evidence_view(c.lines@))
                    == Some(conversion_view(c))
                &&& ordered_inputs(lines@)
                &&& lines@.len() <= self.spec_limits().max_lines
                &&& forall|i: int| 0 <= i < lines@.len() ==> lines@[i].text@.len() <= self.spec_limits().max_line_bytes
            },
            !ordered_inputs(lines@) ==> r is Err,
            lines@.len() > self.spec_limits().max_lines ==> r is Err,
            r matches Err(ItemLineError::LineOrder) ==> !ordered_inputs(lines@),
            r matches Err(e) ==> (e matches ItemLineError::LineOrder || e matches ItemLineError::Limit(_)
                || e matches ItemLineError::IndexFault { .. }),
            r matches Err(e) ==> (e matches ItemLineError::LineOrder || e matches ItemLineError::Limit(_)
                || aggregate_spec(
                self.spec_input().rules@,
                self.spec_templates(),
                expected_evidence(self.spec_input(), self.spec_rules(), lines@),
            ) is None),
            lines_fit(self.spec_input(), self.spec_rules(), self.spec_templates(), self.spec_limits(), lines@) ==> r is Ok,
            forall|k: int|
                first_disorder(lines@, k) && k < self.spec_limits().max_lines && prefix_fits(
                    self.spec_input(),
                    self.spec_rules(),
                    self.spec_limits(),
                    lines@,
                    k,
                ) ==> r == Err::<ItemTextConversion, ItemLineError>(ItemLineError::LineOrder),
    {
        let ghost expected = expected_evidence(self.spec_input(), self.spec_rules(), lines@);
        let ghost pin = self.spec_input();
        let ghost bnd = self.spec_rules();
        let ghost lim = self.spec_limits();
        let ghost ls = lines@;
        let ghost lw = |l: ItemLineInput| line_work(self.spec_input(), self.spec_rules(), l);
        let ghost lo = |l: ItemLineInput| line_output(self.spec_input(), l);
        let ghost lb = |l: ItemLineInput| line_bytes(l);
        proof {
            assert forall|x: ItemLineInput| #[trigger] lw(x) >= 0 by {
                lemma_line_charges(pin, bnd, x);
            }
            assert forall|x: ItemLineInput| #[trigger] lo(x) >= 0 by {
                lemma_line_charges(pin, bnd, x);
            }
            assert forall|x: ItemLineInput| #[trigger] lb(x) >= 0 by {
                lemma_line_charges(pin, bnd, x);
            }
            assert(ls.take(0) =~= Seq::<ItemLineInput>::empty());
            assert(ls.take(ls.len() as int) =~= ls);
            lemma_aggregate_charges(pin.rules@, self.spec_templates(), expected);
        }
        let mut work = self.limits.max_work;
        let mut output = self.limits.max_output_declarations;
        let mut count = self.limits.max_lines;
        let mut bytes = self.limits.max_source_bytes;
        let mut result: Vec<ItemLineEvidence> = Vec::new();
        let mut previous: usize = 0;
        let mut k: usize = 0;
        while k < lines.len()
            invariant
                k <= lines@.len(),
                expected == expected_evidence(self.spec_input(), self.spec_rules(), lines@),
                evidence_view(result@) == expected.take(k as int),
                count == self.spec_limits().max_lines - k,
                k <= self.spec_limits().max_lines,
                k > 0 ==> previous == lines@[k - 1].index,
                k == 0 ==> previous == 0,
                forall|i: int| 0 <= i < k ==> lines@[i].index > 0,
                forall|i: int, j: int| 0 <= i < j < k ==> lines@[i].index < lines@[j].index,
                forall|i: int| 0 <= i < k ==> lines@[i].text@.len() <= self.spec_limits().max_line_bytes,
                ls == lines@,
                pin == self.spec_input(),
                bnd == self.spec_rules(),
                lim == self.spec_limits(),
                lw == (|l: ItemLineInput| line_work(self.spec_input(), self.spec_rules(), l)),
                lo == (|l: ItemLineInput| line_output(self.spec_input(), l)),
                lb == (|l: ItemLineInput| line_bytes(l)),
                forall|x: ItemLineInput| #[trigger] lw(x) >= 0,
                forall|x: ItemLineInput| #[trigger] lo(x) >= 0,
                forall|x: ItemLineInput| #[trigger] lb(x) >= 0,
                ls.take(ls.len() as int) == ls,
                aggregate_work(pin.rules@, self.spec_templates(), expected) >= 0,
                fold_output(pin.rules@, expected) >= 0,
                work >= lim.max_work - sum_of(ls.take(k as int), lw),
                output >= lim.max_output_declarations - sum_of(ls.take(k as int), lo),
                bytes == lim.max_source_bytes - sum_of(ls.take(k as int), lb),
                work <= lim.max_work,
                output <= lim.max_output_declarations,
            decreases lines@.len() - k,
        {
            if let Err(e) = spend(&mut count, 1, ItemLineBudget::Lines) {
                proof {
                    assert forall|k0: int|
                        first_disorder(ls, k0) && k0 < lim.max_lines implies false by {
                        if k0 < k {
                            assert(ls[k0] == ls.take(k as int)[k0]);
                        }
                    }
                }
                return Err(e);
            }
            if lines[k].index <= previous {
                return Err(ItemLineError::LineOrder);
            }
            previous = lines[k].index;
            let ev = match self.line(&lines[k], &mut work, &mut output, &mut bytes) {
                Ok(ev) => ev,
                Err(e) => {
                    proof {
                        assert forall|j: int| k < j <= ls.len() implies !(lines_short(ls.take(j), lim.max_line_bytes)
                            && sum_of(ls.take(j), lb) <= lim.max_source_bytes && sum_of(ls.take(j), lo)
                            <= lim.max_output_declarations && sum_of(ls.take(j), lw) <= lim.max_work) by {
                            lemma_prefix_step(ls, lw, k as int, j);
                            lemma_prefix_step(ls, lo, k as int, j);
                            lemma_prefix_step(ls, lb, k as int, j);
                            assert(ls.take(j)[k as int] == ls[k as int]);
                        }
                        assert(!lines_short(ls.take(ls.len() as int), lim.max_line_bytes)
                            || sum_of(ls.take(ls.len() as int), lb) > lim.max_source_bytes
                            || sum_of(ls.take(ls.len() as int), lo) > lim.max_output_declarations
                            || sum_of(ls.take(ls.len() as int), lw) > lim.max_work);
                        assert forall|k0: int|
                            first_disorder(ls, k0) && k0 < lim.max_lines && prefix_fits(pin, bnd, lim, ls, k0)
                                implies false by {
                            if k0 < k {
                                assert(ls[k0] == ls.take(k as int)[k0]);
                            } else if k0 == k {
                            } else {
                                assert(!(lines_short(ls.take(k0), lim.max_line_bytes) && sum_of(ls.take(k0), lb)
                                    <= lim.max_source_bytes && sum_of(ls.take(k0), lo) <= lim.max_output_declarations
                                    && sum_of(ls.take(k0), lw) <= lim.max_work));
                            }
                        }
                    }
                    return Err(e);
                },
            };
            proof {
                lemma_sum_step(ls, lw, k as int);
                lemma_sum_step(ls, lo, k as int);
                lemma_sum_step(ls, lb, k as int);
            }
            let ghost before = evidence_view(result@);
            result.push(ev);
            proof {
                assert(evidence_view(result@) =~= before.push(ev@));
                assert(expected.take(k + 1) =~= expected.take(k as int).push(expected[k as int]));
            }
            k = k + 1;
        }
        assert(expected.take(k as int) =~= expected);
        proof {
            assert forall|k0: int| first_disorder(ls, k0) implies false by {
                if k0 > 0 {
                    assert(ls[k0 - 1].index < ls[k0].index);
                }
            }
        }
        self.aggregate(result, &mut work, &mut output)
    }
}


/// A source adapter's verdict that a line stays unresolved, with every rule
/// that positively matched it.
#[derive(Debug)]
pub struct SourceLinePending {
    pub reason: ItemLinePending,
    pub candidates: Vec<Vec<u8>>,
}

/// A positioned line and, when the source adapter blocked it, why.
#[derive(Debug)]
pub struct SourceLine {
    pub input: ItemLineInput,
    pub pending: Option<SourceLinePending>,
}

pub open spec fn source_inputs(lines: Seq<SourceLine>) -> Seq<ItemLineInput> {
    lines.map_values(|l: SourceLine| l.input)
}

/// The evidence of source lines: a blocked line keeps the adapter's reason
/// and candidates, any other line its converted outcome.
pub open spec fn expected_source_evidence(
    input: super::ItemLinePolicyInput,
    bound: Seq<super::BoundRule>,
    lines: Seq<SourceLine>,
) -> Seq<EvidenceView> {
    lines.map_values(
        |l: SourceLine|
            EvidenceView {
                index: l.input.index,
                text: l.input.text@,
                outcome: match l.pending {
                    Some(p) => OutcomeView::Pending { reason: p.reason@, candidates: keys_view(p.candidates@) },
                    None => outcome_spec(input, bound, l.input.text@, props_view(l.input.properties)),
                },
            },
    )
}

/// Output declarations one source line may take: its conversion, and the
/// candidates the adapter reported for it.
pub open spec fn source_line_output(input: super::ItemLinePolicyInput, l: SourceLine) -> int {
    line_output(input, l.input) + match l.pending {
        Some(p) => p.candidates@.len() as int,
        None => 0,
    }
}

/// Converting and aggregating every source line fits the limits and the
/// caller's budgets.
pub open spec fn source_lines_fit(
    input: super::ItemLinePolicyInput,
    bound: Seq<super::BoundRule>,
    templates: Seq<TemplateContext>,
    limits: super::ItemLineLimits,
    lines: Seq<SourceLine>,
    work: int,
    output: int,
) -> bool {
    let ins = source_inputs(lines);
    let evs = expected_source_evidence(input, bound, lines);
    &&& ordered_inputs(ins)
    &&& lines.len() <= limits.max_lines
    &&& lines_short(ins, limits.max_line_bytes)
    &&& sum_of(lines, |l: SourceLine| line_bytes(l.input)) <= limits.max_source_bytes
    &&& sum_of(lines, |l: SourceLine| source_line_output(input, l)) + fold_output(input.rules@, evs) <= output
    &&& sum_of(lines, |l: SourceLine| line_work(input, bound, l.input)) + aggregate_work(input.rules@, templates, evs)
        <= work
    &&& aggregate_spec(input.rules@, templates, evs) is Some
}

fn copy_key_list(keys: &Vec<Vec<u8>>) -> (r: Vec<Vec<u8>>)
    ensures
        keys_view(r@) == keys_view(keys@),
{
    let mut r: Vec<Vec<u8>> = Vec::new();
    let mut k: usize = 0;
    while k < keys.len()
        invariant
            k <= keys@.len(),
            r@.len() == k,
            forall|j: int| 0 <= j < k ==> #[trigger] r@[j]@ == keys@[j]@,
        decreases keys@.len() - k,
    {
        r.push(copy_bytes(keys[k].as_slice()));
        k = k + 1;
    }
    assert(keys_view(r@) =~= keys_view(keys@));
    r
}

impl OwnedItemLinePolicy {
    /// Convert source lines with the caller's shared budgets. Every line is
    /// converted and charged; a line the adapter blocked then carries the
    /// adapter's reason and candidates, so a competing header or parameter
    /// can never be erased by the adapter.
    pub fn convert_source_lines(&self, lines: Vec<SourceLine>, work: &mut usize, output: &mut usize) -> (r: Result<
        ItemTextConversion,
        ItemLineError,
    >)
        ensures
            r matches Ok(c) ==> {
                &&& evidence_view(c.lines@) == expected_source_evidence(self.spec_input(), self.spec_rules(), lines@)
                &&& aggregate_spec(self.spec_input().rules@, self.spec_templates(), evidence_view(c.lines@))
                    == Some(conversion_view(c))
                &&& ordered_inputs(source_inputs(lines@))
                &&& lines@.len() <= self.spec_limits().max_lines
            },
            !ordered_inputs(source_inputs(lines@)) ==> r is Err,
            lines@.len() > self.spec_limits().max_lines ==> r is Err,
            r matches Err(ItemLineError::LineOrder) ==> !ordered_inputs(source_inputs(lines@)),
            r matches Err(e) ==> (e matches ItemLineError::LineOrder || e matches ItemLineError::Limit(_)
                || e matches ItemLineError::IndexFault { .. }),
            source_lines_fit(
                self.spec_input(),
                self.spec_rules(),
                self.spec_templates(),
                self.spec_limits(),
                lines@,
                *old(work) as int,
                *old(output) as int,
            ) ==> r is Ok,
    {
        let ghost expected = expected_source_evidence(self.spec_input(), self.spec_rules(), lines@);
        let ghost inputs = source_inputs(lines@);
        let ghost pin = self.spec_input();
        let ghost bnd = self.spec_rules();
        let ghost lim = self.spec_limits();
        let ghost ls = lines@;
        let ghost fits = source_lines_fit(pin, bnd, self.spec_templates(), lim, ls, *old(work) as int, *old(output) as int);
        let ghost lw = |l: SourceLine| line_work(self.spec_input(), self.spec_rules(), l.input);
        let ghost lo = |l: SourceLine| source_line_output(self.spec_input(), l);
        let ghost lb = |l: SourceLine| line_bytes(l.input);
        proof {
            assert forall|x: SourceLine| #[trigger] lw(x) >= 0 by {
                lemma_line_charges(pin, bnd, x.input);
            }
            assert forall|x: SourceLine| #[trigger] lo(x) >= 0 by {
                lemma_line_charges(pin, bnd, x.input);
            }
            assert forall|x: SourceLine| #[trigger] lb(x) >= 0 by {
                lemma_line_charges(pin, bnd, x.input);
            }
            assert(ls.take(0) =~= Seq::<SourceLine>::empty());
            assert(ls.take(ls.len() as int) =~= ls);
            lemma_aggregate_charges(pin.rules@, self.spec_templates(), expected);
        }
        let mut count = self.limits.max_lines;
        let mut bytes = self.limits.max_source_bytes;
        let mut result: Vec<ItemLineEvidence> = Vec::new();
        let mut previous: usize = 0;
        let mut k: usize = 0;
        while k < lines.len()
            invariant
                k <= lines@.len(),
                expected == expected_source_evidence(self.spec_input(), self.spec_rules(), lines@),
                inputs == source_inputs(lines@),
                evidence_view(result@) == expected.take(k as int),
                count == self.spec_limits().max_lines - k,
                k <= self.spec_limits().max_lines,
                k > 0 ==> previous == inputs[k - 1].index,
                k == 0 ==> previous == 0,
                forall|i: int| 0 <= i < k ==> inputs[i].index > 0,
                forall|i: int, j: int| 0 <= i < j < k ==> inputs[i].index < inputs[j].index,
                ls == lines@,
                pin == self.spec_input(),
                bnd == self.spec_rules(),
                lim == self.spec_limits(),
                fits == source_lines_fit(pin, bnd, self.spec_templates(), lim, ls, *old(work) as int, *old(output) as int),
                lw == (|l: SourceLine| line_work(self.spec_input(), self.spec_rules(), l.input)),
                lo == (|l: SourceLine| source_line_output(self.spec_input(), l)),
                lb == (|l: SourceLine| line_bytes(l.input)),
                forall|x: SourceLine| #[trigger] lw(x) >= 0,
                forall|x: SourceLine| #[trigger] lo(x) >= 0,
                forall|x: SourceLine| #[trigger] lb(x) >= 0,
                ls.take(ls.len() as int) == ls,
                aggregate_work(pin.rules@, self.spec_templates(), expected) >= 0,
                fold_output(pin.rules@, expected) >= 0,
                *work >= *old(work) - sum_of(ls.take(k as int), lw),
                *output >= *old(output) - sum_of(ls.take(k as int), lo),
                bytes == lim.max_source_bytes - sum_of(ls.take(k as int), lb),
                *work <= *old(work),
                *output <= *old(output),
            decreases lines@.len() - k,
        {
            proof {
                lemma_prefix_step(ls, lw, k as int, ls.len() as int);
                lemma_prefix_step(ls, lo, k as int, ls.len() as int);
                lemma_prefix_step(ls, lb, k as int, ls.len() as int);
                lemma_sum_step(ls, lw, k as int);
                lemma_sum_step(ls, lo, k as int);
                lemma_sum_step(ls, lb, k as int);
                if fits {
                    assert(inputs[k as int] == ls[k as int].input);
                    assert(inputs[k as int].text@.len() <= lim.max_line_bytes);
                }
            }
            spend(&mut count, 1, ItemLineBudget::Lines)?;
            let line = &lines[k];
            assert(inputs[k as int] == line.input);
            if line.input.index <= previous {
                return Err(ItemLineError::LineOrder);
            }
            previous = line.input.index;
            let mut ev = self.line(&line.input, work, output, &mut bytes)?;
            if let Some(p) = &line.pending {
                spend(output, p.candidates.len(), ItemLineBudget::OutputDeclarations)?;
                ev.outcome = ItemLineOutcome::Pending { reason: p.reason.duplicate(), candidates: copy_key_list(&p.candidates) };
            }
            let ghost before = evidence_view(result@);
            result.push(ev);
            proof {
                assert(evidence_view(result@) =~= before.push(ev@));
                assert(expected[k as int] == ev@);
                assert(expected.take(k + 1) =~= expected.take(k as int).push(expected[k as int]));
            }
            k = k + 1;
        }
        assert(expected.take(k as int) =~= expected);
        self.aggregate(result, work, output)
    }
}

fn next_newline_exec(text: &[u8], i: usize) -> (r: usize)
    requires
        i <= text@.len(),
    ensures
        r == next_newline(text@, i as int),
        i <= r <= text@.len(),
{
    let mut k: usize = i;
    while k < text.len() && text[k] != 0x0Au8
        invariant
            i <= k <= text@.len(),
            next_newline(text@, i as int) == next_newline(text@, k as int),
        decreases text@.len() - k,
    {
        k = k + 1;
    }
    k
}

pub open spec fn input_texts(lines: Seq<ItemLineInput>) -> Seq<Seq<u8>> {
    lines.map_values(|l: ItemLineInput| l.text@)
}

/// The evidence the physical lines of a text give, numbered from 1.
pub open spec fn text_evidence(
    input: super::ItemLinePolicyInput,
    bound: Seq<super::BoundRule>,
    text: Seq<u8>,
) -> Seq<EvidenceView> {
    Seq::new(
        physical_lines(text).len(),
        |i: int|
            EvidenceView {
                index: (i + 1) as usize,
                text: physical_lines(text)[i],
                outcome: outcome_spec(input, bound, physical_lines(text)[i], None),
            },
    )
}

/// Work converting one physical line, which supplies no facts, may take.
pub open spec fn text_line_work(input: super::ItemLinePolicyInput, bound: Seq<super::BoundRule>, t: Seq<u8>) -> int {
    matching_work(input.rules@, line_text(input, t)) + resolved_work(input, bound, t, None)
}

/// Converting and aggregating every physical line of a text fits the
/// policy's limits.
pub open spec fn text_fits(
    input: super::ItemLinePolicyInput,
    bound: Seq<super::BoundRule>,
    templates: Seq<TemplateContext>,
    limits: super::ItemLineLimits,
    text: Seq<u8>,
) -> bool {
    let ls = physical_lines(text);
    let evs = text_evidence(input, bound, text);
    &&& text.len() <= limits.max_source_bytes
    &&& ls.len() <= limits.max_lines
    &&& forall|i: int| 0 <= i < ls.len() ==> ls[i].len() <= limits.max_line_bytes
    &&& sum_of(ls, |t: Seq<u8>| t.len() as int) <= limits.max_source_bytes
    &&& sum_of(ls, |t: Seq<u8>| resolved_output(input, t)) + fold_output(input.rules@, evs)
        <= limits.max_output_declarations
    &&& sum_of(ls, |t: Seq<u8>| text_line_work(input, bound, t)) + aggregate_work(input.rules@, templates, evs)
        <= limits.max_work
    &&& aggregate_spec(input.rules@, templates, evs) is Some
}

proof fn lemma_sum_transfer<A, B>(a: Seq<A>, f: spec_fn(A) -> int, b: Seq<B>, g: spec_fn(B) -> int)
    requires
        a.len() == b.len(),
        forall|i: int| 0 <= i < a.len() ==> #[trigger] f(a[i]) == g(b[i]),
    ensures
        sum_of(a, f) == sum_of(b, g),
    decreases a.len(),
{
    if a.len() > 0 {
        assert forall|i: int| 0 <= i < a.len() - 1 implies #[trigger] f(a.drop_last()[i]) == g(b.drop_last()[i]) by {
            assert(f(a[i]) == g(b[i]));
        }
        lemma_sum_transfer(a.drop_last(), f, b.drop_last(), g);
        assert(f(a.last()) == g(b.last()));
    }
}

impl OwnedItemLinePolicy {
    /// Convert a whole text. Physical lines are split after each line feed and
    /// kept without the line feed and a carriage return before it; they are
    /// numbered from 1.
    #[verifier::rlimit(40)]
    pub fn convert_text(&self, text: &[u8]) -> (r: Result<ItemTextConversion, ItemLineError>)
        ensures
            text@.len() > self.spec_limits().max_source_bytes ==> r matches Err(
                ItemLineError::Limit(ItemLineBudget::SourceBytes),
            ),
            physical_lines(text@).len() > self.spec_limits().max_lines ==> r is Err,
            r matches Ok(c) ==> {
                &&& c.lines@.len() == physical_lines(text@).len()
                &&& forall|i: int|
                    0 <= i < c.lines@.len() ==> {
                        &&& c.lines@[i].index == i + 1
                        &&& c.lines@[i].text@ == physical_lines(text@)[i]
                        &&& c.lines@[i].outcome@ == outcome_spec(
                            self.spec_input(),
                            self.spec_rules(),
                            physical_lines(text@)[i],
                            None,
                        )
                    }
                &&& aggregate_spec(self.spec_input().rules@, self.spec_templates(), evidence_view(c.lines@))
                    == Some(conversion_view(c))
            },
            r matches Err(e) ==> (e matches ItemLineError::Limit(_) || e matches ItemLineError::IndexFault { .. }),
            text_fits(self.spec_input(), self.spec_rules(), self.spec_templates(), self.spec_limits(), text@) ==> r is Ok,
    {
        if text.len() > self.limits.max_source_bytes {
            return Err(ItemLineError::Limit(ItemLineBudget::SourceBytes));
        }
        let ghost all = physical_lines(text@);
        let mut inputs: Vec<ItemLineInput> = Vec::new();
        let mut start: usize = 0;
        assert(input_texts(inputs@) + lines_from(text@, 0) =~= all);
        while start < text.len()
            invariant
                start <= text@.len(),
                inputs@.len() <= start,
                all == physical_lines(text@),
                all == input_texts(inputs@) + lines_from(text@, start as int),
                forall|i: int| 0 <= i < inputs@.len() ==> inputs@[i].index == i + 1 && inputs@[i].properties is None,
            decreases text@.len() - start,
        {
            let e = next_newline_exec(text, start);
            let piece = vstd::slice::slice_subrange(text, start, e);
            let line: &[u8] = if piece.len() > 0 && piece[piece.len() - 1] == 0x0Du8 {
                vstd::slice::slice_subrange(piece, 0, piece.len() - 1)
            } else {
                piece
            };
            assert(line@ == strip_cr(text@.subrange(start as int, e as int))) by {
                if piece@.len() > 0 && piece@.last() == 0x0Du8 {
                    assert(line@ =~= piece@.drop_last());
                }
            }
            let ghost before = input_texts(inputs@);
            let index = inputs.len() + 1;
            inputs.push(ItemLineInput { index, text: copy_bytes(line), properties: None });
            assert(input_texts(inputs@) =~= before.push(line@));
            let next: usize = if e < text.len() {
                e + 1
            } else {
                text.len()
            };
            assert(lines_from(text@, start as int) == seq![line@] + lines_from(text@, e + 1));
            assert(lines_from(text@, e + 1) == lines_from(text@, next as int)) by {
                if e == text.len() {
                    assert(lines_from(text@, e + 1) =~= seq![]);
                    assert(lines_from(text@, next as int) =~= seq![]);
                }
            }
            assert(before + (seq![line@] + lines_from(text@, next as int)) =~= before.push(line@) + lines_from(text@, next as int));
            start = next;
        }
        assert(input_texts(inputs@) + lines_from(text@, start as int) =~= input_texts(inputs@));
        let ghost ins = inputs@;
        assert(ordered_inputs(ins));
        proof {
            let pin = self.spec_input();
            let bnd = self.spec_rules();
            if text_fits(pin, bnd, self.spec_templates(), self.spec_limits(), text@) {
                assert(ins.len() == all.len());
                assert forall|i: int| 0 <= i < ins.len() implies #[trigger] ins[i].text@ == all[i] by {
                    assert(input_texts(ins)[i] == ins[i].text@);
                }
                assert(expected_evidence(pin, bnd, ins) =~= text_evidence(pin, bnd, text@));
                let z = |f: PropertyFact| plus_one_sat(f.property@.len() as int);
                let zl = |f: PropertyFact| f.property@.len() as int;
                assert(sum_of(Seq::<PropertyFact>::empty(), z) == 0);
                assert(sum_of(Seq::<PropertyFact>::empty(), zl) == 0);
                lemma_sum_transfer(
                    ins,
                    |l: ItemLineInput| line_bytes(l),
                    all,
                    |t: Seq<u8>| t.len() as int,
                );
                lemma_sum_transfer(
                    ins,
                    |l: ItemLineInput| line_output(self.spec_input(), l),
                    all,
                    |t: Seq<u8>| resolved_output(self.spec_input(), t),
                );
                lemma_sum_transfer(
                    ins,
                    |l: ItemLineInput| line_work(self.spec_input(), self.spec_rules(), l),
                    all,
                    |t: Seq<u8>| text_line_work(self.spec_input(), self.spec_rules(), t),
                );
                assert(ins.take(ins.len() as int) =~= ins);
                assert(lines_fit(pin, bnd, self.spec_templates(), self.spec_limits(), ins));
            }
        }
        let r = self.convert_lines(inputs);
        proof {
            if r is Ok {
                let c = r->Ok_0;
                assert forall|i: int| 0 <= i < c.lines@.len() implies {
                    &&& c.lines@[i].index == i + 1
                    &&& c.lines@[i].text@ == all[i]
                    &&& c.lines@[i].outcome@ == outcome_spec(self.spec_input(), self.spec_rules(), all[i], None)
                } by {
                    assert(evidence_view(c.lines@)[i] == c.lines@[i]@);
                    assert(input_texts(ins)[i] == ins[i].text@);
                }
            }
        }
        r
    }
}


// ---------------------------------------------------------------------------
// Laws of the fold.

/// How far a field has gone from absent, through known, to pending.
pub open spec fn field_rank<T>(f: FieldView<T>) -> nat {
    match f {
        FieldView::Absent => 0,
        FieldView::Known { .. } => 1,
        FieldView::Pending { .. } => 2,
    }
}

proof fn lemma_known_upto_rank(s: AggState, line: usize, ems: Seq<EmissionView>, n: int)
    ensures
        field_rank(known_upto(s, line, ems, n).template) >= field_rank(s.template),
    decreases n,
{
    if n > 0 {
        lemma_known_upto_rank(s, line, ems, n - 1);
    }
}

proof fn lemma_known_upto_bump(s: AggState, line: usize, ems: Seq<EmissionView>, n: int, e: int)
    requires
        0 <= e < n <= ems.len(),
        ems[e] is Template,
        field_rank(s.template) >= 1,
    ensures
        field_rank(known_upto(s, line, ems, n).template) == 2,
    decreases n,
{
    if e < n - 1 {
        lemma_known_upto_bump(s, line, ems, n - 1, e);
    } else {
        lemma_known_upto_rank(s, line, ems, n - 1);
    }
}

proof fn lemma_known_upto_declares(s: AggState, line: usize, ems: Seq<EmissionView>, n: int, e: int)
    requires
        0 <= e < n <= ems.len(),
        ems[e] is Template,
    ensures
        field_rank(known_upto(s, line, ems, n).template) >= 1,
    decreases n,
{
    if e < n - 1 {
        lemma_known_upto_declares(s, line, ems, n - 1, e);
    } else {
        lemma_known_upto_rank(s, line, ems, n - 1);
    }
}

proof fn lemma_cand_ems_rank(s: AggState, line: usize, ems: Seq<ItemEmission>, n: int)
    ensures
        field_rank(cand_ems_upto(s, line, ems, n).template) >= field_rank(s.template),
    decreases n,
{
    if n > 0 {
        lemma_cand_ems_rank(s, line, ems, n - 1);
    }
}

proof fn lemma_cand_ems_pending(s: AggState, line: usize, ems: Seq<ItemEmission>, n: int, e: int)
    requires
        0 <= e < n <= ems.len(),
        ems[e] is Template,
    ensures
        field_rank(cand_ems_upto(s, line, ems, n).template) == 2,
    decreases n,
{
    if e < n - 1 {
        lemma_cand_ems_pending(s, line, ems, n - 1, e);
    } else {
        lemma_cand_ems_rank(s, line, ems, n - 1);
    }
}

proof fn lemma_cands_rank(s: AggState, line: usize, rules: Seq<ItemLineRule>, cands: Seq<Seq<u8>>, n: int)
    ensures
        field_rank(cands_upto(s, line, rules, cands, n).template) >= field_rank(s.template),
    decreases n,
{
    if n > 0 {
        lemma_cands_rank(s, line, rules, cands, n - 1);
        let prev = cands_upto(s, line, rules, cands, n - 1);
        match rule_index(rules, cands[n - 1], 0) {
            Some(i) => lemma_cand_ems_rank(prev, line, rules[i].emissions@, rules[i].emissions@.len() as int),
            None => {},
        }
    }
}

proof fn lemma_cands_pending(
    s: AggState,
    line: usize,
    rules: Seq<ItemLineRule>,
    cands: Seq<Seq<u8>>,
    n: int,
    c: int,
    r: int,
    e: int,
)
    requires
        0 <= c < n <= cands.len(),
        rule_index(rules, cands[c], 0) == Some(r),
        0 <= r < rules.len(),
        0 <= e < rules[r].emissions@.len(),
        rules[r].emissions@[e] is Template,
    ensures
        field_rank(cands_upto(s, line, rules, cands, n).template) == 2,
    decreases n,
{
    if c < n - 1 {
        lemma_cands_pending(s, line, rules, cands, n - 1, c, r, e);
        let prev = cands_upto(s, line, rules, cands, n - 1);
        match rule_index(rules, cands[n - 1], 0) {
            Some(i) => lemma_cand_ems_rank(prev, line, rules[i].emissions@, rules[i].emissions@.len() as int),
            None => {},
        }
    } else {
        let prev = cands_upto(s, line, rules, cands, n - 1);
        lemma_cand_ems_pending(prev, line, rules[r].emissions@, rules[r].emissions@.len() as int, e);
    }
}

proof fn lemma_line_rank(s: AggState, rules: Seq<ItemLineRule>, ev: EvidenceView)
    ensures
        field_rank(line_step(s, rules, ev).template) >= field_rank(s.template),
{
    match ev.outcome {
        OutcomeView::Known { emissions, .. } => lemma_known_upto_rank(s, ev.index, emissions, emissions.len() as int),
        OutcomeView::Pending { candidates, .. } => lemma_cands_rank(s, ev.index, rules, candidates, candidates.len() as int),
    }
}

proof fn lemma_lines_rank(rules: Seq<ItemLineRule>, evs: Seq<EvidenceView>, m: int, n: int)
    requires
        0 <= m <= n,
    ensures
        field_rank(lines_upto(rules, evs, n).template) >= field_rank(lines_upto(rules, evs, m).template),
    decreases n,
{
    if m < n {
        lemma_lines_rank(rules, evs, m, n - 1);
        lemma_line_rank(lines_upto(rules, evs, n - 1), rules, evs[n - 1]);
    }
}

proof fn lemma_finish_template(s: AggState, templates: Seq<TemplateContext>)
    ensures
        finish(s, templates) matches Some(cv) ==> cv.template == s.template,
{
}

/// A line left pending whose matched candidates include a rule that declares
/// the item template keeps the template from being known, whatever other
/// lines declare: an unresolved header is never hidden by a resolved one.
pub proof fn law_pending_header_blocks_template(
    rules: Seq<ItemLineRule>,
    templates: Seq<TemplateContext>,
    evs: Seq<EvidenceView>,
    i: int,
    c: int,
    r: int,
    e: int,
)
    requires
        0 <= i < evs.len(),
        evs[i].outcome matches OutcomeView::Pending { candidates, .. } && 0 <= c < candidates.len()
            && rule_index(rules, candidates[c], 0) == Some(r),
        0 <= r < rules.len(),
        0 <= e < rules[r].emissions@.len(),
        rules[r].emissions@[e] is Template,
    ensures
        aggregate_spec(rules, templates, evs) matches Some(cv) ==> !(cv.template is Known),
{
    let cands = evs[i].outcome->Pending_candidates;
    let before = lines_upto(rules, evs, i);
    lemma_cands_pending(before, evs[i].index, rules, cands, cands.len() as int, c, r, e);
    lemma_lines_rank(rules, evs, i + 1, evs.len() as int);
    lemma_finish_template(lines_upto(rules, evs, evs.len() as int), templates);
}

/// Two lines that each resolve to a template declaration leave the template
/// pending: a duplicate header is never resolved by picking one.
pub proof fn law_duplicate_template_pending(
    rules: Seq<ItemLineRule>,
    templates: Seq<TemplateContext>,
    evs: Seq<EvidenceView>,
    i: int,
    ei: int,
    j: int,
    ej: int,
)
    requires
        0 <= i < j < evs.len(),
        evs[i].outcome matches OutcomeView::Known { emissions, .. } && 0 <= ei < emissions.len()
            && emissions[ei] is Template,
        evs[j].outcome matches OutcomeView::Known { emissions, .. } && 0 <= ej < emissions.len()
            && emissions[ej] is Template,
    ensures
        aggregate_spec(rules, templates, evs) matches Some(cv) ==> cv.template is Pending,
{
    let emi = evs[i].outcome->Known_emissions;
    let emj = evs[j].outcome->Known_emissions;
    lemma_known_upto_declares(lines_upto(rules, evs, i), evs[i].index, emi, emi.len() as int, ei);
    lemma_lines_rank(rules, evs, i + 1, j);
    lemma_known_upto_bump(lines_upto(rules, evs, j), evs[j].index, emj, emj.len() as int, ej);
    lemma_lines_rank(rules, evs, j + 1, evs.len() as int);
    lemma_finish_template(lines_upto(rules, evs, evs.len() as int), templates);
}

proof fn lemma_single_upto_once(ps: Seq<ParamView>, occ: Seq<(DeclaredSlotView, Seq<usize>)>, n: int)
    requires
        0 <= n <= ps.len(),
    ensures
        forall|q: int|
            0 <= q < single_upto(ps, occ, n).len() ==> occ_count(occ, (#[trigger] single_upto(ps, occ, n)[q]).assignment.slot)
                == 1,
    decreases n,
{
    if n > 0 {
        lemma_single_upto_once(ps, occ, n - 1);
    }
}

proof fn lemma_owner_kept_from(ps: Seq<ParamView>, owner: SlotOwnerView, n: int)
    requires
        0 <= n <= ps.len(),
    ensures
        forall|q: int|
            0 <= q < owner_kept(ps, owner, n).len() ==> exists|k: int| 0 <= k < n && #[trigger] owner_kept(ps, owner, n)[q] == ps[k],
    decreases n,
{
    if n > 0 {
        lemma_owner_kept_from(ps, owner, n - 1);
        let prev = owner_kept(ps, owner, n - 1);
        assert forall|q: int| 0 <= q < owner_kept(ps, owner, n).len() implies exists|k: int|
            0 <= k < n && #[trigger] owner_kept(ps, owner, n)[q] == ps[k] by {
            if q < prev.len() {
                assert(owner_kept(ps, owner, n)[q] == prev[q]);
                let k = choose|k: int| 0 <= k < n - 1 && prev[q] == ps[k];
                assert(owner_kept(ps, owner, n)[q] == ps[k]);
            } else {
                assert(owner_kept(ps, owner, n)[q] == ps[n - 1]);
            }
        }
    }
}

/// Every parameter a conversion keeps was declared, for its slot, by exactly
/// one line: a slot declared by several lines keeps none of its values.
pub proof fn law_kept_parameters_declared_once(
    rules: Seq<ItemLineRule>,
    templates: Seq<TemplateContext>,
    evs: Seq<EvidenceView>,
)
    ensures
        aggregate_spec(rules, templates, evs) matches Some(cv) ==> forall|q: int|
            0 <= q < cv.parameters.len() ==> occ_count(
                lines_upto(rules, evs, evs.len() as int).occ,
                (#[trigger] cv.parameters[q]).assignment.slot,
            ) == 1,
{
    let s = lines_upto(rules, evs, evs.len() as int);
    let ps = single_upto(s.parameters, s.occ, s.parameters.len() as int);
    lemma_single_upto_once(s.parameters, s.occ, s.parameters.len() as int);
    if let FieldView::Known { value, .. } = s.template {
        if let Some(c) = context_index(templates, value, 0) {
            let owner = SlotOwnerView::ItemTemplate(value);
            lemma_owner_kept_from(ps, owner, ps.len() as int);
            let kept = owner_kept(ps, owner, ps.len() as int);
            assert forall|q: int| 0 <= q < kept.len() implies occ_count(s.occ, (#[trigger] kept[q]).assignment.slot) == 1 by {
                let k = choose|k: int| 0 <= k < ps.len() && kept[q] == ps[k];
                assert(occ_count(s.occ, ps[k].assignment.slot) == 1);
            }
        }
    }
}

/// Leaving a field pending twice on the same line records the line once.
pub proof fn law_pending_field_idempotent<T>(f: FieldView<T>, line: usize)
    ensures
        pending_spec(pending_spec(f, line), line) == pending_spec(f, line),
{
}

/// A field first declared becomes known on its line; a second declaration on
/// another line makes it pending on both lines with one duplicate issue.
pub proof fn law_set_field_twice<T>(value: T, other: T, first: usize, second: usize, issues: Seq<IssueView>)
    requires
        first != second,
    ensures
        set_spec(FieldView::Absent, value, first, issues) == (FieldView::Known { value, line: first }, issues),
        ({
            let (f, i) = set_spec(FieldView::Known { value, line: first }, other, second, issues);
            f == FieldView::<T>::Pending { lines: seq![first, second] } && i == issues.push(
                IssueView { problem: ItemTextProblem::DuplicateHeader, lines: seq![first, second] },
            )
        }),
{
    let (f, i) = set_spec(FieldView::Known { value, line: first }, other, second, issues);
    assert(f->Pending_lines =~= seq![first, second]);
}


proof fn lemma_mods_kept_allowed(ms: Seq<ModView>, ctx: TemplateContext, n: int)
    requires
        0 <= n <= ms.len(),
    ensures
        forall|q: int|
            0 <= q < mods_kept(ms, ctx, n).len() ==> exists|k: int|
                0 <= k < ctx.modifiers.members@.len() && ctx.modifiers.members@[k]@ == (
                #[trigger] mods_kept(ms, ctx, n)[q]).definition,
        forall|q: int|
            0 <= q < n && (exists|k: int|
                0 <= k < ctx.modifiers.members@.len() && ctx.modifiers.members@[k]@ == (#[trigger] ms[q]).definition)
                ==> mods_kept(ms, ctx, n).contains(ms[q]),
    decreases n,
{
    if n > 0 {
        lemma_mods_kept_allowed(ms, ctx, n - 1);
        let prev = mods_kept(ms, ctx, n - 1);
        let cur = mods_kept(ms, ctx, n);
        assert forall|q: int| 0 <= q < cur.len() implies exists|k: int|
            0 <= k < ctx.modifiers.members@.len() && ctx.modifiers.members@[k]@ == (#[trigger] cur[q]).definition by {
            if q < prev.len() {
                assert(cur[q] == prev[q]);
            } else {
                assert(key_set_contains(ctx.modifiers, ms[n - 1].definition));
                assert(cur[q] == ms[n - 1]);
                let k = choose|k: int| 0 <= k < ctx.modifiers.members.len() && ctx.modifiers.members@[k]@ == ms[n - 1].definition;
                assert(ctx.modifiers.members@[k]@ == cur[q].definition);
            }
        }
        assert forall|q: int|
            0 <= q < n && (exists|k: int|
                0 <= k < ctx.modifiers.members@.len() && ctx.modifiers.members@[k]@ == (#[trigger] ms[q]).definition)
                implies cur.contains(ms[q]) by {
            if q < n - 1 {
                assert(prev.contains(ms[q]));
                let p = choose|p: int| 0 <= p < prev.len() && prev[p] == ms[q];
                assert(cur[p] == ms[q]);
            } else {
                assert(key_set_contains(ctx.modifiers, ms[q].definition));
                assert(cur[cur.len() - 1] == ms[q]);
            }
        }
    }
}

proof fn lemma_mods_issues_report(ms: Seq<ModView>, ctx: TemplateContext, n: int)
    requires
        0 <= n <= ms.len(),
    ensures
        forall|q: int|
            0 <= q < n && !key_set_contains(ctx.modifiers, (#[trigger] ms[q]).definition) ==> mods_issues(ms, ctx, n).contains(
                IssueView {
                    problem: if ctx.modifiers.complete {
                        ItemTextProblem::ModifierNotAllowed
                    } else {
                        ItemTextProblem::SchemaPartial
                    },
                    lines: seq![ms[q].line],
                },
            ),
    decreases n,
{
    if n > 0 {
        lemma_mods_issues_report(ms, ctx, n - 1);
        let prev = mods_issues(ms, ctx, n - 1);
        let cur = mods_issues(ms, ctx, n);
        assert forall|q: int|
            0 <= q < n && !key_set_contains(ctx.modifiers, (#[trigger] ms[q]).definition) implies cur.contains(
                IssueView {
                    problem: if ctx.modifiers.complete {
                        ItemTextProblem::ModifierNotAllowed
                    } else {
                        ItemTextProblem::SchemaPartial
                    },
                    lines: seq![ms[q].line],
                },
            ) by {
            let iv = IssueView {
                problem: if ctx.modifiers.complete {
                    ItemTextProblem::ModifierNotAllowed
                } else {
                    ItemTextProblem::SchemaPartial
                },
                lines: seq![ms[q].line],
            };
            if q < n - 1 {
                let p = choose|p: int| 0 <= p < prev.len() && prev[p] == iv;
                assert(cur[p] == iv);
            } else {
                assert(cur[cur.len() - 1] == iv);
            }
        }
    }
}

/// Under a known template whose modifier set is complete, every folded
/// modifier outside the set is reported as not allowed on its own line.
pub proof fn law_disallowed_modifiers_reported(
    rules: Seq<ItemLineRule>,
    templates: Seq<TemplateContext>,
    evs: Seq<EvidenceView>,
    c: int,
    q: int,
)
    requires
        lines_upto(rules, evs, evs.len() as int).template matches FieldView::Known { value, .. }
            && context_index(templates, value, 0) == Some(c),
        templates[c].modifiers.complete,
        0 <= q < lines_upto(rules, evs, evs.len() as int).modifiers.len(),
        forall|k: int|
            0 <= k < templates[c].modifiers.members@.len() ==> templates[c].modifiers.members@[k]@
                != lines_upto(rules, evs, evs.len() as int).modifiers[q].definition,
    ensures
        aggregate_spec(rules, templates, evs) matches Some(cv) && cv.issues.contains(
            IssueView {
                problem: ItemTextProblem::ModifierNotAllowed,
                lines: seq![lines_upto(rules, evs, evs.len() as int).modifiers[q].line],
            },
        ),
{
    let s = lines_upto(rules, evs, evs.len() as int);
    let ds = deduped(s);
    let value = s.template->Known_value;
    let ctx = templates[c];
    lemma_mods_issues_report(ds.modifiers, ctx, ds.modifiers.len() as int);
    assert(ds.modifiers == s.modifiers);
    let iv = IssueView { problem: ItemTextProblem::ModifierNotAllowed, lines: seq![s.modifiers[q].line] };
    let owner = SlotOwnerView::ItemTemplate(value);
    let i1 = ds.issues + owner_issues(ds.parameters, owner, ds.parameters.len() as int);
    let mi = mods_issues(ds.modifiers, ctx, ds.modifiers.len() as int);
    assert(mi.contains(iv));
    let p = choose|p: int| 0 <= p < mi.len() && mi[p] == iv;
    let i2 = i1 + mi;
    assert(i2[i1.len() + p] == iv);
    let cv = with_template(ds, ctx, value);
    assert(cv.issues.len() >= i2.len());
    assert(cv.issues[i1.len() + p] == iv);
}

/// A conversion keeps a modifier only under a known template whose checked
/// context allows its definition, and keeps every folded modifier that the
/// context allows; without a known template it keeps none.
pub proof fn law_kept_modifiers_are_allowed(
    rules: Seq<ItemLineRule>,
    templates: Seq<TemplateContext>,
    evs: Seq<EvidenceView>,
)
    ensures
        aggregate_spec(rules, templates, evs) matches Some(cv) ==> {
            let s = lines_upto(rules, evs, evs.len() as int);
            match cv.template {
                FieldView::Known { value, .. } => exists|c: int| {
                    &&& 0 <= c < templates.len()
                    &&& templates[c].template@ == value
                    &&& forall|q: int|
                        0 <= q < cv.modifiers.len() ==> exists|k: int|
                            0 <= k < templates[c].modifiers.members@.len()
                                && templates[c].modifiers.members@[k]@ == (#[trigger] cv.modifiers[q]).definition
                    &&& forall|q: int|
                        0 <= q < s.modifiers.len() && (exists|k: int|
                            0 <= k < templates[c].modifiers.members@.len()
                                && templates[c].modifiers.members@[k]@ == (#[trigger] s.modifiers[q]).definition)
                            ==> cv.modifiers.contains(s.modifiers[q])
                },
                _ => cv.modifiers.len() == 0,
            }
        },
{
    let s = lines_upto(rules, evs, evs.len() as int);
    if let FieldView::Known { value, .. } = s.template {
        if let Some(c) = context_index(templates, value, 0) {
            lemma_context_index_found(templates, value, 0);
            lemma_mods_kept_allowed(deduped(s).modifiers, templates[c], s.modifiers.len() as int);
            assert(deduped(s).modifiers == s.modifiers);
        }
    }
}

proof fn lemma_context_index_found(templates: Seq<TemplateContext>, id: Seq<u8>, i: int)
    ensures
        context_index(templates, id, i) matches Some(c) ==> 0 <= c < templates.len() && templates[c].template@ == id,
    decreases templates.len() - i,
{
    if 0 <= i < templates.len() && templates[i].template@ != id {
        lemma_context_index_found(templates, id, i + 1);
    }
}

} // verus!
