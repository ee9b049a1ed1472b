//! Structural validation of an injected line policy and its binding to the
//! owned definition schema.
use super::{
    BooleanToken, ItemCapture, ItemCaptureCodec, ItemEmission, ItemLineBudget, ItemLineError,
    ItemLineLimits, ItemLinePolicyInput, ItemLineRule, ItemLineViolation, ItemPatternPart,
    OptionToken, PatternPartView, ValueCodecKind, charge, OWNED_ITEM_LINE_POLICY_VERSION,
    DeclaredSlot, DeclaredSlotView, ParameterValue, ParameterValueView, ItemLinePending,
    ItemSchemaSubject, ItemSchemaSubjectView, SlotOwnerView, ItemLinePendingView, ItemSchemaUnknown, ItemLineValue, SlotOwner, ValueCodecInput,
    BoundRule, ItemRoll, OwnedItemLinePolicy, TemplateContext,
};
use super::convert::{lemma_sum_mono, lemma_sum_step, sum_of};
use crate::text::{bytes_eq, contains_byte, contains_byte_exec};
use vstd::prelude::*;

verus! {

/// Sum of a sequence of naturals.
pub open spec fn seq_sum(s: Seq<nat>) -> nat
    decreases s.len(),
{
    if s.len() == 0 {
        0
    } else {
        seq_sum(s.drop_last()) + s.last()
    }
}

pub proof fn lemma_seq_sum_take(s: Seq<nat>, i: int)
    requires
        0 <= i < s.len(),
    ensures
        seq_sum(s.take(i + 1)) == seq_sum(s.take(i)) + s[i],
{
    assert(s.take(i + 1).drop_last() =~= s.take(i));
}

pub proof fn lemma_seq_sum_monotone(s: Seq<nat>, i: int, j: int)
    requires
        0 <= i <= j <= s.len(),
    ensures
        seq_sum(s.take(i)) <= seq_sum(s.take(j)),
    decreases j - i,
{
    if i < j {
        lemma_seq_sum_monotone(s, i, j - 1);
        lemma_seq_sum_take(s, j - 1);
    }
}

/// Every limit admits at least one unit.
pub open spec fn limits_valid(l: ItemLineLimits) -> bool {
    &&& l.max_rules > 0
    &&& l.max_parts > 0
    &&& l.max_captures > 0
    &&& l.max_emissions > 0
    &&& l.max_rolls > 0
    &&& l.max_policy_text_bytes > 0
    &&& l.max_schema_work > 0
    &&& l.max_line_bytes > 0
    &&& l.max_source_bytes > 0
    &&& l.max_lines > 0
    &&& l.max_work > 0
    &&& l.max_output_declarations > 0
}

impl ItemLineLimits {
    /// Reject limits that admit nothing.
    pub fn validate(self) -> (r: Result<(), ItemLineError>)
        ensures
            r is Ok <==> limits_valid(self),
            r is Err ==> r matches Err(ItemLineError::Limit(ItemLineBudget::Limits)),
    {
        if self.max_rules == 0 || self.max_parts == 0 || self.max_captures == 0
            || self.max_emissions == 0 || self.max_rolls == 0 || self.max_policy_text_bytes == 0
            || self.max_schema_work == 0 || self.max_line_bytes == 0 || self.max_source_bytes == 0
            || self.max_lines == 0 || self.max_work == 0 || self.max_output_declarations == 0 {
            return Err(ItemLineError::Limit(ItemLineBudget::Limits));
        }
        Ok(())
    }
}

pub open spec fn metadata_only(r: ItemLineRule) -> bool {
    forall|k: int| 0 <= k < r.emissions.len() ==> r.emissions@[k] is Metadata
}

pub open spec fn boolean_tokens_distinct(t: Seq<BooleanToken>) -> bool {
    forall|a: int, b: int| 0 <= a < b < t.len() ==> t[a].token@ != t[b].token@
}

pub open spec fn option_tokens_distinct(t: Seq<OptionToken>) -> bool {
    forall|a: int, b: int| 0 <= a < b < t.len() ==> t[a].token@ != t[b].token@
}

pub open spec fn boolean_token_bytes(t: Seq<BooleanToken>) -> nat {
    seq_sum(t.map_values(|x: BooleanToken| x.token@.len()))
}

pub open spec fn option_token_bytes(t: Seq<OptionToken>) -> nat {
    seq_sum(t.map_values(|x: OptionToken| x.token@.len()))
}

/// Policy text carried by one capture declaration.
pub open spec fn capture_text(c: ItemCapture) -> nat {
    match c.codec {
        ItemCaptureCodec::Value(v) => match v.codec {
            ValueCodecKind::Boolean { tokens } => boolean_token_bytes(tokens@),
            ValueCodecKind::Option { tokens } => option_token_bytes(tokens@),
            ValueCodecKind::Integer => 0,
        },
        ItemCaptureCodec::OpaqueText => 0,
    }
}

pub open spec fn part_text(p: ItemPatternPart) -> nat {
    match p {
        ItemPatternPart::Literal(v) => v@.len(),
        _ => 0,
    }
}

/// Policy text carried by one rule: codec tokens and pattern literals.
pub open spec fn rule_text(r: ItemLineRule) -> nat {
    seq_sum(r.captures@.map_values(|c: ItemCapture| capture_text(c))) + seq_sum(
        r.pattern@.map_values(|p: ItemPatternPart| part_text(p)),
    )
}

pub open spec fn emission_rolls(e: ItemEmission) -> nat {
    match e {
        ItemEmission::Modifier { rolls, .. } => rolls@.len(),
        _ => 0,
    }
}

pub open spec fn rule_rolls(r: ItemLineRule) -> nat {
    seq_sum(r.emissions@.map_values(|e: ItemEmission| emission_rolls(e)))
}

pub open spec fn capture_ok(c: ItemCapture, namespace: Seq<u8>, metadata: bool) -> bool {
    match c.codec {
        ItemCaptureCodec::OpaqueText => metadata,
        ItemCaptureCodec::Value(v) => v.namespace@ == namespace && match v.codec {
            ValueCodecKind::Boolean { tokens } => boolean_tokens_distinct(tokens@),
            ValueCodecKind::Option { tokens } => option_tokens_distinct(tokens@),
            ValueCodecKind::Integer => true,
        },
    }
}

pub open spec fn part_capture_id(p: PatternPartView) -> Option<Seq<u8>> {
    match p {
        PatternPartView::Capture(id) => Some(id),
        PatternPartView::NumericCapture { capture, .. } => Some(capture),
        PatternPartView::Literal(_) => None,
    }
}

pub open spec fn literal_ok(lit: Seq<u8>, pattern_len: nat) -> bool {
    !contains_byte(lit, 0x0Au8) && !contains_byte(lit, 0x0Du8) && (lit.len() == 0 ==> pattern_len
        == 1)
}

pub open spec fn declares(r: ItemLineRule, id: Seq<u8>) -> bool {
    exists|k: int| 0 <= k < r.captures.len() && r.captures@[k].id@ == id
}

/// The pattern part at `i` of rule `r` is valid in its position.
pub open spec fn part_ok(r: ItemLineRule, i: int) -> bool {
    let p = r.pattern@[i]@;
    match part_capture_id(p) {
        None => literal_ok(p->Literal_0, r.pattern.len() as nat),
        Some(id) => {
            &&& (i == 0 || part_capture_id(r.pattern@[i - 1]@) is None)
            &&& declares(r, id)
            &&& forall|j: int| 0 <= j < i ==> part_capture_id(r.pattern@[j]@) != Some(id)
        },
    }
}

/// Number of capture parts in the first `n` parts of a pattern.
pub open spec fn capture_parts(r: ItemLineRule, n: int) -> nat
    decreases n,
{
    if n <= 0 {
        0
    } else {
        capture_parts(r, n - 1) + if part_capture_id(r.pattern@[n - 1]@) is Some {
            1nat
        } else {
            0nat
        }
    }
}

/// A rule is well shaped: a nonempty pattern whose captures are each
/// declared once, used once and separated by literals.
pub open spec fn rule_ok(r: ItemLineRule, namespace: Seq<u8>) -> bool {
    &&& r.pattern.len() > 0
    &&& forall|a: int, b: int|
        0 <= a < b < r.captures.len() ==> r.captures@[a].id@ != r.captures@[b].id@
    &&& forall|k: int|
        0 <= k < r.captures.len() ==> capture_ok(r.captures@[k], namespace, metadata_only(r))
    &&& forall|i: int| 0 <= i < r.pattern.len() ==> part_ok(r, i)
    &&& capture_parts(r, r.pattern.len() as int) == r.captures.len()
}

pub open spec fn rule_ids_distinct(rules: Seq<ItemLineRule>) -> bool {
    forall|a: int, b: int| 0 <= a < b < rules.len() ==> rules[a].id@ != rules[b].id@
}

pub open spec fn total_parts(rules: Seq<ItemLineRule>) -> nat {
    seq_sum(rules.map_values(|r: ItemLineRule| r.pattern@.len()))
}

pub open spec fn total_captures(rules: Seq<ItemLineRule>) -> nat {
    seq_sum(rules.map_values(|r: ItemLineRule| r.captures@.len()))
}

pub open spec fn total_emissions(rules: Seq<ItemLineRule>) -> nat {
    seq_sum(rules.map_values(|r: ItemLineRule| r.emissions@.len()))
}

pub open spec fn total_rolls(rules: Seq<ItemLineRule>) -> nat {
    seq_sum(rules.map_values(|r: ItemLineRule| rule_rolls(r)))
}

pub open spec fn total_text(rules: Seq<ItemLineRule>) -> nat {
    seq_sum(rules.map_values(|r: ItemLineRule| rule_text(r)))
}

/// The whole policy is structurally valid under `limits`.
pub open spec fn shape_valid(input: ItemLinePolicyInput, limits: ItemLineLimits) -> bool {
    &&& limits_valid(limits)
    &&& input.schema_version == OWNED_ITEM_LINE_POLICY_VERSION
    &&& input.rules.len() <= limits.max_rules
    &&& rule_ids_distinct(input.rules@)
    &&& forall|k: int| 0 <= k < input.rules.len() ==> rule_ok(input.rules@[k], input.namespace@)
    &&& total_parts(input.rules@) <= limits.max_parts
    &&& total_captures(input.rules@) <= limits.max_captures
    &&& total_emissions(input.rules@) <= limits.max_emissions
    &&& total_rolls(input.rules@) <= limits.max_rolls
    &&& total_text(input.rules@) <= limits.max_policy_text_bytes
}


fn boolean_tokens_check(tokens: &Vec<BooleanToken>, text: &mut usize) -> (r: Result<(), ItemLineBudget>)
    ensures
        r is Ok <==> boolean_token_bytes(tokens@) <= *old(text),
        r is Ok ==> *final(text) == *old(text) - boolean_token_bytes(tokens@),
        r is Err ==> r == Err::<(), ItemLineBudget>(ItemLineBudget::PolicyTextBytes),
{
    let ghost lens = tokens@.map_values(|x: BooleanToken| x.token@.len());
    let ghost start = *text as nat;
    let mut t: usize = 0;
    while t < tokens.len()
        invariant
            lens == tokens@.map_values(|x: BooleanToken| x.token@.len()),
            start == *old(text),
            t <= tokens@.len(),
            seq_sum(lens.take(t as int)) <= start,
            *text == start - seq_sum(lens.take(t as int)),
        decreases tokens@.len() - t,
    {
        proof {
            lemma_seq_sum_take(lens, t as int);
            lemma_seq_sum_monotone(lens, t as int + 1, lens.len() as int);
        }
        let n = tokens[t].token.len();
        if n > *text {
            assert(lens.take(lens.len() as int) =~= lens);
            return Err(ItemLineBudget::PolicyTextBytes);
        }
        *text = *text - n;
        t = t + 1;
    }
    assert(lens.take(lens.len() as int) =~= lens);
    Ok(())
}

fn option_tokens_check(tokens: &Vec<OptionToken>, text: &mut usize) -> (r: Result<(), ItemLineBudget>)
    ensures
        r is Ok <==> option_token_bytes(tokens@) <= *old(text),
        r is Ok ==> *final(text) == *old(text) - option_token_bytes(tokens@),
        r is Err ==> r == Err::<(), ItemLineBudget>(ItemLineBudget::PolicyTextBytes),
{
    let ghost lens = tokens@.map_values(|x: OptionToken| x.token@.len());
    let ghost start = *text as nat;
    let mut t: usize = 0;
    while t < tokens.len()
        invariant
            lens == tokens@.map_values(|x: OptionToken| x.token@.len()),
            start == *old(text),
            t <= tokens@.len(),
            seq_sum(lens.take(t as int)) <= start,
            *text == start - seq_sum(lens.take(t as int)),
        decreases tokens@.len() - t,
    {
        proof {
            lemma_seq_sum_take(lens, t as int);
            lemma_seq_sum_monotone(lens, t as int + 1, lens.len() as int);
        }
        let n = tokens[t].token.len();
        if n > *text {
            assert(lens.take(lens.len() as int) =~= lens);
            return Err(ItemLineBudget::PolicyTextBytes);
        }
        *text = *text - n;
        t = t + 1;
    }
    assert(lens.take(lens.len() as int) =~= lens);
    Ok(())
}

fn boolean_tokens_distinct_exec(tokens: &Vec<BooleanToken>) -> (r: bool)
    ensures
        r == boolean_tokens_distinct(tokens@),
{
    let mut b: usize = 0;
    while b < tokens.len()
        invariant
            b <= tokens@.len(),
            forall|x: int, y: int| 0 <= x < y < b ==> tokens@[x].token@ != tokens@[y].token@,
        decreases tokens@.len() - b,
    {
        let mut a: usize = 0;
        while a < b
            invariant
                a <= b < tokens@.len(),
                forall|x: int| 0 <= x < a ==> tokens@[x].token@ != tokens@[b as int].token@,
            decreases b - a,
        {
            if bytes_eq(tokens[a].token.as_slice(), tokens[b].token.as_slice()) {
                return false;
            }
            a = a + 1;
        }
        b = b + 1;
    }
    true
}

fn option_tokens_distinct_exec(tokens: &Vec<OptionToken>) -> (r: bool)
    ensures
        r == option_tokens_distinct(tokens@),
{
    let mut b: usize = 0;
    while b < tokens.len()
        invariant
            b <= tokens@.len(),
            forall|x: int, y: int| 0 <= x < y < b ==> tokens@[x].token@ != tokens@[y].token@,
        decreases tokens@.len() - b,
    {
        let mut a: usize = 0;
        while a < b
            invariant
                a <= b < tokens@.len(),
                forall|x: int| 0 <= x < a ==> tokens@[x].token@ != tokens@[b as int].token@,
            decreases b - a,
        {
            if bytes_eq(tokens[a].token.as_slice(), tokens[b].token.as_slice()) {
                return false;
            }
            a = a + 1;
        }
        b = b + 1;
    }
    true
}

pub(crate) fn metadata_only_exec(rule: &ItemLineRule) -> (r: bool)
    ensures
        r == metadata_only(*rule),
{
    let mut k: usize = 0;
    while k < rule.emissions.len()
        invariant
            k <= rule.emissions@.len(),
            forall|j: int| 0 <= j < k ==> rule.emissions@[j] is Metadata,
        decreases rule.emissions@.len() - k,
    {
        match &rule.emissions[k] {
            ItemEmission::Metadata { .. } => {},
            _ => {
                return false;
            },
        }
        k = k + 1;
    }
    true
}

fn invalid(rule: &ItemLineRule, violation: ItemLineViolation) -> (r: ItemLineError)
    ensures
        r matches ItemLineError::Invalid { rule: id, violation: v } && id@ == rule.id@ && v
            == violation,
{
    ItemLineError::Invalid { rule: crate::text::copy_bytes(rule.id.as_slice()), violation }
}

/// Check the capture declarations of one rule, charging codec token text.
fn check_captures(rule: &ItemLineRule, namespace: &Vec<u8>, text: &mut usize) -> (r: Result<(), ItemLineError>)
    ensures
        r is Ok <==> {
            &&& forall|a: int, b: int|
                0 <= a < b < rule.captures.len() ==> rule.captures@[a].id@ != rule.captures@[b].id@
            &&& forall|k: int|
                0 <= k < rule.captures.len() ==> capture_ok(rule.captures@[k], namespace@, metadata_only(*rule))
            &&& seq_sum(rule.captures@.map_values(|c: ItemCapture| capture_text(c))) <= *old(text)
        },
        r is Ok ==> *final(text) == *old(text) - seq_sum(
            rule.captures@.map_values(|c: ItemCapture| capture_text(c)),
        ),
        r matches Err(e) ==> e == ItemLineError::Limit(ItemLineBudget::PolicyTextBytes) || (e matches ItemLineError::Invalid {
            violation,
            ..
        } && violation != ItemLineViolation::DuplicateRuleId),
{
    let metadata = metadata_only_exec(rule);
    let ghost ct = rule.captures@.map_values(|c: ItemCapture| capture_text(c));
    let ghost start = *text as nat;
    let mut c: usize = 0;
    while c < rule.captures.len()
        invariant
            ct == rule.captures@.map_values(|c: ItemCapture| capture_text(c)),
            metadata == metadata_only(*rule),
            start == *old(text),
            c <= rule.captures@.len(),
            forall|a: int, b: int|
                0 <= a < b < c ==> rule.captures@[a].id@ != rule.captures@[b].id@,
            forall|k: int| 0 <= k < c ==> capture_ok(rule.captures@[k], namespace@, metadata),
            seq_sum(ct.take(c as int)) <= start,
            *text == start - seq_sum(ct.take(c as int)),
        decreases rule.captures@.len() - c,
    {
        proof {
            lemma_seq_sum_take(ct, c as int);
            lemma_seq_sum_monotone(ct, c as int + 1, ct.len() as int);
            assert(ct.take(ct.len() as int) =~= ct);
        }
        let capture = &rule.captures[c];
        let mut a: usize = 0;
        while a < c
            invariant
                a <= c < rule.captures@.len(),
                capture == &rule.captures@[c as int],
                forall|x: int| 0 <= x < a ==> rule.captures@[x].id@ != capture.id@,
            decreases c - a,
        {
            if bytes_eq(rule.captures[a].id.as_slice(), capture.id.as_slice()) {
                return Err(invalid(rule, ItemLineViolation::DuplicateCaptureId));
            }
            a = a + 1;
        }
        match &capture.codec {
            ItemCaptureCodec::OpaqueText => {
                if !metadata {
                    return Err(invalid(rule, ItemLineViolation::OpaqueCaptureNeedsMetadata));
                }
            },
            ItemCaptureCodec::Value(codec) => {
                if !bytes_eq(codec.namespace.as_slice(), namespace.as_slice()) {
                    return Err(invalid(rule, ItemLineViolation::ForeignCodecNamespace));
                }
                match &codec.codec {
                    ValueCodecKind::Boolean { tokens } => {
                        if !boolean_tokens_distinct_exec(tokens) {
                            return Err(invalid(rule, ItemLineViolation::DuplicateCodecToken));
                        }
                        if boolean_tokens_check(tokens, text).is_err() {
                            return Err(ItemLineError::Limit(ItemLineBudget::PolicyTextBytes));
                        }
                    },
                    ValueCodecKind::Option { tokens } => {
                        if !option_tokens_distinct_exec(tokens) {
                            return Err(invalid(rule, ItemLineViolation::DuplicateCodecToken));
                        }
                        if option_tokens_check(tokens, text).is_err() {
                            return Err(ItemLineError::Limit(ItemLineBudget::PolicyTextBytes));
                        }
                    },
                    ValueCodecKind::Integer => {},
                }
            },
        }
        c = c + 1;
    }
    assert(ct.take(ct.len() as int) =~= ct);
    Ok(())
}


fn declares_exec(rule: &ItemLineRule, id: &Vec<u8>) -> (r: bool)
    ensures
        r == declares(*rule, id@),
{
    let mut k: usize = 0;
    while k < rule.captures.len()
        invariant
            k <= rule.captures@.len(),
            forall|j: int| 0 <= j < k ==> rule.captures@[j].id@ != id@,
        decreases rule.captures@.len() - k,
    {
        if bytes_eq(rule.captures[k].id.as_slice(), id.as_slice()) {
            return true;
        }
        k = k + 1;
    }
    false
}

fn part_id(p: &ItemPatternPart) -> (r: Option<&Vec<u8>>)
    ensures
        match r {
            Some(id) => part_capture_id(p@) == Some(id@),
            None => part_capture_id(p@) is None,
        },
{
    match p {
        ItemPatternPart::Literal(_) => None,
        ItemPatternPart::Capture(id) => Some(id),
        ItemPatternPart::NumericCapture { capture, .. } => Some(capture),
    }
}

/// Check the pattern of one rule, charging its literal text.
fn check_pattern(rule: &ItemLineRule, text: &mut usize) -> (r: Result<(), ItemLineError>)
    ensures
        r is Ok <==> {
            &&& forall|i: int| 0 <= i < rule.pattern.len() ==> part_ok(*rule, i)
            &&& seq_sum(rule.pattern@.map_values(|p: ItemPatternPart| part_text(p))) <= *old(text)
            &&& capture_parts(*rule, rule.pattern.len() as int) == rule.captures.len()
        },
        r is Ok ==> *final(text) == *old(text) - seq_sum(
            rule.pattern@.map_values(|p: ItemPatternPart| part_text(p)),
        ),
        r matches Err(e) ==> e == ItemLineError::Limit(ItemLineBudget::PolicyTextBytes) || (e matches ItemLineError::Invalid {
            violation,
            ..
        } && violation != ItemLineViolation::DuplicateRuleId),
{
    let ghost pt = rule.pattern@.map_values(|p: ItemPatternPart| part_text(p));
    let ghost start = *text as nat;
    let mut used: usize = 0;
    let mut was_capture = false;
    let mut i: usize = 0;
    while i < rule.pattern.len()
        invariant
            pt == rule.pattern@.map_values(|p: ItemPatternPart| part_text(p)),
            start == *old(text),
            i <= rule.pattern@.len(),
            forall|j: int| 0 <= j < i ==> part_ok(*rule, j),
            seq_sum(pt.take(i as int)) <= start,
            *text == start - seq_sum(pt.take(i as int)),
            used == capture_parts(*rule, i as int),
            used <= i,
            was_capture == (i > 0 && part_capture_id(rule.pattern@[i - 1]@) is Some),
        decreases rule.pattern@.len() - i,
    {
        proof {
            lemma_seq_sum_take(pt, i as int);
            lemma_seq_sum_monotone(pt, i as int + 1, pt.len() as int);
            assert(pt.take(pt.len() as int) =~= pt);
        }
        let part = &rule.pattern[i];
        match part_id(part) {
            None => {
                let ItemPatternPart::Literal(value) = part else {
                    return Err(invalid(rule, ItemLineViolation::InvalidLiteral));
                };
                if value.len() > *text {
                    return Err(ItemLineError::Limit(ItemLineBudget::PolicyTextBytes));
                }
                *text = *text - value.len();
                if contains_byte_exec(value.as_slice(), 0x0Au8) || contains_byte_exec(value.as_slice(), 0x0Du8)
                    || (value.len() == 0 && rule.pattern.len() != 1) {
                    assert(!part_ok(*rule, i as int));
                    return Err(invalid(rule, ItemLineViolation::InvalidLiteral));
                }
                was_capture = false;
            },
            Some(id) => {
                if was_capture || !declares_exec(rule, id) {
                    assert(!part_ok(*rule, i as int));
                    return Err(invalid(rule, ItemLineViolation::CaptureNotSeparated));
                }
                let mut j: usize = 0;
                while j < i
                    invariant
                        j <= i < rule.pattern@.len(),
                        part_capture_id(rule.pattern@[i as int]@) == Some(id@),
                        forall|x: int| 0 <= x < j ==> part_capture_id(rule.pattern@[x]@) != Some(id@),
                    decreases i - j,
                {
                    if let Some(other) = part_id(&rule.pattern[j]) {
                        if bytes_eq(other.as_slice(), id.as_slice()) {
                            assert(part_capture_id(rule.pattern@[j as int]@) == Some(id@));
                            assert(!part_ok(*rule, i as int));
                            return Err(invalid(rule, ItemLineViolation::CaptureNotSeparated));
                        }
                    }
                    j = j + 1;
                }
                used = used + 1;
                was_capture = true;
            },
        }
        i = i + 1;
    }
    assert(pt.take(pt.len() as int) =~= pt);
    if used != rule.captures.len() {
        return Err(invalid(rule, ItemLineViolation::UnusedCapture));
    }
    Ok(())
}


fn charge_rolls(rule: &ItemLineRule, rolls: &mut usize) -> (r: Result<(), ItemLineError>)
    ensures
        r is Ok <==> rule_rolls(*rule) <= *old(rolls),
        r is Ok ==> *final(rolls) == *old(rolls) - rule_rolls(*rule),
        r is Err ==> r == Err::<(), ItemLineError>(ItemLineError::Limit(ItemLineBudget::Rolls)),
{
    let ghost er = rule.emissions@.map_values(|e: ItemEmission| emission_rolls(e));
    let ghost start = *rolls as nat;
    let mut k: usize = 0;
    while k < rule.emissions.len()
        invariant
            er == rule.emissions@.map_values(|e: ItemEmission| emission_rolls(e)),
            start == *old(rolls),
            k <= rule.emissions@.len(),
            seq_sum(er.take(k as int)) <= start,
            *rolls == start - seq_sum(er.take(k as int)),
        decreases rule.emissions@.len() - k,
    {
        proof {
            lemma_seq_sum_take(er, k as int);
            lemma_seq_sum_monotone(er, k as int + 1, er.len() as int);
            assert(er.take(er.len() as int) =~= er);
        }
        if let ItemEmission::Modifier { rolls: values, .. } = &rule.emissions[k] {
            if values.len() > *rolls {
                return Err(ItemLineError::Limit(ItemLineBudget::Rolls));
            }
            *rolls = *rolls - values.len();
        }
        k = k + 1;
    }
    assert(er.take(er.len() as int) =~= er);
    Ok(())
}

proof fn lemma_total_step(s: Seq<nat>, k: int, limit: nat)
    requires
        0 <= k < s.len(),
        seq_sum(s.take(k)) + s[k] > limit,
    ensures
        seq_sum(s) > limit,
{
    lemma_seq_sum_take(s, k);
    lemma_seq_sum_monotone(s, k + 1, s.len() as int);
    assert(s.take(s.len() as int) =~= s);
}

/// Check the structure of a policy under `limits` before any schema lookup.
pub fn validate_shape(input: &ItemLinePolicyInput, limits: ItemLineLimits) -> (r: Result<(), ItemLineError>)
    ensures
        r is Ok <==> shape_valid(*input, limits),
        limits_valid(limits) && input.schema_version != OWNED_ITEM_LINE_POLICY_VERSION ==> (r matches Err(
            ItemLineError::UnsupportedVersion(v)) && v == input.schema_version),
        !limits_valid(limits) ==> r == Err::<(), ItemLineError>(ItemLineError::Limit(ItemLineBudget::Limits)),
        limits_valid(limits) && input.schema_version == OWNED_ITEM_LINE_POLICY_VERSION && input.rules@.len()
            > limits.max_rules ==> r == Err::<(), ItemLineError>(ItemLineError::Limit(ItemLineBudget::Rules)),
        r matches Err(ItemLineError::Limit(ItemLineBudget::Parts)) ==> total_parts(input.rules@) > limits.max_parts,
        r matches Err(ItemLineError::Limit(ItemLineBudget::Captures)) ==> total_captures(input.rules@)
            > limits.max_captures,
        r matches Err(ItemLineError::Limit(ItemLineBudget::Emissions)) ==> total_emissions(input.rules@)
            > limits.max_emissions,
        r matches Err(ItemLineError::Invalid { violation: ItemLineViolation::DuplicateRuleId, .. })
            ==> !rule_ids_distinct(input.rules@),
{
    limits.validate()?;
    if input.schema_version != OWNED_ITEM_LINE_POLICY_VERSION {
        return Err(ItemLineError::UnsupportedVersion(input.schema_version));
    }
    if input.rules.len() > limits.max_rules {
        return Err(ItemLineError::Limit(ItemLineBudget::Rules));
    }
    let ghost rs = input.rules@;
    let ghost pm = rs.map_values(|r: ItemLineRule| r.pattern@.len());
    let ghost cm = rs.map_values(|r: ItemLineRule| r.captures@.len());
    let ghost em = rs.map_values(|r: ItemLineRule| r.emissions@.len());
    let ghost rm = rs.map_values(|r: ItemLineRule| rule_rolls(r));
    let ghost tm = rs.map_values(|r: ItemLineRule| rule_text(r));
    let mut parts = limits.max_parts;
    let mut captures = limits.max_captures;
    let mut emissions = limits.max_emissions;
    let mut rolls = limits.max_rolls;
    let mut text = limits.max_policy_text_bytes;
    let mut k: usize = 0;
    while k < input.rules.len()
        invariant
            input.schema_version == OWNED_ITEM_LINE_POLICY_VERSION,
            rs == input.rules@,
            pm == rs.map_values(|r: ItemLineRule| r.pattern@.len()),
            cm == rs.map_values(|r: ItemLineRule| r.captures@.len()),
            em == rs.map_values(|r: ItemLineRule| r.emissions@.len()),
            rm == rs.map_values(|r: ItemLineRule| rule_rolls(r)),
            tm == rs.map_values(|r: ItemLineRule| rule_text(r)),
            limits_valid(limits),
            input.schema_version == OWNED_ITEM_LINE_POLICY_VERSION,
            input.rules.len() <= limits.max_rules,
            k <= rs.len(),
            forall|a: int, b: int| 0 <= a < b < k ==> rs[a].id@ != rs[b].id@,
            forall|j: int| 0 <= j < k ==> rule_ok(rs[j], input.namespace@),
            seq_sum(pm.take(k as int)) <= limits.max_parts,
            parts == limits.max_parts - seq_sum(pm.take(k as int)),
            seq_sum(cm.take(k as int)) <= limits.max_captures,
            captures == limits.max_captures - seq_sum(cm.take(k as int)),
            seq_sum(em.take(k as int)) <= limits.max_emissions,
            emissions == limits.max_emissions - seq_sum(em.take(k as int)),
            seq_sum(rm.take(k as int)) <= limits.max_rolls,
            rolls == limits.max_rolls - seq_sum(rm.take(k as int)),
            seq_sum(tm.take(k as int)) <= limits.max_policy_text_bytes,
            text == limits.max_policy_text_bytes - seq_sum(tm.take(k as int)),
        decreases rs.len() - k,
    {
        let rule = &input.rules[k];
        proof {
            lemma_seq_sum_take(pm, k as int);
            lemma_seq_sum_take(cm, k as int);
            lemma_seq_sum_take(em, k as int);
            lemma_seq_sum_take(rm, k as int);
            lemma_seq_sum_take(tm, k as int);
        }
        let mut j: usize = 0;
        while j < k
            invariant
            input.schema_version == OWNED_ITEM_LINE_POLICY_VERSION,
                limits_valid(limits),
                input.rules.len() <= limits.max_rules,
                j <= k < rs.len(),
                rs == input.rules@,
                rule == &rs[k as int],
                forall|x: int| 0 <= x < j ==> rs[x].id@ != rule.id@,
            decreases k - j,
        {
            if bytes_eq(input.rules[j].id.as_slice(), rule.id.as_slice()) {
                assert(!rule_ids_distinct(rs));
                return Err(invalid(rule, ItemLineViolation::DuplicateRuleId));
            }
            j = j + 1;
        }
        if charge(&mut parts, rule.pattern.len(), ItemLineBudget::Parts).is_err() {
            proof { lemma_total_step(pm, k as int, limits.max_parts as nat); }
            return Err(ItemLineError::Limit(ItemLineBudget::Parts));
        }
        if charge(&mut captures, rule.captures.len(), ItemLineBudget::Captures).is_err() {
            proof { lemma_total_step(cm, k as int, limits.max_captures as nat); }
            return Err(ItemLineError::Limit(ItemLineBudget::Captures));
        }
        if charge(&mut emissions, rule.emissions.len(), ItemLineBudget::Emissions).is_err() {
            proof { lemma_total_step(em, k as int, limits.max_emissions as nat); }
            return Err(ItemLineError::Limit(ItemLineBudget::Emissions));
        }
        if rule.pattern.len() == 0 {
            assert(!rule_ok(rs[k as int], input.namespace@));
            return Err(invalid(rule, ItemLineViolation::EmptyPattern));
        }
        let ghost text_before = text as nat;
        match check_captures(rule, &input.namespace, &mut text) {
            Ok(()) => {},
            Err(e) => {
                proof {
                    if rule_ok(rs[k as int], input.namespace@) {
                        lemma_total_step(tm, k as int, limits.max_policy_text_bytes as nat);
                    }
                }
                return Err(e);
            },
        }
        let ghost text_mid = text as nat;
        match check_pattern(rule, &mut text) {
            Ok(()) => {},
            Err(e) => {
                proof {
                    if rule_ok(rs[k as int], input.namespace@) {
                        lemma_total_step(tm, k as int, limits.max_policy_text_bytes as nat);
                    }
                }
                return Err(e);
            },
        }
        match charge_rolls(rule, &mut rolls) {
            Ok(()) => {},
            Err(e) => {
                proof { lemma_total_step(rm, k as int, limits.max_rolls as nat); }
                return Err(e);
            },
        }
        assert(rule_ok(rs[k as int], input.namespace@));
        k = k + 1;
    }
    assert(pm.take(rs.len() as int) =~= pm);
    assert(cm.take(rs.len() as int) =~= cm);
    assert(em.take(rs.len() as int) =~= em);
    assert(rm.take(rs.len() as int) =~= rm);
    assert(tm.take(rs.len() as int) =~= tm);
    Ok(())
}


/// A declared set of definition keys; an incomplete set proves no absence.
#[derive(Debug)]
pub struct KeySet {
    pub members: Vec<Vec<u8>>,
    pub complete: bool,
}

/// A declared set of parameter slots; an incomplete set proves no absence.
#[derive(Debug)]
pub struct SlotSet {
    pub members: Vec<DeclaredSlot>,
    pub complete: bool,
}

#[derive(Clone, Copy, Debug)]
pub struct IntegerRange {
    pub minimum: i64,
    pub maximum: i64,
}

/// The admitted values of a parameter input.
#[derive(Debug)]
pub enum ValueSchema {
    Boolean,
    Integer(IntegerRange),
    Option { allowed: KeySet },
}

#[derive(Clone, Copy, Debug, PartialEq, Eq, Structural)]
pub enum ParameterSite {
    ItemParameter,
    ModifierRoll,
}

#[derive(Clone, Copy, Debug, PartialEq, Eq, Structural)]
pub enum SlotPresence {
    RequiredOnce,
    OptionalOnce,
}

#[derive(Debug)]
pub struct ParameterSlotSchema {
    pub sites: Vec<ParameterSite>,
    pub presence: SlotPresence,
    pub value: ValueSchema,
}

#[derive(Debug)]
pub struct ItemTemplateSchema {
    pub item_level: IntegerRange,
    pub modifiers: KeySet,
    pub parameters: SlotSet,
}

#[derive(Debug)]
pub struct ModifierSchema {
    pub parameters: SlotSet,
}

/// A definition or slot known to the schema: described, or identity only.
#[derive(Debug)]
pub enum SchemaEntry<T> {
    Known(T),
    Unmapped,
}

#[derive(Debug)]
pub struct TemplateEntry {
    pub id: Vec<u8>,
    pub schema: SchemaEntry<ItemTemplateSchema>,
}

#[derive(Debug)]
pub struct ModifierEntry {
    pub id: Vec<u8>,
    pub schema: SchemaEntry<ModifierSchema>,
}

#[derive(Debug)]
pub struct OptionEntry {
    pub id: Vec<u8>,
    pub known: bool,
}

#[derive(Debug)]
pub struct SlotEntry {
    pub slot: DeclaredSlot,
    pub schema: SchemaEntry<ParameterSlotSchema>,
}

/// What the line checker reads of the owned definition schema.
#[derive(Debug)]
pub struct ItemLineSchema {
    pub namespace: Vec<u8>,
    pub identity: Vec<u8>,
    pub templates: Vec<TemplateEntry>,
    pub modifiers: Vec<ModifierEntry>,
    pub options: Vec<OptionEntry>,
    pub slots: Vec<SlotEntry>,
}

/// Computed type of an emitted value.
#[derive(Clone, Copy, Debug, PartialEq, Eq, Structural)]
pub enum ComputedValueType {
    Boolean,
    Integer,
    Option,
}

pub open spec fn value_type_spec(v: ParameterValueView) -> ComputedValueType {
    match v {
        ParameterValueView::Boolean(_) => ComputedValueType::Boolean,
        ParameterValueView::Integer(_) => ComputedValueType::Integer,
        ParameterValueView::Option(_) => ComputedValueType::Option,
    }
}

pub fn value_type(v: &ParameterValue) -> (r: ComputedValueType)
    ensures
        r == value_type_spec(v@),
{
    match v {
        ParameterValue::Boolean(_) => ComputedValueType::Boolean,
        ParameterValue::Integer(_) => ComputedValueType::Integer,
        ParameterValue::Option(_) => ComputedValueType::Option,
    }
}

pub open spec fn codec_type_spec(v: ValueCodecKind) -> ComputedValueType {
    match v {
        ValueCodecKind::Boolean { .. } => ComputedValueType::Boolean,
        ValueCodecKind::Integer => ComputedValueType::Integer,
        ValueCodecKind::Option { .. } => ComputedValueType::Option,
    }
}

pub fn codec_type(v: &ValueCodecKind) -> (r: ComputedValueType)
    ensures
        r == codec_type_spec(*v),
{
    match v {
        ValueCodecKind::Boolean { .. } => ComputedValueType::Boolean,
        ValueCodecKind::Integer => ComputedValueType::Integer,
        ValueCodecKind::Option { .. } => ComputedValueType::Option,
    }
}

pub open spec fn schema_type_spec(v: ValueSchema) -> ComputedValueType {
    match v {
        ValueSchema::Boolean => ComputedValueType::Boolean,
        ValueSchema::Integer(_) => ComputedValueType::Integer,
        ValueSchema::Option { .. } => ComputedValueType::Option,
    }
}

pub fn schema_type(v: &ValueSchema) -> (r: ComputedValueType)
    ensures
        r == schema_type_spec(*v),
{
    match v {
        ValueSchema::Boolean => ComputedValueType::Boolean,
        ValueSchema::Integer(_) => ComputedValueType::Integer,
        ValueSchema::Option { .. } => ComputedValueType::Option,
    }
}

pub open spec fn key_set_contains(set: KeySet, key: Seq<u8>) -> bool {
    exists|k: int| 0 <= k < set.members.len() && set.members@[k]@ == key
}

pub fn key_set_contains_exec(set: &KeySet, key: &[u8]) -> (r: bool)
    ensures
        r == key_set_contains(*set, key@),
{
    let mut k: usize = 0;
    while k < set.members.len()
        invariant
            k <= set.members@.len(),
            forall|j: int| 0 <= j < k ==> set.members@[j]@ != key@,
        decreases set.members@.len() - k,
    {
        if bytes_eq(set.members[k].as_slice(), key) {
            return true;
        }
        k = k + 1;
    }
    false
}

pub open spec fn slot_set_contains(set: SlotSet, slot: DeclaredSlotView) -> bool {
    exists|k: int| 0 <= k < set.members.len() && set.members@[k]@ == slot
}

pub fn slot_set_contains_exec(set: &SlotSet, slot: &DeclaredSlot) -> (r: bool)
    ensures
        r == slot_set_contains(*set, slot@),
{
    let mut k: usize = 0;
    while k < set.members.len()
        invariant
            k <= set.members@.len(),
            forall|j: int| 0 <= j < k ==> set.members@[j]@ != slot@,
        decreases set.members@.len() - k,
    {
        if set.members[k].same(slot) {
            return true;
        }
        k = k + 1;
    }
    false
}

/// A value lies inside an input schema.
pub open spec fn value_fits_spec(v: ParameterValueView, s: ValueSchema) -> bool {
    match (v, s) {
        (ParameterValueView::Boolean(_), ValueSchema::Boolean) => true,
        (ParameterValueView::Integer(i), ValueSchema::Integer(r)) => r.minimum <= i <= r.maximum,
        (ParameterValueView::Option(o), ValueSchema::Option { allowed }) => key_set_contains(allowed, o),
        _ => false,
    }
}

pub fn value_fits(v: &ParameterValue, s: &ValueSchema) -> (r: bool)
    ensures
        r == value_fits_spec(v@, *s),
{
    match (v, s) {
        (ParameterValue::Boolean(_), ValueSchema::Boolean) => true,
        (ParameterValue::Integer(i), ValueSchema::Integer(range)) => *i >= range.minimum && *i <= range.maximum,
        (ParameterValue::Option(o), ValueSchema::Option { allowed }) => key_set_contains_exec(allowed, o.as_slice()),
        _ => false,
    }
}


impl KeySet {
    pub fn duplicate(&self) -> (r: KeySet)
        ensures
            r.complete == self.complete,
            r.members@.len() == self.members@.len(),
            forall|k: int| 0 <= k < r.members@.len() ==> r.members@[k]@ == self.members@[k]@,
    {
        let mut members: Vec<Vec<u8>> = Vec::new();
        let mut k: usize = 0;
        while k < self.members.len()
            invariant
                k <= self.members@.len(),
                members@.len() == k,
                forall|j: int| 0 <= j < k ==> members@[j]@ == self.members@[j]@,
            decreases self.members@.len() - k,
        {
            members.push(crate::text::copy_bytes(self.members[k].as_slice()));
            k = k + 1;
        }
        KeySet { members, complete: self.complete }
    }
}

impl ValueSchema {
    pub fn duplicate(&self) -> (r: ValueSchema)
        ensures
            schema_type_spec(r) == schema_type_spec(*self),
            forall|v: ParameterValueView| value_fits_spec(v, r) == value_fits_spec(v, *self),
    {
        match self {
            ValueSchema::Boolean => ValueSchema::Boolean,
            ValueSchema::Integer(range) => ValueSchema::Integer(*range),
            ValueSchema::Option { allowed } => {
                let copy = allowed.duplicate();
                proof {
                    assert forall|v: ParameterValueView| value_fits_spec(v, ValueSchema::Option { allowed: copy }) == value_fits_spec(v, *self) by {
                        if let ParameterValueView::Option(o) = v {
                            if key_set_contains(*allowed, o) {
                                let k = choose|k: int| 0 <= k < allowed.members.len() && allowed.members@[k]@ == o;
                                assert(copy.members@[k]@ == o);
                            }
                            if key_set_contains(copy, o) {
                                let k = choose|k: int| 0 <= k < copy.members.len() && copy.members@[k]@ == o;
                                assert(allowed.members@[k]@ == o);
                            }
                        }
                    }
                }
                ValueSchema::Option { allowed: copy }
            },
        }
    }
}

fn note(pending: &mut Option<ItemLinePending>, reason: ItemLinePending)
    ensures
        (*old(pending)) is Some ==> *final(pending) == *old(pending),
        (*old(pending)) is None ==> *final(pending) == Some(reason),
{
    if pending.is_none() {
        *pending = Some(reason);
    }
}

fn schema_work(work: &mut usize, n: usize) -> (r: Result<(), ItemLineError>)
    ensures
        n <= *old(work) ==> r is Ok && *final(work) == *old(work) - n,
        n > *old(work) ==> out_of_schema_work(r) && *final(work) == *old(work),
{
    if n <= *work {
        *work = *work - n;
        Ok(())
    } else {
        Err(ItemLineError::Limit(ItemLineBudget::SchemaWork))
    }
}

/// The pending reasons of a rule, as views.
pub open spec fn pend_view(p: Option<ItemLinePending>) -> Option<ItemLinePendingView> {
    match p {
        Some(r) => Some(r@),
        None => None,
    }
}

/// Record `status` of `subject` unless a reason is already recorded; no
/// status leaves the record as it is.
pub open spec fn noted(
    p: Option<ItemLinePendingView>,
    subject: ItemSchemaSubjectView,
    status: Option<ItemSchemaUnknown>,
) -> Option<ItemLinePendingView> {
    match status {
        Some(st) => if p is Some {
            p
        } else {
            Some(ItemLinePendingView::Schema { subject, status: st })
        },
        None => p,
    }
}

/// The budget error of schema work.
pub open spec fn out_of_schema_work<T>(r: Result<T, ItemLineError>) -> bool {
    r matches Err(ItemLineError::Limit(b)) && b == ItemLineBudget::SchemaWork
}

/// `r` rejects `rule` for `violation`.
pub open spec fn rejects<T>(r: Result<T, ItemLineError>, rule: ItemLineRule, violation: ItemLineViolation) -> bool {
    r matches Err(ItemLineError::Invalid { rule: id, violation: v }) && id@ == rule.id@ && v == violation
}

/// The first template row of `id`, from `i` on.
pub open spec fn template_row(schema: ItemLineSchema, id: Seq<u8>, i: int) -> Option<int>
    decreases schema.templates@.len() - i,
{
    if i < 0 || i >= schema.templates@.len() {
        None
    } else if schema.templates@[i].id@ == id {
        Some(i)
    } else {
        template_row(schema, id, i + 1)
    }
}

pub open spec fn modifier_row(schema: ItemLineSchema, id: Seq<u8>, i: int) -> Option<int>
    decreases schema.modifiers@.len() - i,
{
    if i < 0 || i >= schema.modifiers@.len() {
        None
    } else if schema.modifiers@[i].id@ == id {
        Some(i)
    } else {
        modifier_row(schema, id, i + 1)
    }
}

pub open spec fn option_row(schema: ItemLineSchema, id: Seq<u8>, i: int) -> Option<int>
    decreases schema.options@.len() - i,
{
    if i < 0 || i >= schema.options@.len() {
        None
    } else if schema.options@[i].id@ == id {
        Some(i)
    } else {
        option_row(schema, id, i + 1)
    }
}

pub open spec fn slot_row(schema: ItemLineSchema, slot: DeclaredSlotView, i: int) -> Option<int>
    decreases schema.slots@.len() - i,
{
    if i < 0 || i >= schema.slots@.len() {
        None
    } else if schema.slots@[i].slot@ == slot {
        Some(i)
    } else {
        slot_row(schema, slot, i + 1)
    }
}

/// The described schema of a template, if the schema describes it.
pub open spec fn template_known(schema: ItemLineSchema, id: Seq<u8>) -> Option<ItemTemplateSchema> {
    match template_row(schema, id, 0) {
        Some(i) => match schema.templates@[i].schema {
            SchemaEntry::Known(t) => Some(t),
            SchemaEntry::Unmapped => None,
        },
        None => None,
    }
}

/// Why a template's schema is unavailable, if it is.
pub open spec fn template_unknown(schema: ItemLineSchema, id: Seq<u8>) -> Option<ItemSchemaUnknown> {
    match template_row(schema, id, 0) {
        Some(i) => match schema.templates@[i].schema {
            SchemaEntry::Known(_) => None,
            SchemaEntry::Unmapped => Some(ItemSchemaUnknown::Unmapped),
        },
        None => Some(ItemSchemaUnknown::Missing),
    }
}

pub open spec fn modifier_known(schema: ItemLineSchema, id: Seq<u8>) -> Option<ModifierSchema> {
    match modifier_row(schema, id, 0) {
        Some(i) => match schema.modifiers@[i].schema {
            SchemaEntry::Known(t) => Some(t),
            SchemaEntry::Unmapped => None,
        },
        None => None,
    }
}

pub open spec fn modifier_unknown(schema: ItemLineSchema, id: Seq<u8>) -> Option<ItemSchemaUnknown> {
    match modifier_row(schema, id, 0) {
        Some(i) => match schema.modifiers@[i].schema {
            SchemaEntry::Known(_) => None,
            SchemaEntry::Unmapped => Some(ItemSchemaUnknown::Unmapped),
        },
        None => Some(ItemSchemaUnknown::Missing),
    }
}

pub open spec fn option_unknown(schema: ItemLineSchema, id: Seq<u8>) -> Option<ItemSchemaUnknown> {
    match option_row(schema, id, 0) {
        Some(i) => if schema.options@[i].known {
            None
        } else {
            Some(ItemSchemaUnknown::Unmapped)
        },
        None => Some(ItemSchemaUnknown::Missing),
    }
}

pub open spec fn slot_known(schema: ItemLineSchema, slot: DeclaredSlotView) -> Option<ParameterSlotSchema> {
    match slot_row(schema, slot, 0) {
        Some(i) => match schema.slots@[i].schema {
            SchemaEntry::Known(t) => Some(t),
            SchemaEntry::Unmapped => None,
        },
        None => None,
    }
}

pub open spec fn slot_unknown(schema: ItemLineSchema, slot: DeclaredSlotView) -> Option<ItemSchemaUnknown> {
    match slot_row(schema, slot, 0) {
        Some(i) => match schema.slots@[i].schema {
            SchemaEntry::Known(_) => None,
            SchemaEntry::Unmapped => Some(ItemSchemaUnknown::Unmapped),
        },
        None => Some(ItemSchemaUnknown::Missing),
    }
}

/// The first capture of `rule` named `id`, from `i` on.
pub open spec fn capture_at(rule: ItemLineRule, id: Seq<u8>, i: int) -> Option<int>
    decreases rule.captures@.len() - i,
{
    if i < 0 || i >= rule.captures@.len() {
        None
    } else if rule.captures@[i].id@ == id {
        Some(i)
    } else {
        capture_at(rule, id, i + 1)
    }
}

/// The value type a declared value capture decodes to; none for an opaque or
/// undeclared capture.
pub open spec fn capture_value_type(rule: ItemLineRule, id: Seq<u8>) -> Option<ComputedValueType> {
    match capture_at(rule, id, 0) {
        Some(k) => match rule.captures@[k].codec {
            ItemCaptureCodec::Value(v) => Some(codec_type_spec(v.codec)),
            ItemCaptureCodec::OpaqueText => None,
        },
        None => None,
    }
}

fn unknown(id: &Vec<u8>, status: ItemSchemaUnknown) -> (r: ItemLinePending)
    ensures
        r@ == (ItemLinePendingView::Schema { subject: ItemSchemaSubjectView::Definition(id@), status }),
{
    ItemLinePending::Schema {
        subject: ItemSchemaSubject::Definition(crate::text::copy_bytes(id.as_slice())),
        status,
    }
}

fn template_definition<'a>(
    schema: &'a ItemLineSchema,
    id: &Vec<u8>,
    work: &mut usize,
    pending: &mut Option<ItemLinePending>,
) -> (r: Result<Option<&'a ItemTemplateSchema>, ItemLineError>)
    ensures
        *old(work) < 1 ==> out_of_schema_work(r) && *final(work) == *old(work) && *final(pending) == *old(pending),
        *old(work) >= 1 ==> {
            &&& *final(work) == *old(work) - 1
            &&& pend_view(*final(pending)) == noted(
                pend_view(*old(pending)),
                ItemSchemaSubjectView::Definition(id@),
                template_unknown(*schema, id@),
            )
            &&& r matches Ok(o) && match o {
                Some(t) => template_known(*schema, id@) == Some(*t),
                None => template_known(*schema, id@) is None,
            }
        },
{
    schema_work(work, 1)?;
    let mut k: usize = 0;
    while k < schema.templates.len()
        invariant
            *work == *old(work) - 1,
            *pending == *old(pending),
            k <= schema.templates@.len(),
            template_row(*schema, id@, 0) == template_row(*schema, id@, k as int),
        decreases schema.templates@.len() - k,
    {
        let entry = &schema.templates[k];
        if bytes_eq(entry.id.as_slice(), id.as_slice()) {
            return match &entry.schema {
                SchemaEntry::Known(s) => Ok(Some(s)),
                SchemaEntry::Unmapped => {
                    note(pending, unknown(id, ItemSchemaUnknown::Unmapped));
                    Ok(None)
                },
            };
        }
        k = k + 1;
    }
    note(pending, unknown(id, ItemSchemaUnknown::Missing));
    Ok(None)
}

fn modifier_definition<'a>(
    schema: &'a ItemLineSchema,
    id: &Vec<u8>,
    work: &mut usize,
    pending: &mut Option<ItemLinePending>,
) -> (r: Result<Option<&'a ModifierSchema>, ItemLineError>)
    ensures
        *old(work) < 1 ==> out_of_schema_work(r) && *final(work) == *old(work) && *final(pending) == *old(pending),
        *old(work) >= 1 ==> {
            &&& *final(work) == *old(work) - 1
            &&& pend_view(*final(pending)) == noted(
                pend_view(*old(pending)),
                ItemSchemaSubjectView::Definition(id@),
                modifier_unknown(*schema, id@),
            )
            &&& r matches Ok(o) && match o {
                Some(t) => modifier_known(*schema, id@) == Some(*t),
                None => modifier_known(*schema, id@) is None,
            }
        },
{
    schema_work(work, 1)?;
    let mut k: usize = 0;
    while k < schema.modifiers.len()
        invariant
            *work == *old(work) - 1,
            *pending == *old(pending),
            k <= schema.modifiers@.len(),
            modifier_row(*schema, id@, 0) == modifier_row(*schema, id@, k as int),
        decreases schema.modifiers@.len() - k,
    {
        let entry = &schema.modifiers[k];
        if bytes_eq(entry.id.as_slice(), id.as_slice()) {
            return match &entry.schema {
                SchemaEntry::Known(s) => Ok(Some(s)),
                SchemaEntry::Unmapped => {
                    note(pending, unknown(id, ItemSchemaUnknown::Unmapped));
                    Ok(None)
                },
            };
        }
        k = k + 1;
    }
    note(pending, unknown(id, ItemSchemaUnknown::Missing));
    Ok(None)
}

fn option_definition(
    schema: &ItemLineSchema,
    id: &Vec<u8>,
    work: &mut usize,
    pending: &mut Option<ItemLinePending>,
) -> (r: Result<(), ItemLineError>)
    ensures
        *old(work) < 1 ==> out_of_schema_work(r) && *final(work) == *old(work) && *final(pending) == *old(pending),
        *old(work) >= 1 ==> {
            &&& r is Ok
            &&& *final(work) == *old(work) - 1
            &&& pend_view(*final(pending)) == noted(
                pend_view(*old(pending)),
                ItemSchemaSubjectView::Definition(id@),
                option_unknown(*schema, id@),
            )
        },
{
    schema_work(work, 1)?;
    let mut k: usize = 0;
    while k < schema.options.len()
        invariant
            *work == *old(work) - 1,
            *pending == *old(pending),
            k <= schema.options@.len(),
            option_row(*schema, id@, 0) == option_row(*schema, id@, k as int),
        decreases schema.options@.len() - k,
    {
        let entry = &schema.options[k];
        if bytes_eq(entry.id.as_slice(), id.as_slice()) {
            if !entry.known {
                note(pending, unknown(id, ItemSchemaUnknown::Unmapped));
            }
            return Ok(());
        }
        k = k + 1;
    }
    note(pending, unknown(id, ItemSchemaUnknown::Missing));
    Ok(())
}

fn slot_schema<'a>(
    schema: &'a ItemLineSchema,
    slot: &DeclaredSlot,
    work: &mut usize,
    pending: &mut Option<ItemLinePending>,
) -> (r: Result<Option<&'a ParameterSlotSchema>, ItemLineError>)
    ensures
        *old(work) < 1 ==> out_of_schema_work(r) && *final(work) == *old(work) && *final(pending) == *old(pending),
        *old(work) >= 1 ==> {
            &&& *final(work) == *old(work) - 1
            &&& pend_view(*final(pending)) == noted(
                pend_view(*old(pending)),
                ItemSchemaSubjectView::Slot(slot@),
                slot_unknown(*schema, slot@),
            )
            &&& r matches Ok(o) && match o {
                Some(t) => slot_known(*schema, slot@) == Some(*t),
                None => slot_known(*schema, slot@) is None,
            }
        },
{
    schema_work(work, 1)?;
    let mut k: usize = 0;
    while k < schema.slots.len()
        invariant
            *work == *old(work) - 1,
            *pending == *old(pending),
            k <= schema.slots@.len(),
            slot_row(*schema, slot@, 0) == slot_row(*schema, slot@, k as int),
        decreases schema.slots@.len() - k,
    {
        let entry = &schema.slots[k];
        if entry.slot.same(slot) {
            return match &entry.schema {
                SchemaEntry::Known(s) => Ok(Some(s)),
                SchemaEntry::Unmapped => {
                    note(pending, ItemLinePending::Schema {
                        subject: ItemSchemaSubject::Slot(slot.duplicate()),
                        status: ItemSchemaUnknown::Unmapped,
                    });
                    Ok(None)
                },
            };
        }
        k = k + 1;
    }
    note(pending, ItemLinePending::Schema {
        subject: ItemSchemaSubject::Slot(slot.duplicate()),
        status: ItemSchemaUnknown::Missing,
    });
    Ok(None)
}

fn key_member(
    set: &KeySet,
    value: &Vec<u8>,
    subject: &ItemSchemaSubject,
    rule: &ItemLineRule,
    work: &mut usize,
    pending: &mut Option<ItemLinePending>,
) -> (r: Result<(), ItemLineError>)
    ensures
        *old(work) < set.members@.len() ==> out_of_schema_work(r) && *final(work) == *old(work) && *final(pending)
            == *old(pending),
        *old(work) >= set.members@.len() ==> {
            &&& *final(work) == *old(work) - set.members@.len()
            &&& key_set_contains(*set, value@) ==> r is Ok && *final(pending) == *old(pending)
            &&& !key_set_contains(*set, value@) && set.complete ==> rejects(
                r,
                *rule,
                ItemLineViolation::MemberOutsideCompleteSet,
            ) && *final(pending) == *old(pending)
            &&& !key_set_contains(*set, value@) && !set.complete ==> r is Ok && pend_view(*final(pending)) == noted(
                pend_view(*old(pending)),
                subject@,
                Some(ItemSchemaUnknown::Partial),
            )
        },
{
    schema_work(work, set.members.len())?;
    if !key_set_contains_exec(set, value.as_slice()) {
        if set.complete {
            return Err(invalid(rule, ItemLineViolation::MemberOutsideCompleteSet));
        }
        note(pending, ItemLinePending::Schema { subject: subject.duplicate(), status: ItemSchemaUnknown::Partial });
    }
    Ok(())
}

fn slot_member(
    set: &SlotSet,
    slot: &DeclaredSlot,
    rule: &ItemLineRule,
    work: &mut usize,
    pending: &mut Option<ItemLinePending>,
) -> (r: Result<(), ItemLineError>)
    ensures
        *old(work) < set.members@.len() ==> out_of_schema_work(r) && *final(work) == *old(work) && *final(pending)
            == *old(pending),
        *old(work) >= set.members@.len() ==> {
            &&& *final(work) == *old(work) - set.members@.len()
            &&& slot_set_contains(*set, slot@) ==> r is Ok && *final(pending) == *old(pending)
            &&& !slot_set_contains(*set, slot@) && set.complete ==> rejects(
                r,
                *rule,
                ItemLineViolation::MemberOutsideCompleteSet,
            ) && *final(pending) == *old(pending)
            &&& !slot_set_contains(*set, slot@) && !set.complete ==> r is Ok && pend_view(*final(pending)) == noted(
                pend_view(*old(pending)),
                ItemSchemaSubjectView::Slot(slot@),
                Some(ItemSchemaUnknown::Partial),
            )
        },
{
    schema_work(work, set.members.len())?;
    if !slot_set_contains_exec(set, slot) {
        if set.complete {
            return Err(invalid(rule, ItemLineViolation::MemberOutsideCompleteSet));
        }
        note(pending, ItemLinePending::Schema {
            subject: ItemSchemaSubject::Slot(slot.duplicate()),
            status: ItemSchemaUnknown::Partial,
        });
    }
    Ok(())
}

fn find_capture<'a>(rule: &'a ItemLineRule, id: &Vec<u8>) -> (r: Option<&'a ItemCapture>)
    ensures
        match r {
            Some(c) => capture_at(*rule, id@, 0) matches Some(k) && rule.captures@[k] == *c,
            None => capture_at(*rule, id@, 0) is None,
        },
        r matches Some(c) ==> c.id@ == id@ && exists|k: int| 0 <= k < rule.captures.len() && rule.captures@[k] == *c,
{
    let mut k: usize = 0;
    while k < rule.captures.len()
        invariant
            k <= rule.captures@.len(),
            capture_at(*rule, id@, 0) == capture_at(*rule, id@, k as int),
        decreases rule.captures@.len() - k,
    {
        if bytes_eq(rule.captures[k].id.as_slice(), id.as_slice()) {
            return Some(&rule.captures[k]);
        }
        k = k + 1;
    }
    None
}

fn capture_type(rule: &ItemLineRule, id: &Vec<u8>, work: &mut usize) -> (r: Result<ComputedValueType, ItemLineError>)
    ensures
        *old(work) < rule.captures@.len() ==> out_of_schema_work(r) && *final(work) == *old(work),
        *old(work) >= rule.captures@.len() ==> {
            &&& *final(work) == *old(work) - rule.captures@.len()
            &&& match capture_value_type(*rule, id@) {
                Some(t) => r == Ok::<ComputedValueType, ItemLineError>(t),
                None => rejects(r, *rule, ItemLineViolation::ValueNotDeclaredCapture),
            }
        },
{
    schema_work(work, rule.captures.len())?;
    match find_capture(rule, id) {
        Some(ItemCapture { codec: ItemCaptureCodec::Value(v), .. }) => Ok(codec_type(&v.codec)),
        _ => Err(invalid(rule, ItemLineViolation::ValueNotDeclaredCapture)),
    }
}

/// The schema work a value plan's shape check is charged.
pub open spec fn shape_cost(rule: ItemLineRule, value: ItemLineValue) -> int {
    match value {
        ItemLineValue::Literal(ParameterValue::Option(_)) => 1,
        ItemLineValue::Capture(_) => rule.captures@.len() as int,
        ItemLineValue::NumericLexicalProperty { .. } => rule.captures@.len() as int,
        _ => 0,
    }
}

/// The type a value plan computes; none where it reads an undeclared or
/// opaque capture.
pub open spec fn shape_type(rule: ItemLineRule, value: ItemLineValue) -> Option<ComputedValueType> {
    match value {
        ItemLineValue::Literal(v) => Some(value_type_spec(v@)),
        ItemLineValue::Capture(id) => capture_value_type(rule, id@),
        ItemLineValue::Property { .. } => Some(ComputedValueType::Boolean),
        ItemLineValue::NumericLexicalProperty { capture, .. } => if capture_at(rule, capture@, 0) is Some {
            Some(ComputedValueType::Boolean)
        } else {
            None
        },
    }
}

/// A literal option is looked up in the schema, which may leave the rule pending.
pub open spec fn shape_pending(
    schema: ItemLineSchema,
    value: ItemLineValue,
    p: Option<ItemLinePendingView>,
) -> Option<ItemLinePendingView> {
    match value {
        ItemLineValue::Literal(ParameterValue::Option(o)) => noted(
            p,
            ItemSchemaSubjectView::Definition(o@),
            option_unknown(schema, o@),
        ),
        _ => p,
    }
}

fn shape(
    schema: &ItemLineSchema,
    rule: &ItemLineRule,
    value: &ItemLineValue,
    work: &mut usize,
    pending: &mut Option<ItemLinePending>,
) -> (r: Result<ComputedValueType, ItemLineError>)
    ensures
        *old(work) < shape_cost(*rule, *value) ==> out_of_schema_work(r) && *final(work) == *old(work)
            && *final(pending) == *old(pending),
        *old(work) >= shape_cost(*rule, *value) ==> {
            &&& *final(work) == *old(work) - shape_cost(*rule, *value)
            &&& pend_view(*final(pending)) == shape_pending(*schema, *value, pend_view(*old(pending)))
            &&& match shape_type(*rule, *value) {
                Some(t) => r == Ok::<ComputedValueType, ItemLineError>(t),
                None => rejects(r, *rule, ItemLineViolation::ValueNotDeclaredCapture),
            }
        },
{
    match value {
        ItemLineValue::Literal(v) => {
            if let ParameterValue::Option(o) = v {
                option_definition(schema, o, work, pending)?;
            }
            Ok(value_type(v))
        },
        ItemLineValue::Capture(id) => capture_type(rule, id, work),
        ItemLineValue::Property { .. } => Ok(ComputedValueType::Boolean),
        ItemLineValue::NumericLexicalProperty { capture, .. } => {
            schema_work(work, rule.captures.len())?;
            match find_capture(rule, capture) {
                Some(_) => Ok(ComputedValueType::Boolean),
                None => Err(invalid(rule, ItemLineViolation::ValueNotDeclaredCapture)),
            }
        },
    }
}

/// The key a schema index fault names.
pub open spec fn subject_key(s: ItemSchemaSubjectView) -> Seq<u8> {
    match s {
        ItemSchemaSubjectView::Definition(k) => k,
        ItemSchemaSubjectView::Slot(slot) => slot.slot,
    }
}

/// An integer schema whose bounds are inverted is an index fault.
pub open spec fn range_faulty(value: ValueSchema) -> bool {
    value matches ValueSchema::Integer(range) && range.minimum > range.maximum
}

/// The schema work checking an input schema is charged: each option of an
/// option set is counted and then looked up.
pub open spec fn check_cost(value: ValueSchema) -> int {
    match value {
        ValueSchema::Option { allowed } => 2 * allowed.members@.len() as int,
        _ => 0,
    }
}

/// Looking up `ids` in turn, the first unavailable option leaves the rule pending.
pub open spec fn options_pending(
    schema: ItemLineSchema,
    p: Option<ItemLinePendingView>,
    ids: Seq<Vec<u8>>,
) -> Option<ItemLinePendingView>
    decreases ids.len(),
{
    if ids.len() == 0 {
        p
    } else {
        noted(
            options_pending(schema, p, ids.drop_last()),
            ItemSchemaSubjectView::Definition(ids.last()@),
            option_unknown(schema, ids.last()@),
        )
    }
}

pub open spec fn check_pending(
    schema: ItemLineSchema,
    value: ValueSchema,
    p: Option<ItemLinePendingView>,
) -> Option<ItemLinePendingView> {
    match value {
        ValueSchema::Option { allowed } => options_pending(schema, p, allowed.members@),
        _ => p,
    }
}

pub open spec fn is_fault<T>(r: Result<T, ItemLineError>, subject: ItemSchemaSubjectView) -> bool {
    r matches Err(ItemLineError::IndexFault { subject: k }) && k@ == subject_key(subject)
}

fn check_schema(
    schema: &ItemLineSchema,
    value: &ValueSchema,
    subject: &ItemSchemaSubject,
    work: &mut usize,
    pending: &mut Option<ItemLinePending>,
) -> (r: Result<(), ItemLineError>)
    ensures
        range_faulty(*value) ==> is_fault(r, subject@) && *final(work) == *old(work) && *final(pending)
            == *old(pending),
        !range_faulty(*value) && *old(work) < check_cost(*value) ==> out_of_schema_work(r),
        !range_faulty(*value) && *old(work) >= check_cost(*value) ==> {
            &&& r is Ok
            &&& *final(work) == *old(work) - check_cost(*value)
            &&& pend_view(*final(pending)) == check_pending(*schema, *value, pend_view(*old(pending)))
        },
        *final(work) <= *old(work),
{
    match value {
        ValueSchema::Integer(range) => {
            if range.minimum > range.maximum {
                return Err(fault(subject));
            }
        },
        ValueSchema::Option { allowed } => {
            schema_work(work, allowed.members.len())?;
            let ghost ids = allowed.members@;
            proof {
                assert(ids.take(0) =~= Seq::<Vec<u8>>::empty());
            }
            let mut k: usize = 0;
            while k < allowed.members.len()
                invariant
                    ids == allowed.members@,
                    !range_faulty(*value),
                    check_cost(*value) == 2 * ids.len(),
                    check_pending(*schema, *value, pend_view(*old(pending))) == options_pending(
                        *schema,
                        pend_view(*old(pending)),
                        ids,
                    ),
                    *old(work) >= ids.len(),
                    *work == *old(work) - ids.len() - k,
                    k <= allowed.members@.len(),
                    pend_view(*pending) == options_pending(*schema, pend_view(*old(pending)), ids.take(k as int)),
                decreases allowed.members@.len() - k,
            {
                proof {
                    assert(ids.take(k as int + 1).drop_last() =~= ids.take(k as int));
                    assert(ids.take(k as int + 1).last() == ids[k as int]);
                }
                option_definition(schema, &allowed.members[k], work, pending)?;
                k = k + 1;
            }
            proof {
                assert(ids.take(k as int) =~= ids);
            }
        },
        ValueSchema::Boolean => {},
    }
    Ok(())
}

fn fault(subject: &ItemSchemaSubject) -> (r: ItemLineError)
    ensures
        r matches ItemLineError::IndexFault { subject: k } && k@ == subject_key(subject@),
{
    match subject {
        ItemSchemaSubject::Definition(k) => ItemLineError::IndexFault { subject: crate::text::copy_bytes(k.as_slice()) },
        ItemSchemaSubject::Slot(s) => ItemLineError::IndexFault { subject: crate::text::copy_bytes(s.slot.as_slice()) },
    }
}

/// The option values a capture's declared option codec can decode to.
pub open spec fn capture_option_keys(rule: ItemLineRule, id: Seq<u8>) -> Seq<Seq<u8>> {
    match capture_at(rule, id, 0) {
        Some(k) => match rule.captures@[k].codec {
            ItemCaptureCodec::Value(v) => match v.codec {
                ValueCodecKind::Option { tokens } => tokens@.map_values(|t: OptionToken| t.value@),
                _ => Seq::empty(),
            },
            ItemCaptureCodec::OpaqueText => Seq::empty(),
        },
        None => Seq::empty(),
    }
}

/// The option values a plan can emit into an option schema.
pub open spec fn option_keys(rule: ItemLineRule, plan: ItemLineValue, value: ValueSchema) -> Seq<Seq<u8>> {
    match value {
        ValueSchema::Option { .. } => match plan {
            ItemLineValue::Literal(ParameterValue::Option(id)) => seq![id@],
            ItemLineValue::Capture(id) => capture_option_keys(rule, id@),
            _ => Seq::empty(),
        },
        _ => Seq::empty(),
    }
}

/// Each emitted option value is looked up in the allowed set.
pub open spec fn member_cost(rule: ItemLineRule, plan: ItemLineValue, value: ValueSchema) -> int {
    match value {
        ValueSchema::Option { allowed } => (option_keys(rule, plan, value).len() * allowed.members@.len()) as int,
        _ => 0,
    }
}

/// A complete allowed set admits every emitted option value.
pub open spec fn members_ok(value: ValueSchema, keys: Seq<Seq<u8>>) -> bool {
    match value {
        ValueSchema::Option { allowed } => allowed.complete ==> forall|i: int|
            0 <= i < keys.len() ==> #[trigger] key_set_contains(allowed, keys[i]),
        _ => true,
    }
}

/// A value outside an incomplete allowed set leaves the rule pending.
pub open spec fn members_pending(
    value: ValueSchema,
    keys: Seq<Seq<u8>>,
    subject: ItemSchemaSubjectView,
    p: Option<ItemLinePendingView>,
) -> Option<ItemLinePendingView> {
    match value {
        ValueSchema::Option { allowed } => if exists|i: int| 0 <= i < keys.len() && !#[trigger] key_set_contains(allowed, keys[i]) {
            noted(p, subject, Some(ItemSchemaUnknown::Partial))
        } else {
            p
        },
        _ => p,
    }
}

/// A literal lies inside a non-option schema.
pub open spec fn literal_fits(plan: ItemLineValue, value: ValueSchema) -> bool {
    match plan {
        ItemLineValue::Literal(v) => (v is Option && value is Option) || value_fits_spec(v@, value),
        _ => true,
    }
}

/// A plan may supply an input of schema `value`.
pub open spec fn constraint_ok(rule: ItemLineRule, plan: ItemLineValue, value: ValueSchema) -> bool {
    &&& shape_type(rule, plan) == Some(schema_type_spec(value))
    &&& !range_faulty(value)
    &&& literal_fits(plan, value)
    &&& members_ok(value, option_keys(rule, plan, value))
}

pub open spec fn constraint_cost(rule: ItemLineRule, plan: ItemLineValue, value: ValueSchema) -> int {
    shape_cost(rule, plan) + check_cost(value) + member_cost(rule, plan, value)
}

pub open spec fn constraint_pending(
    schema: ItemLineSchema,
    rule: ItemLineRule,
    plan: ItemLineValue,
    value: ValueSchema,
    subject: ItemSchemaSubjectView,
    p: Option<ItemLinePendingView>,
) -> Option<ItemLinePendingView> {
    members_pending(
        value,
        option_keys(rule, plan, value),
        subject,
        check_pending(schema, value, shape_pending(schema, plan, p)),
    )
}

/// A policy error other than running out of schema work: a rejected rule or
/// an index fault.
pub open spec fn checked_error<T>(r: Result<T, ItemLineError>, subject: ItemSchemaSubjectView) -> bool {
    r matches Err(ItemLineError::Invalid { .. }) || is_fault(r, subject)
}

proof fn lemma_mul_step(k: int, n: int, len: int)
    requires
        0 <= k < len,
        n >= 0,
    ensures
        (k + 1) * n == k * n + n,
        (k + 1) * n <= len * n,
        k * n >= 0,
{
    assert((k + 1) * n == k * n + n) by (nonlinear_arith);
    assert((k + 1) * n <= len * n) by (nonlinear_arith)
        requires
            k + 1 <= len,
            n >= 0,
    ;
    assert(k * n >= 0) by (nonlinear_arith)
        requires
            k >= 0,
            n >= 0,
    ;
}

fn constraint(
    schema: &ItemLineSchema,
    rule: &ItemLineRule,
    plan: &ItemLineValue,
    value: &ValueSchema,
    subject: &ItemSchemaSubject,
    work: &mut usize,
    pending: &mut Option<ItemLinePending>,
) -> (r: Result<(), ItemLineError>)
    ensures
        r is Ok <==> constraint_ok(*rule, *plan, *value) && *old(work) >= constraint_cost(*rule, *plan, *value),
        r is Ok ==> *final(work) == *old(work) - constraint_cost(*rule, *plan, *value) && pend_view(*final(pending))
            == constraint_pending(*schema, *rule, *plan, *value, subject@, pend_view(*old(pending))),
        out_of_schema_work(r) ==> *old(work) < constraint_cost(*rule, *plan, *value),
        r is Err && !out_of_schema_work(r) ==> !constraint_ok(*rule, *plan, *value) && checked_error(r, subject@),
        *final(work) <= *old(work),
{
    let ghost w0 = *old(work);
    let ghost p0 = pend_view(*old(pending));
    proof {
        assert(check_cost(*value) >= 0);
        assert(member_cost(*rule, *plan, *value) >= 0);
    }
    let computed = shape(schema, rule, plan, work, pending)?;
    if computed != schema_type(value) {
        return Err(invalid(rule, ItemLineViolation::IncompatibleValue));
    }
    let ghost p1 = pend_view(*pending);
    check_schema(schema, value, subject, work, pending)?;
    let ghost p2 = pend_view(*pending);
    let ghost w2 = *work;
    proof {
        assert(w2 == w0 - shape_cost(*rule, *plan) - check_cost(*value));
    }
    match plan {
        ItemLineValue::Literal(v) => {
            match (v, value) {
                (ParameterValue::Option(id), ValueSchema::Option { allowed }) => {
                    proof {
                        assert(option_keys(*rule, *plan, *value) =~= seq![id@]);
                        assert(option_keys(*rule, *plan, *value).len() == 1);
                        let kn = option_keys(*rule, *plan, *value).len();
                        let an = allowed.members@.len();
                        assert(kn * an == an) by (nonlinear_arith)
                            requires
                                kn == 1,
                        ;
                        assert(member_cost(*rule, *plan, *value) == allowed.members@.len());
                    }
                    let m = key_member(allowed, id, subject, rule, work, pending);
                    proof {
                        let keys = option_keys(*rule, *plan, *value);
                        assert(keys[0] == id@);
                        if !key_set_contains(*allowed, id@) {
                            assert(!key_set_contains(*allowed, keys[0]));
                        }
                    }
                    if m.is_err() {
                        return m;
                    }
                },
                _ => {
                    proof {
                        assert(option_keys(*rule, *plan, *value) =~= Seq::<Seq<u8>>::empty());
                    }
                    if !value_fits(v, value) {
                        return Err(invalid(rule, ItemLineViolation::ValueOutsideSchema));
                    }
                },
            }
        },
        ItemLineValue::Capture(id) => {
            let found = find_capture(rule, id);
            match found {
                Some(ItemCapture { codec: ItemCaptureCodec::Value(ValueCodecInput { codec: ValueCodecKind::Option { tokens }, .. }), .. }) => {
                    match value {
                        ValueSchema::Option { allowed } => {
                            let ghost keys = option_keys(*rule, *plan, *value);
                            let ghost n = allowed.members@.len() as int;
                            proof {
                                assert(keys =~= tokens@.map_values(|t: OptionToken| t.value@));
                            }
                            let mut k: usize = 0;
                            while k < tokens.len()
                                invariant
                                    k <= tokens@.len(),
                                    keys == tokens@.map_values(|t: OptionToken| t.value@),
                                    keys == option_keys(*rule, *plan, *value),
                                    n == allowed.members@.len(),
                                    *value == (ValueSchema::Option { allowed: *allowed }),
                                    member_cost(*rule, *plan, *value) == tokens@.len() * n,
                                    *work == w2 - k * n,
                                    w2 >= 0,
                                    w0 == *old(work),
                                    w2 == w0 - shape_cost(*rule, *plan) - check_cost(*value),
                                    constraint_cost(*rule, *plan, *value) == shape_cost(*rule, *plan) + check_cost(*value)
                                        + member_cost(*rule, *plan, *value),
                                    allowed.complete ==> forall|i: int| 0 <= i < k ==> #[trigger] key_set_contains(*allowed, keys[i]),
                                    pend_view(*pending) == (if exists|i: int| 0 <= i < k && !#[trigger] key_set_contains(*allowed, keys[i]) {
                                        noted(p2, subject@, Some(ItemSchemaUnknown::Partial))
                                    } else {
                                        p2
                                    }),
                                decreases tokens@.len() - k,
                            {
                                proof {
                                    lemma_mul_step(k as int, n, tokens@.len() as int);
                                    assert(keys[k as int] == tokens@[k as int].value@);
                                }
                                let ghost before = pend_view(*pending);
                                let m = key_member(allowed, &tokens[k].value, subject, rule, work, pending);
                                if m.is_err() {
                                    proof {
                                        if !out_of_schema_work(m) {
                                            assert(!key_set_contains(*allowed, keys[k as int]));
                                            assert(!members_ok(*value, keys));
                                        }
                                    }
                                    return m;
                                }
                                proof {
                                    if !key_set_contains(*allowed, keys[k as int]) {
                                        assert(exists|i: int| 0 <= i < k + 1 && !#[trigger] key_set_contains(*allowed, keys[i]));
                                    }
                                    if exists|i: int| 0 <= i < k + 1 && !#[trigger] key_set_contains(*allowed, keys[i]) {
                                        let i = choose|i: int| 0 <= i < k + 1 && !#[trigger] key_set_contains(*allowed, keys[i]);
                                        if i < k {
                                            assert(exists|j: int| 0 <= j < k && !#[trigger] key_set_contains(*allowed, keys[j]));
                                        }
                                    } else {
                                        assert forall|i: int| 0 <= i < k implies #[trigger] key_set_contains(*allowed, keys[i]) by {
                                            assert(!(0 <= i < k + 1 && !key_set_contains(*allowed, keys[i])));
                                        }
                                    }
                                }
                                k = k + 1;
                            }
                        },
                        _ => {
                            proof {
                                assert(false);
                            }
                        },
                    }
                },
                _ => {
                    proof {
                        assert(option_keys(*rule, *plan, *value) =~= Seq::<Seq<u8>>::empty());
                    }
                },
            }
        },
        _ => {
            proof {
                assert(option_keys(*rule, *plan, *value) =~= Seq::<Seq<u8>>::empty());
            }
        },
    }
    Ok(())
}

fn site_admitted(sites: &Vec<ParameterSite>, site: ParameterSite) -> (r: bool)
    ensures
        r == sites@.contains(site),
{
    let mut k: usize = 0;
    while k < sites.len()
        invariant
            k <= sites@.len(),
            forall|j: int| 0 <= j < k ==> sites@[j] != site,
        decreases sites@.len() - k,
    {
        if sites[k] == site {
            return true;
        }
        k = k + 1;
    }
    false
}

/// A parameter slot is supplied at the site its owner kind declares.
pub open spec fn site_matches(slot: DeclaredSlotView, site: ParameterSite) -> bool {
    match slot.declaration {
        SlotOwnerView::ItemTemplate(_) => site == ParameterSite::ItemParameter,
        SlotOwnerView::Modifier(_) => site == ParameterSite::ModifierRoll,
    }
}

pub open spec fn owner_key(slot: DeclaredSlotView) -> Seq<u8> {
    match slot.declaration {
        SlotOwnerView::ItemTemplate(id) => id,
        SlotOwnerView::Modifier(id) => id,
    }
}

/// The parameter slots a slot's owner declares, if the schema describes it.
pub open spec fn owner_declarations(schema: ItemLineSchema, slot: DeclaredSlotView) -> Option<SlotSet> {
    match slot.declaration {
        SlotOwnerView::ItemTemplate(id) => match template_known(schema, id) {
            Some(t) => Some(t.parameters),
            None => None,
        },
        SlotOwnerView::Modifier(id) => match modifier_known(schema, id) {
            Some(m) => Some(m.parameters),
            None => None,
        },
    }
}

pub open spec fn owner_unknown(schema: ItemLineSchema, slot: DeclaredSlotView) -> Option<ItemSchemaUnknown> {
    match slot.declaration {
        SlotOwnerView::ItemTemplate(id) => template_unknown(schema, id),
        SlotOwnerView::Modifier(id) => modifier_unknown(schema, id),
    }
}

/// A slot may take the plan at `site`: its owner kind fits the site, a
/// complete declaration lists it, the plan computes a type, and a described
/// slot admits the site and the plan's values.
pub open spec fn parameter_ok(
    schema: ItemLineSchema,
    rule: ItemLineRule,
    slot: DeclaredSlotView,
    plan: ItemLineValue,
    site: ParameterSite,
) -> bool {
    &&& site_matches(slot, site)
    &&& (owner_declarations(schema, slot) matches Some(set) ==> set.complete ==> slot_set_contains(set, slot))
    &&& shape_type(rule, plan) is Some
    &&& (slot_known(schema, slot) matches Some(s) ==> s.sites@.contains(site) && constraint_ok(rule, plan, s.value))
}

pub open spec fn parameter_cost(schema: ItemLineSchema, rule: ItemLineRule, slot: DeclaredSlotView, plan: ItemLineValue) -> int {
    1 + match owner_declarations(schema, slot) {
        Some(set) => set.members@.len() as int,
        None => 0,
    } + shape_cost(rule, plan) + 1 + match slot_known(schema, slot) {
        Some(s) => s.sites@.len() + constraint_cost(rule, plan, s.value),
        None => 0,
    }
}

pub open spec fn parameter_pending(
    schema: ItemLineSchema,
    rule: ItemLineRule,
    slot: DeclaredSlotView,
    plan: ItemLineValue,
    p: Option<ItemLinePendingView>,
) -> Option<ItemLinePendingView> {
    let p1 = noted(p, ItemSchemaSubjectView::Definition(owner_key(slot)), owner_unknown(schema, slot));
    let p2 = match owner_declarations(schema, slot) {
        Some(set) => if !slot_set_contains(set, slot) && !set.complete {
            noted(p1, ItemSchemaSubjectView::Slot(slot), Some(ItemSchemaUnknown::Partial))
        } else {
            p1
        },
        None => p1,
    };
    let p3 = noted(
        shape_pending(schema, plan, p2),
        ItemSchemaSubjectView::Slot(slot),
        slot_unknown(schema, slot),
    );
    match slot_known(schema, slot) {
        Some(s) => constraint_pending(schema, rule, plan, s.value, ItemSchemaSubjectView::Slot(slot), p3),
        None => p3,
    }
}

/// `c` admits the same values, of the same type, as `value`.
pub open spec fn same_schema(c: ValueSchema, value: ValueSchema) -> bool {
    &&& schema_type_spec(c) == schema_type_spec(value)
    &&& forall|v: ParameterValueView| value_fits_spec(v, c) == value_fits_spec(v, value)
}

fn parameter(
    schema: &ItemLineSchema,
    rule: &ItemLineRule,
    slot: &DeclaredSlot,
    plan: &ItemLineValue,
    site: ParameterSite,
    work: &mut usize,
    pending: &mut Option<ItemLinePending>,
) -> (r: Result<Option<ValueSchema>, ItemLineError>)
    ensures
        r is Ok <==> parameter_ok(*schema, *rule, slot@, *plan, site) && *old(work) >= parameter_cost(
            *schema,
            *rule,
            slot@,
            *plan,
        ),
        r is Ok ==> {
            &&& *final(work) == *old(work) - parameter_cost(*schema, *rule, slot@, *plan)
            &&& pend_view(*final(pending)) == parameter_pending(*schema, *rule, slot@, *plan, pend_view(*old(pending)))
            &&& r matches Ok(c) && match slot_known(*schema, slot@) {
                Some(s) => c matches Some(cv) && same_schema(cv, s.value),
                None => c is None,
            }
        },
        out_of_schema_work(r) ==> *old(work) < parameter_cost(*schema, *rule, slot@, *plan),
        r is Err && !out_of_schema_work(r) ==> !parameter_ok(*schema, *rule, slot@, *plan, site) && checked_error(
            r,
            ItemSchemaSubjectView::Slot(slot@),
        ),
        *final(work) <= *old(work),
{
    let ghost w0 = *old(work);
    let ghost sv = slot@;
    proof {
        assert(shape_cost(*rule, *plan) >= 0);
        if let Some(s) = slot_known(*schema, sv) {
            assert(constraint_cost(*rule, *plan, s.value) >= 0) by {
                assert(check_cost(s.value) >= 0);
                assert(member_cost(*rule, *plan, s.value) >= 0);
            }
        }
    }
    let declarations = match (&slot.declaration, site) {
        (SlotOwner::ItemTemplate(id), ParameterSite::ItemParameter) => {
            match template_definition(schema, id, work, pending)? {
                Some(s) => Some(&s.parameters),
                None => None,
            }
        },
        (SlotOwner::Modifier(id), ParameterSite::ModifierRoll) => {
            match modifier_definition(schema, id, work, pending)? {
                Some(s) => Some(&s.parameters),
                None => None,
            }
        },
        _ => {
            return Err(invalid(rule, ItemLineViolation::WrongParameterSite));
        },
    };
    proof {
        match declarations {
            Some(set) => assert(owner_declarations(*schema, sv) == Some(*set)),
            None => assert(owner_declarations(*schema, sv) is None),
        }
    }
    let ghost w1 = *work;
    if let Some(set) = declarations {
        let m = slot_member(set, slot, rule, work, pending);
        if m.is_err() {
            return Err(m.unwrap_err());
        }
    }
    let sh = shape(schema, rule, plan, work, pending);
    if sh.is_err() {
        return Err(sh.unwrap_err());
    }
    let found = slot_schema(schema, slot, work, pending);
    let known = match found {
        Ok(k) => k,
        Err(e) => {
            return Err(e);
        },
    };
    match known {
        Some(s) => {
            let c = schema_work(work, s.sites.len());
            if c.is_err() {
                return Err(c.unwrap_err());
            }
            if !site_admitted(&s.sites, site) {
                return Err(invalid(rule, ItemLineViolation::WrongParameterSite));
            }
            let subject = ItemSchemaSubject::Slot(slot.duplicate());
            let k = constraint(schema, rule, plan, &s.value, &subject, work, pending);
            if k.is_err() {
                return Err(k.unwrap_err());
            }
            Ok(Some(s.value.duplicate()))
        },
        None => Ok(None),
    }
}

/// Of `members`, the slots the schema describes as required once, in order.
pub open spec fn required_slots(schema: ItemLineSchema, members: Seq<DeclaredSlot>) -> Seq<DeclaredSlotView>
    decreases members.len(),
{
    if members.len() == 0 {
        Seq::empty()
    } else {
        let rest = required_slots(schema, members.drop_last());
        match slot_known(schema, members.last()@) {
            Some(s) => if s.presence == SlotPresence::RequiredOnce {
                rest.push(members.last()@)
            } else {
                rest
            },
            None => rest,
        }
    }
}

/// Looking up `members` in turn, the first unavailable slot leaves the rule pending.
pub open spec fn slots_pending(
    schema: ItemLineSchema,
    p: Option<ItemLinePendingView>,
    members: Seq<DeclaredSlot>,
) -> Option<ItemLinePendingView>
    decreases members.len(),
{
    if members.len() == 0 {
        p
    } else {
        noted(
            slots_pending(schema, p, members.drop_last()),
            ItemSchemaSubjectView::Slot(members.last()@),
            slot_unknown(schema, members.last()@),
        )
    }
}

/// Every member of a declaration names `owner` as its owner.
pub open spec fn owned_by(set: SlotSet, owner: SlotOwnerView) -> bool {
    forall|i: int| 0 <= i < set.members@.len() ==> #[trigger] set.members@[i]@.declaration == owner
}

fn required(
    schema: &ItemLineSchema,
    owner: &SlotOwner,
    set: &SlotSet,
    work: &mut usize,
    pending: &mut Option<ItemLinePending>,
) -> (r: Result<Vec<DeclaredSlot>, ItemLineError>)
    ensures
        r is Ok <==> owned_by(*set, owner@) && *old(work) >= 2 * set.members@.len(),
        r matches Ok(v) ==> {
            &&& *final(work) == *old(work) - 2 * set.members@.len()
            &&& pend_view(*final(pending)) == slots_pending(*schema, pend_view(*old(pending)), set.members@)
            &&& v@.map_values(|d: DeclaredSlot| d@) == required_slots(*schema, set.members@)
        },
        out_of_schema_work(r) ==> *old(work) < 2 * set.members@.len(),
        r is Err && !out_of_schema_work(r) ==> !owned_by(*set, owner@) && r matches Err(ItemLineError::IndexFault { .. }),
        *final(work) <= *old(work),
{
    schema_work(work, set.members.len())?;
    let ghost ms = set.members@;
    let mut result: Vec<DeclaredSlot> = Vec::new();
    let mut k: usize = 0;
    proof {
        assert(ms.take(0) =~= Seq::<DeclaredSlot>::empty());
        assert(result@.map_values(|d: DeclaredSlot| d@) =~= required_slots(*schema, ms.take(0)));
    }
    while k < set.members.len()
        invariant
            ms == set.members@,
            *old(work) >= ms.len(),
            *work == *old(work) - ms.len() - k,
            k <= set.members@.len(),
            forall|i: int| 0 <= i < k ==> #[trigger] ms[i]@.declaration == owner@,
            pend_view(*pending) == slots_pending(*schema, pend_view(*old(pending)), ms.take(k as int)),
            result@.map_values(|d: DeclaredSlot| d@) == required_slots(*schema, ms.take(k as int)),
        decreases set.members@.len() - k,
    {
        let key = &set.members[k];
        proof {
            assert(ms.take(k as int + 1).drop_last() =~= ms.take(k as int));
            assert(ms.take(k as int + 1).last() == ms[k as int]);
        }
        if !key.declaration.same(owner) {
            proof {
                assert(set.members@[k as int]@.declaration != owner@);
            }
            return Err(ItemLineError::IndexFault { subject: crate::text::copy_bytes(key.slot.as_slice()) });
        }
        let found = slot_schema(schema, key, work, pending);
        let known = match found {
            Ok(x) => x,
            Err(e) => {
                return Err(e);
            },
        };
        let ghost before = result@.map_values(|d: DeclaredSlot| d@);
        if let Some(s) = known {
            if s.presence == SlotPresence::RequiredOnce {
                result.push(key.duplicate());
                proof {
                    assert(result@.map_values(|d: DeclaredSlot| d@) =~= before.push(key@));
                }
            }
        }
        k = k + 1;
    }
    proof {
        assert(ms.take(k as int) =~= ms);
    }
    Ok(result)
}

fn has_template(templates: &Vec<TemplateContext>, id: &Vec<u8>) -> (r: bool)
    ensures
        r == exists|j: int| 0 <= j < templates@.len() && #[trigger] templates@[j].template@ == id@,
{
    let mut k: usize = 0;
    while k < templates.len()
        invariant
            k <= templates@.len(),
            forall|j: int| 0 <= j < k ==> #[trigger] templates@[j].template@ != id@,
        decreases templates@.len() - k,
    {
        if bytes_eq(templates[k].template.as_slice(), id.as_slice()) {
            return true;
        }
        k = k + 1;
    }
    false
}

fn slot_listed(slots: &Vec<&DeclaredSlot>, slot: &DeclaredSlot) -> (r: bool)
    ensures
        r == exists|j: int| 0 <= j < slots@.len() && #[trigger] slots@[j]@ == slot@,
{
    let mut k: usize = 0;
    while k < slots.len()
        invariant
            k <= slots@.len(),
            forall|j: int| 0 <= j < k ==> #[trigger] slots@[j]@ != slot@,
        decreases slots@.len() - k,
    {
        if slots[k].same(slot) {
            return true;
        }
        k = k + 1;
    }
    false
}

/// The option values a capture's option codec decodes to.
pub open spec fn capture_tokens(c: ItemCapture) -> Seq<Vec<u8>> {
    match c.codec {
        ItemCaptureCodec::Value(v) => match v.codec {
            ValueCodecKind::Option { tokens } => tokens@.map_values(|t: OptionToken| t.value),
            _ => Seq::empty(),
        },
        ItemCaptureCodec::OpaqueText => Seq::empty(),
    }
}

pub open spec fn captures_cost(cs: Seq<ItemCapture>) -> int {
    sum_of(cs, |c: ItemCapture| capture_tokens(c).len() as int)
}

/// Looking up every option value of `cs` in turn.
pub open spec fn captures_pending(
    schema: ItemLineSchema,
    p: Option<ItemLinePendingView>,
    cs: Seq<ItemCapture>,
) -> Option<ItemLinePendingView>
    decreases cs.len(),
{
    if cs.len() == 0 {
        p
    } else {
        options_pending(schema, captures_pending(schema, p, cs.drop_last()), capture_tokens(cs.last()))
    }
}

proof fn lemma_options_pending_empty(schema: ItemLineSchema, p: Option<ItemLinePendingView>)
    ensures
        options_pending(schema, p, Seq::empty()) == p,
{
}

/// Look up the option values of every option capture of `rule`.
fn bind_captures(
    schema: &ItemLineSchema,
    rule: &ItemLineRule,
    work: &mut usize,
    pending: &mut Option<ItemLinePending>,
) -> (r: Result<(), ItemLineError>)
    ensures
        *old(work) >= captures_cost(rule.captures@) ==> {
            &&& r is Ok
            &&& *final(work) == *old(work) - captures_cost(rule.captures@)
            &&& pend_view(*final(pending)) == captures_pending(*schema, pend_view(*old(pending)), rule.captures@)
        },
        *old(work) < captures_cost(rule.captures@) ==> out_of_schema_work(r),
        *final(work) <= *old(work),
{
    let ghost cs = rule.captures@;
    let ghost f = |c: ItemCapture| capture_tokens(c).len() as int;
    let ghost p0 = pend_view(*pending);
    proof {
        assert(cs.take(0) =~= Seq::<ItemCapture>::empty());
        assert(cs.take(cs.len() as int) =~= cs);
        assert forall|x: ItemCapture| #[trigger] f(x) >= 0 by {}
    }
    let mut c: usize = 0;
    while c < rule.captures.len()
        invariant
            c <= rule.captures@.len(),
            cs == rule.captures@,
            f == (|c: ItemCapture| capture_tokens(c).len() as int),
            forall|x: ItemCapture| #[trigger] f(x) >= 0,
            cs.take(cs.len() as int) == cs,
            p0 == pend_view(*old(pending)),
            0 <= sum_of(cs.take(c as int), f) <= *old(work),
            *work == *old(work) - sum_of(cs.take(c as int), f),
            pend_view(*pending) == captures_pending(*schema, p0, cs.take(c as int)),
        decreases rule.captures@.len() - c,
    {
        proof {
            lemma_sum_step(cs, f, c as int);
            lemma_sum_mono(cs, f, c as int + 1, cs.len() as int);
            lemma_sum_mono(cs, f, c as int, c as int + 1);
            assert(cs.take(c as int + 1).drop_last() =~= cs.take(c as int));
            assert(cs.take(c as int + 1).last() == cs[c as int]);
        }
        let ghost before = pend_view(*pending);
        let ghost spent = sum_of(cs.take(c as int), f);
        let ghost ids = capture_tokens(cs[c as int]);
        if let ItemCaptureCodec::Value(v) = &rule.captures[c].codec {
            if let ValueCodecKind::Option { tokens } = &v.codec {
                proof {
                    assert(ids =~= tokens@.map_values(|t: OptionToken| t.value));
                    assert(ids.take(0) =~= Seq::<Vec<u8>>::empty());
                }
                let mut t: usize = 0;
                while t < tokens.len()
                    invariant
                        t <= tokens@.len(),
                        ids == tokens@.map_values(|t: OptionToken| t.value),
                        spent + ids.len() <= sum_of(cs, f),
                        spent + t <= *old(work),
                        *work == *old(work) - spent - t,
                        pend_view(*pending) == options_pending(*schema, before, ids.take(t as int)),
                        cs == rule.captures@,
                        sum_of(cs, f) == captures_cost(rule.captures@),
                    decreases tokens@.len() - t,
                {
                    proof {
                        assert(ids.take(t as int + 1).drop_last() =~= ids.take(t as int));
                        assert(ids.take(t as int + 1).last() == tokens@[t as int].value);
                    }
                    option_definition(schema, &tokens[t].value, work, pending)?;
                    t = t + 1;
                }
                proof {
                    assert(ids.take(t as int) =~= ids);
                }
            } else {
                proof {
                    assert(ids =~= Seq::<Vec<u8>>::empty());
                    lemma_options_pending_empty(*schema, before);
                }
            }
        } else {
            proof {
                assert(ids =~= Seq::<Vec<u8>>::empty());
                lemma_options_pending_empty(*schema, before);
            }
        }
        c = c + 1;
    }
    Ok(())
}

/// A described template declares only its own parameters and a proper
/// item-level range.
pub open spec fn template_ok(schema: ItemLineSchema, def: Seq<u8>) -> bool {
    match template_known(schema, def) {
        Some(t) => owned_by(t.parameters, SlotOwnerView::ItemTemplate(def)) && !range_faulty(
            ValueSchema::Integer(t.item_level),
        ),
        None => true,
    }
}

pub open spec fn template_cost(schema: ItemLineSchema, def: Seq<u8>) -> int {
    1 + match template_known(schema, def) {
        Some(t) => (2 * t.parameters.members@.len() + t.modifiers.members@.len()) as int,
        None => 0,
    }
}

pub open spec fn template_pending(
    schema: ItemLineSchema,
    def: Seq<u8>,
    p: Option<ItemLinePendingView>,
) -> Option<ItemLinePendingView> {
    let p1 = noted(p, ItemSchemaSubjectView::Definition(def), template_unknown(schema, def));
    match template_known(schema, def) {
        Some(t) => slots_pending(schema, p1, t.parameters.members@),
        None => p1,
    }
}

/// `c` is the conversion context of the described template `def`.
pub open spec fn context_is(c: TemplateContext, schema: ItemLineSchema, def: Seq<u8>) -> bool {
    &&& c.template@ == def
    &&& template_known(schema, def) matches Some(t) && {
        &&& c.level == t.item_level
        &&& c.modifiers.complete == t.modifiers.complete
        &&& c.modifiers.members@.len() == t.modifiers.members@.len()
        &&& forall|k: int| 0 <= k < c.modifiers.members@.len() ==> #[trigger] c.modifiers.members@[k]@ == t.modifiers.members@[k]@
        &&& c.required_parameters@.map_values(|d: DeclaredSlot| d@) == required_slots(schema, t.parameters.members@)
        &&& c.parameters_complete == t.parameters.complete
    }
}

pub open spec fn lists_template(ts: Seq<TemplateContext>, def: Seq<u8>) -> bool {
    exists|j: int| 0 <= j < ts.len() && #[trigger] ts[j].template@ == def
}

/// A described template not yet in `ts` is added with its context.
pub open spec fn templates_after(
    schema: ItemLineSchema,
    def: Seq<u8>,
    before: Seq<TemplateContext>,
    after: Seq<TemplateContext>,
) -> bool {
    if template_known(schema, def) is Some && !lists_template(before, def) {
        &&& after.len() == before.len() + 1
        &&& after.drop_last() == before
        &&& context_is(after.last(), schema, def)
    } else {
        after == before
    }
}

fn bind_template(
    schema: &ItemLineSchema,
    rule: &ItemLineRule,
    definition: &Vec<u8>,
    templates: &mut Vec<TemplateContext>,
    work: &mut usize,
    pending: &mut Option<ItemLinePending>,
) -> (r: Result<(), ItemLineError>)
    ensures
        r is Ok <==> template_ok(*schema, definition@) && *old(work) >= template_cost(*schema, definition@),
        r is Ok ==> {
            &&& *final(work) == *old(work) - template_cost(*schema, definition@)
            &&& pend_view(*final(pending)) == template_pending(*schema, definition@, pend_view(*old(pending)))
            &&& templates_after(*schema, definition@, old(templates)@, final(templates)@)
        },
        r is Err ==> final(templates)@ == old(templates)@,
        out_of_schema_work(r) ==> *old(work) < template_cost(*schema, definition@),
        r is Err && !out_of_schema_work(r) ==> !template_ok(*schema, definition@) && r matches Err(
            ItemLineError::IndexFault { .. },
        ),
        *final(work) <= *old(work),
{
    let found = template_definition(schema, definition, work, pending);
    let known = match found {
        Ok(k) => k,
        Err(e) => {
            return Err(e);
        },
    };
    if let Some(s) = known {
        let owner = SlotOwner::ItemTemplate(crate::text::copy_bytes(definition.as_slice()));
        let needed = match required(schema, &owner, &s.parameters, work, pending) {
            Ok(v) => v,
            Err(e) => {
                return Err(e);
            },
        };
        let subject = ItemSchemaSubject::Definition(crate::text::copy_bytes(definition.as_slice()));
        let level = ValueSchema::Integer(s.item_level);
        let checked = check_schema(schema, &level, &subject, work, pending);
        if checked.is_err() {
            return checked;
        }
        let charged = schema_work(work, s.modifiers.members.len());
        if charged.is_err() {
            return charged;
        }
        if !has_template(templates, definition) {
            let context = TemplateContext {
                template: crate::text::copy_bytes(definition.as_slice()),
                level: s.item_level,
                modifiers: s.modifiers.duplicate(),
                required_parameters: needed,
                parameters_complete: s.parameters.complete,
            };
            templates.push(context);
            proof {
                assert(final(templates)@.drop_last() =~= old(templates)@);
            }
        }
    }
    Ok(())
}

/// A rejected rule or an index fault.
pub open spec fn policy_error<T>(r: Result<T, ItemLineError>) -> bool {
    r matches Err(ItemLineError::Invalid { .. }) || r matches Err(ItemLineError::IndexFault { .. })
}

pub open spec fn roll_slots(rolls: Seq<ItemRoll>) -> Seq<DeclaredSlotView> {
    rolls.map_values(|r: ItemRoll| r.slot@)
}

/// Roll `i` belongs to modifier `def`, repeats no earlier roll's slot, and
/// may take its plan.
pub open spec fn roll_ok(schema: ItemLineSchema, rule: ItemLineRule, def: Seq<u8>, rolls: Seq<ItemRoll>, i: int) -> bool {
    &&& rolls[i].slot@.declaration == SlotOwnerView::Modifier(def)
    &&& forall|j: int| 0 <= j < i ==> rolls[j].slot@ != rolls[i].slot@
    &&& parameter_ok(schema, rule, rolls[i].slot@, rolls[i].value, ParameterSite::ModifierRoll)
}

/// A modifier emission is acceptable: every roll is, and a described
/// modifier declares only its own parameters and gets every required one.
pub open spec fn modifier_ok(schema: ItemLineSchema, rule: ItemLineRule, def: Seq<u8>, rolls: Seq<ItemRoll>) -> bool {
    &&& forall|i: int| 0 <= i < rolls.len() ==> #[trigger] roll_ok(schema, rule, def, rolls, i)
    &&& match modifier_known(schema, def) {
        Some(m) => {
            &&& owned_by(m.parameters, SlotOwnerView::Modifier(def))
            &&& forall|i: int|
                0 <= i < required_slots(schema, m.parameters.members@).len() ==> roll_slots(rolls).contains(
                    #[trigger] required_slots(schema, m.parameters.members@)[i],
                )
        },
        None => true,
    }
}

pub open spec fn rolls_cost(schema: ItemLineSchema, rule: ItemLineRule, rolls: Seq<ItemRoll>) -> int {
    sum_of(rolls, |r: ItemRoll| parameter_cost(schema, rule, r.slot@, r.value))
}

pub open spec fn modifier_cost(schema: ItemLineSchema, rule: ItemLineRule, def: Seq<u8>, rolls: Seq<ItemRoll>) -> int {
    1 + rolls_cost(schema, rule, rolls) + match modifier_known(schema, def) {
        Some(m) => 2 * m.parameters.members@.len() as int,
        None => 0,
    }
}

pub open spec fn rolls_pending(
    schema: ItemLineSchema,
    rule: ItemLineRule,
    p: Option<ItemLinePendingView>,
    rolls: Seq<ItemRoll>,
) -> Option<ItemLinePendingView>
    decreases rolls.len(),
{
    if rolls.len() == 0 {
        p
    } else {
        parameter_pending(schema, rule, rolls.last().slot@, rolls.last().value, rolls_pending(schema, rule, p, rolls.drop_last()))
    }
}

pub open spec fn modifier_pending(
    schema: ItemLineSchema,
    rule: ItemLineRule,
    def: Seq<u8>,
    rolls: Seq<ItemRoll>,
    p: Option<ItemLinePendingView>,
) -> Option<ItemLinePendingView> {
    let p1 = noted(p, ItemSchemaSubjectView::Definition(def), modifier_unknown(schema, def));
    let p2 = rolls_pending(schema, rule, p1, rolls);
    match modifier_known(schema, def) {
        Some(m) => {
            let p3 = slots_pending(schema, p2, m.parameters.members@);
            if !m.parameters.complete {
                noted(p3, ItemSchemaSubjectView::Definition(def), Some(ItemSchemaUnknown::Partial))
            } else {
                p3
            }
        },
        None => p2,
    }
}

/// The input constraint recorded for a value supplied to `slot`: the slot's
/// described input schema, or none.
pub open spec fn constraint_fits(schema: ItemLineSchema, c: Option<ValueSchema>, slot: DeclaredSlotView) -> bool {
    match slot_known(schema, slot) {
        Some(s) => c matches Some(cv) && same_schema(cv, s.value),
        None => c is None,
    }
}

proof fn lemma_parameter_cost_nonnegative(schema: ItemLineSchema, rule: ItemLineRule, slot: DeclaredSlotView, plan: ItemLineValue)
    ensures
        parameter_cost(schema, rule, slot, plan) >= 2,
{
    assert(shape_cost(rule, plan) >= 0);
    if let Some(s) = slot_known(schema, slot) {
        assert(check_cost(s.value) >= 0);
        assert(member_cost(rule, plan, s.value) >= 0);
    }
}

fn bind_modifier(
    schema: &ItemLineSchema,
    rule: &ItemLineRule,
    definition: &Vec<u8>,
    rolls: &Vec<ItemRoll>,
    constraints: &mut Vec<Option<ValueSchema>>,
    work: &mut usize,
    pending: &mut Option<ItemLinePending>,
) -> (r: Result<(), ItemLineError>)
    ensures
        r is Ok <==> modifier_ok(*schema, *rule, definition@, rolls@) && *old(work) >= modifier_cost(
            *schema,
            *rule,
            definition@,
            rolls@,
        ),
        r is Ok ==> {
            &&& *final(work) == *old(work) - modifier_cost(*schema, *rule, definition@, rolls@)
            &&& pend_view(*final(pending)) == modifier_pending(*schema, *rule, definition@, rolls@, pend_view(*old(pending)))
            &&& final(constraints)@.len() == old(constraints)@.len() + rolls@.len()
            &&& final(constraints)@.take(old(constraints)@.len() as int) == old(constraints)@
            &&& forall|i: int|
                0 <= i < rolls@.len() ==> #[trigger] constraint_fits(
                    *schema,
                    final(constraints)@[old(constraints)@.len() + i],
                    rolls@[i].slot@,
                )
        },
        out_of_schema_work(r) ==> *old(work) < modifier_cost(*schema, *rule, definition@, rolls@),
        r is Err && !out_of_schema_work(r) ==> !modifier_ok(*schema, *rule, definition@, rolls@) && policy_error(r),
        *final(work) <= *old(work),
{
    let ghost rs = rolls@;
    let ghost def = definition@;
    let ghost f = |r: ItemRoll| parameter_cost(*schema, *rule, r.slot@, r.value);
    let ghost c0 = constraints@;
    let ghost w0 = *work;
    proof {
        assert forall|x: ItemRoll| #[trigger] f(x) >= 0 by {
            lemma_parameter_cost_nonnegative(*schema, *rule, x.slot@, x.value);
        }
        assert(rs.take(0) =~= Seq::<ItemRoll>::empty());
        assert(rs.take(rs.len() as int) =~= rs);
        lemma_sum_mono(rs, f, 0, rs.len() as int);
    }
    let found = modifier_definition(schema, definition, work, pending);
    let known = match found {
        Ok(k) => k,
        Err(e) => {
            return Err(e);
        },
    };
    let ghost p1 = pend_view(*pending);
    let owner = SlotOwner::Modifier(crate::text::copy_bytes(definition.as_slice()));
    let mut supplied: Vec<&DeclaredSlot> = Vec::new();
    let mut k: usize = 0;
    while k < rolls.len()
        invariant
            k <= rolls@.len(),
            rs == rolls@,
            def == definition@,
            owner@ == SlotOwnerView::Modifier(def),
            f == (|r: ItemRoll| parameter_cost(*schema, *rule, r.slot@, r.value)),
            forall|x: ItemRoll| #[trigger] f(x) >= 0,
            rs.take(rs.len() as int) == rs,
            w0 == *old(work),
            w0 >= 1,
            0 <= sum_of(rs.take(k as int), f),
            1 + sum_of(rs.take(k as int), f) <= w0,
            *work == w0 - 1 - sum_of(rs.take(k as int), f),
            pend_view(*pending) == rolls_pending(*schema, *rule, p1, rs.take(k as int)),
            p1 == noted(pend_view(*old(pending)), ItemSchemaSubjectView::Definition(def), modifier_unknown(*schema, def)),
            match known {
                Some(t) => modifier_known(*schema, def) == Some(*t),
                None => modifier_known(*schema, def) is None,
            },
            supplied@.len() == k,
            forall|j: int| 0 <= j < k ==> #[trigger] supplied@[j]@ == rs[j].slot@,
            forall|i: int| 0 <= i < k ==> #[trigger] roll_ok(*schema, *rule, def, rs, i),
            constraints@.len() == c0.len() + k,
            constraints@.take(c0.len() as int) == c0,
            c0 == old(constraints)@,
            forall|i: int| 0 <= i < k ==> #[trigger] constraint_fits(*schema, constraints@[c0.len() + i], rs[i].slot@),
        decreases rolls@.len() - k,
    {
        let roll = &rolls[k];
        proof {
            lemma_sum_step(rs, f, k as int);
            lemma_sum_mono(rs, f, k as int + 1, rs.len() as int);
            lemma_sum_mono(rs, f, k as int, k as int + 1);
            assert(rs.take(k as int + 1).drop_last() =~= rs.take(k as int));
            assert(rs.take(k as int + 1).last() == rs[k as int]);
        }
        if !roll.slot.declaration.same(&owner) {
            proof {
                assert(!roll_ok(*schema, *rule, def, rs, k as int));
            }
            return Err(invalid(rule, ItemLineViolation::WrongRollOwner));
        }
        if slot_listed(&supplied, &roll.slot) {
            proof {
                let j = choose|j: int| 0 <= j < supplied@.len() && #[trigger] supplied@[j]@ == roll.slot@;
                assert(rs[j].slot@ == rs[k as int].slot@);
                assert(!roll_ok(*schema, *rule, def, rs, k as int));
            }
            return Err(invalid(rule, ItemLineViolation::DuplicateRoll));
        }
        proof {
            assert forall|j: int| 0 <= j < k implies rs[j].slot@ != rs[k as int].slot@ by {
                assert(supplied@[j]@ == rs[j].slot@);
            }
        }
        supplied.push(&roll.slot);
        let c = match parameter(schema, rule, &roll.slot, &roll.value, ParameterSite::ModifierRoll, work, pending) {
            Ok(c) => c,
            Err(e) => {
                proof {
                    if !out_of_schema_work(Err::<Option<ValueSchema>, ItemLineError>(e)) {
                        assert(!roll_ok(*schema, *rule, def, rs, k as int));
                    }
                }
                return Err(e);
            },
        };
        let ghost cs_before = constraints@;
        constraints.push(c);
        proof {
            assert(constraints@.take(c0.len() as int) =~= c0) by {
                assert(cs_before.take(c0.len() as int) == c0);
            }
            assert forall|i: int| 0 <= i < k + 1 implies #[trigger] constraint_fits(*schema, constraints@[c0.len() + i], rs[i].slot@) by {
                if i < k {
                    assert(constraints@[c0.len() + i] == cs_before[c0.len() + i]);
                }
            }
            assert(roll_ok(*schema, *rule, def, rs, k as int));
        }
        k = k + 1;
    }
    proof {
        assert(rs.take(k as int) =~= rs);
        assert(forall|i: int| 0 <= i < rs.len() ==> #[trigger] roll_ok(*schema, *rule, def, rs, i));
    }
    if let Some(s) = known {
        let needed = match required(schema, &owner, &s.parameters, work, pending) {
            Ok(v) => v,
            Err(e) => {
                return Err(e);
            },
        };
        let ghost req = required_slots(*schema, s.parameters.members@);
        let ghost wr = *work;
        let ghost pr = *pending;
        let mut n: usize = 0;
        while n < needed.len()
            invariant
                n <= needed@.len(),
                needed@.map_values(|d: DeclaredSlot| d@) == req,
                rs == rolls@,
                def == definition@,
                *work == wr,
                wr <= *old(work),
                *pending == pr,
                modifier_known(*schema, def) == Some(*s),
                req == required_slots(*schema, s.parameters.members@),
                supplied@.len() == rs.len(),
                forall|j: int| 0 <= j < rs.len() ==> #[trigger] supplied@[j]@ == rs[j].slot@,
                forall|i: int| 0 <= i < n ==> roll_slots(rs).contains(#[trigger] req[i]),
            decreases needed@.len() - n,
        {
            proof {
                assert(req[n as int] == needed@[n as int]@);
            }
            if !slot_listed(&supplied, &needed[n]) {
                proof {
                    if roll_slots(rs).contains(req[n as int]) {
                        let j = choose|j: int| 0 <= j < roll_slots(rs).len() && roll_slots(rs)[j] == req[n as int];
                        assert(supplied@[j]@ == needed@[n as int]@);
                    }
                    assert(!roll_slots(rs).contains(required_slots(*schema, s.parameters.members@)[n as int]));
                    assert(n < needed@.len());
                    assert(req.len() == needed@.len());
                }
                return Err(invalid(rule, ItemLineViolation::MissingRequiredRoll));
            }
            proof {
                let j = choose|j: int| 0 <= j < supplied@.len() && #[trigger] supplied@[j]@ == needed@[n as int]@;
                assert(roll_slots(rs)[j] == req[n as int]);
            }
            n = n + 1;
        }
        if !s.parameters.complete {
            note(pending, unknown(definition, ItemSchemaUnknown::Partial));
        }
    }
    Ok(())
}

/// An emission is acceptable on its own.
pub open spec fn emission_ok(schema: ItemLineSchema, rule: ItemLineRule, e: ItemEmission) -> bool {
    match e {
        ItemEmission::Metadata { .. } => true,
        ItemEmission::Template { definition } => template_ok(schema, definition@),
        ItemEmission::ItemLevel { value } => shape_type(rule, value) == Some(ComputedValueType::Integer),
        ItemEmission::ItemParameter { slot, value } => parameter_ok(schema, rule, slot@, value, ParameterSite::ItemParameter),
        ItemEmission::Modifier { definition, rolls } => modifier_ok(schema, rule, definition@, rolls@),
    }
}

pub open spec fn emission_cost(schema: ItemLineSchema, rule: ItemLineRule, e: ItemEmission) -> int {
    match e {
        ItemEmission::Metadata { .. } => 0,
        ItemEmission::Template { definition } => template_cost(schema, definition@),
        ItemEmission::ItemLevel { value } => shape_cost(rule, value),
        ItemEmission::ItemParameter { slot, value } => parameter_cost(schema, rule, slot@, value),
        ItemEmission::Modifier { definition, rolls } => modifier_cost(schema, rule, definition@, rolls@),
    }
}

pub open spec fn emission_pending(
    schema: ItemLineSchema,
    rule: ItemLineRule,
    e: ItemEmission,
    p: Option<ItemLinePendingView>,
) -> Option<ItemLinePendingView> {
    match e {
        ItemEmission::Metadata { .. } => p,
        ItemEmission::Template { definition } => template_pending(schema, definition@, p),
        ItemEmission::ItemLevel { value } => shape_pending(schema, value, p),
        ItemEmission::ItemParameter { slot, value } => parameter_pending(schema, rule, slot@, value, p),
        ItemEmission::Modifier { definition, rolls } => modifier_pending(schema, rule, definition@, rolls@, p),
    }
}

/// The item parameter slots of `es`, in order.
pub open spec fn item_parameter_slots(es: Seq<ItemEmission>) -> Seq<DeclaredSlotView>
    decreases es.len(),
{
    if es.len() == 0 {
        Seq::empty()
    } else {
        let rest = item_parameter_slots(es.drop_last());
        match es.last() {
            ItemEmission::ItemParameter { slot, .. } => rest.push(slot@),
            _ => rest,
        }
    }
}

/// Every emission is acceptable and no item parameter is supplied twice.
pub open spec fn emissions_ok(schema: ItemLineSchema, rule: ItemLineRule, es: Seq<ItemEmission>) -> bool
    decreases es.len(),
{
    if es.len() == 0 {
        true
    } else {
        &&& emissions_ok(schema, rule, es.drop_last())
        &&& emission_ok(schema, rule, es.last())
        &&& (es.last() matches ItemEmission::ItemParameter { slot, .. } ==> !item_parameter_slots(es.drop_last()).contains(slot@))
    }
}

pub open spec fn emissions_pending(
    schema: ItemLineSchema,
    rule: ItemLineRule,
    p: Option<ItemLinePendingView>,
    es: Seq<ItemEmission>,
) -> Option<ItemLinePendingView>
    decreases es.len(),
{
    if es.len() == 0 {
        p
    } else {
        emission_pending(schema, rule, es.last(), emissions_pending(schema, rule, p, es.drop_last()))
    }
}

/// The slot each recorded input constraint is for, in emission order; an
/// item level has none.
pub open spec fn expected_slots(es: Seq<ItemEmission>) -> Seq<Option<DeclaredSlotView>>
    decreases es.len(),
{
    if es.len() == 0 {
        Seq::empty()
    } else {
        let rest = expected_slots(es.drop_last());
        match es.last() {
            ItemEmission::ItemLevel { .. } => rest.push(None),
            ItemEmission::ItemParameter { slot, .. } => rest.push(Some(slot@)),
            ItemEmission::Modifier { rolls, .. } => rest + rolls@.map_values(|r: ItemRoll| Some(r.slot@)),
            _ => rest,
        }
    }
}

pub open spec fn constraints_fit(
    schema: ItemLineSchema,
    cs: Seq<Option<ValueSchema>>,
    ex: Seq<Option<DeclaredSlotView>>,
) -> bool {
    &&& cs.len() == ex.len()
    &&& forall|i: int| 0 <= i < cs.len() ==> match #[trigger] ex[i] {
        Some(slot) => constraint_fits(schema, cs[i], slot),
        None => cs[i] is None,
    }
}

/// The described templates `es` declare, in order.
pub open spec fn template_defs(schema: ItemLineSchema, es: Seq<ItemEmission>) -> Seq<Seq<u8>>
    decreases es.len(),
{
    if es.len() == 0 {
        Seq::empty()
    } else {
        let rest = template_defs(schema, es.drop_last());
        match es.last() {
            ItemEmission::Template { definition } => if template_known(schema, definition@) is Some {
                rest.push(definition@)
            } else {
                rest
            },
            _ => rest,
        }
    }
}

/// `after` keeps `before` and adds, once each, the context of every
/// described template `es` declares that was not already listed.
pub open spec fn templates_grown(
    schema: ItemLineSchema,
    es: Seq<ItemEmission>,
    before: Seq<TemplateContext>,
    after: Seq<TemplateContext>,
) -> bool {
    &&& after.len() >= before.len()
    &&& after.take(before.len() as int) == before
    &&& forall|i: int| before.len() <= i < after.len() ==> context_is(#[trigger] after[i], schema, after[i].template@)
        && template_defs(schema, es).contains(after[i].template@)
    &&& forall|d: Seq<u8>| #[trigger] template_defs(schema, es).contains(d) ==> lists_template(after, d)
    &&& forall|i: int, j: int| 0 <= i < j < after.len() && before.len() <= j ==> #[trigger] after[i].template@
        != #[trigger] after[j].template@
}

pub open spec fn bind_cost(schema: ItemLineSchema, rule: ItemLineRule) -> int {
    captures_cost(rule.captures@) + sum_of(rule.emissions@, |e: ItemEmission| emission_cost(schema, rule, e))
}

proof fn lemma_emission_cost_nonnegative(schema: ItemLineSchema, rule: ItemLineRule, e: ItemEmission)
    ensures
        emission_cost(schema, rule, e) >= 0,
{
    match e {
        ItemEmission::ItemParameter { slot, value } => lemma_parameter_cost_nonnegative(schema, rule, slot@, value),
        ItemEmission::Modifier { definition, rolls } => {
            let f = |r: ItemRoll| parameter_cost(schema, rule, r.slot@, r.value);
            assert forall|x: ItemRoll| #[trigger] f(x) >= 0 by {
                lemma_parameter_cost_nonnegative(schema, rule, x.slot@, x.value);
            }
            lemma_sum_mono(rolls@, f, 0, rolls@.len() as int);
            assert(rolls@.take(0) =~= Seq::<ItemRoll>::empty());
            assert(rolls@.take(rolls@.len() as int) =~= rolls@);
        },
        _ => {},
    }
}

proof fn lemma_emissions_ok_prefix(schema: ItemLineSchema, rule: ItemLineRule, es: Seq<ItemEmission>, n: int)
    requires
        0 <= n <= es.len(),
    ensures
        emissions_ok(schema, rule, es) ==> emissions_ok(schema, rule, es.take(n)),
    decreases es.len() - n,
{
    if n < es.len() {
        lemma_emissions_ok_prefix(schema, rule, es, n + 1);
        assert(es.take(n + 1).drop_last() =~= es.take(n));
    } else {
        assert(es.take(n) =~= es);
    }
}

/// Bind one rule's emissions to the schema.
fn bind_rule(
    schema: &ItemLineSchema,
    rule: &ItemLineRule,
    templates: &mut Vec<TemplateContext>,
    work: &mut usize,
) -> (r: Result<BoundRule, ItemLineError>)
    ensures
        r is Ok <==> emissions_ok(*schema, *rule, rule.emissions@) && *old(work) >= bind_cost(*schema, *rule),
        r matches Ok(b) ==> {
            &&& *final(work) == *old(work) - bind_cost(*schema, *rule)
            &&& constraints_fit(*schema, b.constraints@, expected_slots(rule.emissions@))
            &&& pend_view(b.pending) == emissions_pending(
                *schema,
                *rule,
                captures_pending(*schema, None, rule.captures@),
                rule.emissions@,
            )
            &&& templates_grown(*schema, rule.emissions@, old(templates)@, final(templates)@)
        },
        out_of_schema_work(r) ==> *old(work) < bind_cost(*schema, *rule),
        r is Err && !out_of_schema_work(r) ==> !emissions_ok(*schema, *rule, rule.emissions@) && policy_error(r),
        *final(work) <= *old(work),
{
    let mut pending: Option<ItemLinePending> = None;
    let mut constraints: Vec<Option<ValueSchema>> = Vec::new();
    let ghost es = rule.emissions@;
    let ghost g = |e: ItemEmission| emission_cost(*schema, *rule, e);
    let ghost w0 = *work;
    let ghost t0 = templates@;
    proof {
        assert forall|x: ItemEmission| #[trigger] g(x) >= 0 by {
            lemma_emission_cost_nonnegative(*schema, *rule, x);
        }
        assert(es.take(0) =~= Seq::<ItemEmission>::empty());
        assert(es.take(es.len() as int) =~= es);
        lemma_sum_mono(es, g, 0, es.len() as int);
        let ccs = rule.captures@;
        let cf = |c: ItemCapture| capture_tokens(c).len() as int;
        assert forall|x: ItemCapture| #[trigger] cf(x) >= 0 by {}
        assert(ccs.take(0) =~= Seq::<ItemCapture>::empty());
        assert(ccs.take(ccs.len() as int) =~= ccs);
        lemma_sum_mono(ccs, cf, 0, ccs.len() as int);
    }
    let caps = bind_captures(schema, rule, work, &mut pending);
    if caps.is_err() {
        return Err(caps.unwrap_err());
    }
    let ghost cc = captures_cost(rule.captures@);
    let ghost pc = pend_view(pending);
    proof {
        assert(templates@.take(t0.len() as int) =~= t0);
        assert(constraints@ =~= expected_slots(es.take(0)).map_values(|x: Option<DeclaredSlotView>| None::<ValueSchema>));
    }
    let mut item_slots: Vec<&DeclaredSlot> = Vec::new();
    let mut e: usize = 0;
    while e < rule.emissions.len()
        invariant
            e <= rule.emissions@.len(),
            es == rule.emissions@,
            g == (|e: ItemEmission| emission_cost(*schema, *rule, e)),
            forall|x: ItemEmission| #[trigger] g(x) >= 0,
            es.take(es.len() as int) == es,
            w0 == *old(work),
            t0 == old(templates)@,
            cc == captures_cost(rule.captures@),
            cc >= 0,
            pc == captures_pending(*schema, None, rule.captures@),
            0 <= sum_of(es.take(e as int), g),
            cc + sum_of(es.take(e as int), g) <= w0,
            *work == w0 - cc - sum_of(es.take(e as int), g),
            pend_view(pending) == emissions_pending(*schema, *rule, pc, es.take(e as int)),
            constraints_fit(*schema, constraints@, expected_slots(es.take(e as int))),
            emissions_ok(*schema, *rule, es.take(e as int)),
            item_slots@.len() == item_parameter_slots(es.take(e as int)).len(),
            forall|j: int| 0 <= j < item_slots@.len() ==> #[trigger] item_slots@[j]@ == item_parameter_slots(
                es.take(e as int),
            )[j],
            templates_grown(*schema, es.take(e as int), t0, templates@),
        decreases rule.emissions@.len() - e,
    {
        proof {
            lemma_sum_step(es, g, e as int);
            lemma_sum_mono(es, g, e as int + 1, es.len() as int);
            lemma_sum_mono(es, g, e as int, e as int + 1);
            assert(es.take(e as int + 1).drop_last() =~= es.take(e as int));
            assert(es.take(e as int + 1).last() == es[e as int]);
            lemma_emissions_ok_prefix(*schema, *rule, es, e as int + 1);
        }
        let ghost prev = es.take(e as int);
        let ghost next = es.take(e as int + 1);
        let ghost cs_before = constraints@;
        let ghost ts_before = templates@;
        let ghost p_before = pend_view(pending);
        match &rule.emissions[e] {
            ItemEmission::Metadata { .. } => {
                proof {
                    assert(expected_slots(next) == expected_slots(prev));
                    assert(item_parameter_slots(next) == item_parameter_slots(prev));
                    assert(template_defs(*schema, next) == template_defs(*schema, prev));
                }
            },
            ItemEmission::Template { definition } => {
                let b = bind_template(schema, rule, definition, templates, work, &mut pending);
                if b.is_err() {
                    return Err(b.unwrap_err());
                }
                proof {
                    assert(expected_slots(next) == expected_slots(prev));
                    assert(item_parameter_slots(next) == item_parameter_slots(prev));
                    let defs = template_defs(*schema, prev);
                    let ndefs = template_defs(*schema, next);
                    let d = definition@;
                    if template_known(*schema, d) is Some {
                        assert(ndefs == defs.push(d));
                        if !lists_template(ts_before, d) {
                            assert(templates@.drop_last() == ts_before);
                            assert(templates@.take(t0.len() as int) =~= t0) by {
                                assert(ts_before.take(t0.len() as int) == t0);
                                assert forall|i: int| 0 <= i < t0.len() implies templates@[i] == t0[i] by {
                                    assert(templates@[i] == ts_before[i]);
                                }
                            }
                            assert forall|i: int| t0.len() <= i < templates@.len() implies context_is(#[trigger] templates@[i], *schema, templates@[i].template@)
                                && ndefs.contains(templates@[i].template@) by {
                                if i < ts_before.len() {
                                    assert(templates@[i] == ts_before[i]);
                                    assert(defs.contains(ts_before[i].template@));
                                    let k = choose|k: int| 0 <= k < defs.len() && defs[k] == ts_before[i].template@;
                                    assert(ndefs[k] == defs[k]);
                                } else {
                                    assert(ndefs[defs.len() as int] == d);
                                }
                            }
                            assert forall|x: Seq<u8>| #[trigger] ndefs.contains(x) implies lists_template(templates@, x) by {
                                let k = choose|k: int| 0 <= k < ndefs.len() && ndefs[k] == x;
                                if k < defs.len() {
                                    assert(defs[k] == x);
                                    assert(defs.contains(x));
                                    let j = choose|j: int| 0 <= j < ts_before.len() && #[trigger] ts_before[j].template@ == x;
                                    assert(templates@[j] == ts_before[j]);
                                } else {
                                    assert(templates@[templates@.len() - 1].template@ == x);
                                }
                            }
                            assert forall|i: int, j: int| 0 <= i < j < templates@.len() && t0.len() <= j implies #[trigger] templates@[i].template@
                                != #[trigger] templates@[j].template@ by {
                                if j < ts_before.len() {
                                    assert(templates@[i] == ts_before[i]);
                                    assert(templates@[j] == ts_before[j]);
                                } else {
                                    assert(templates@[i] == ts_before[i]);
                                    if ts_before[i].template@ == d {
                                        assert(lists_template(ts_before, d));
                                    }
                                }
                            }
                        } else {
                            assert forall|x: Seq<u8>| #[trigger] ndefs.contains(x) implies lists_template(templates@, x) by {
                                let k = choose|k: int| 0 <= k < ndefs.len() && ndefs[k] == x;
                                if k < defs.len() {
                                    assert(defs[k] == x);
                                    assert(defs.contains(x));
                                }
                            }
                            assert forall|i: int| t0.len() <= i < templates@.len() implies context_is(#[trigger] templates@[i], *schema, templates@[i].template@)
                                && ndefs.contains(templates@[i].template@) by {
                                let k = choose|k: int| 0 <= k < defs.len() && defs[k] == templates@[i].template@;
                                assert(ndefs[k] == defs[k]);
                            }
                        }
                    } else {
                        assert(ndefs == defs);
                    }
                }
            },
            ItemEmission::ItemLevel { value } => {
                let sh = shape(schema, rule, value, work, &mut pending);
                let t = match sh {
                    Ok(t) => t,
                    Err(err) => {
                        return Err(err);
                    },
                };
                if t != ComputedValueType::Integer {
                    return Err(invalid(rule, ItemLineViolation::ItemLevelNotInteger));
                }
                constraints.push(None);
                proof {
                    assert(expected_slots(next) == expected_slots(prev).push(None));
                    assert(item_parameter_slots(next) == item_parameter_slots(prev));
                    assert(template_defs(*schema, next) == template_defs(*schema, prev));
                    assert forall|i: int| 0 <= i < constraints@.len() implies match #[trigger] expected_slots(next)[i] {
                        Some(slot) => constraint_fits(*schema, constraints@[i], slot),
                        None => constraints@[i] is None,
                    } by {
                        if i < cs_before.len() {
                            assert(constraints@[i] == cs_before[i]);
                            assert(expected_slots(next)[i] == expected_slots(prev)[i]);
                        }
                    }
                }
            },
            ItemEmission::ItemParameter { slot, value } => {
                if slot_listed(&item_slots, slot) {
                    proof {
                        let j = choose|j: int| 0 <= j < item_slots@.len() && #[trigger] item_slots@[j]@ == slot@;
                        assert(item_parameter_slots(prev)[j] == slot@);
                        assert(item_parameter_slots(prev).contains(slot@));
                    }
                    return Err(invalid(rule, ItemLineViolation::DuplicateItemParameter));
                }
                proof {
                    if item_parameter_slots(prev).contains(slot@) {
                        let j = choose|j: int| 0 <= j < item_parameter_slots(prev).len() && item_parameter_slots(prev)[j] == slot@;
                        assert(item_slots@[j]@ == slot@);
                    }
                }
                item_slots.push(slot);
                let c = match parameter(schema, rule, slot, value, ParameterSite::ItemParameter, work, &mut pending) {
                    Ok(c) => c,
                    Err(err) => {
                        return Err(err);
                    },
                };
                constraints.push(c);
                proof {
                    assert(expected_slots(next) == expected_slots(prev).push(Some(slot@)));
                    assert(item_parameter_slots(next) == item_parameter_slots(prev).push(slot@));
                    assert(template_defs(*schema, next) == template_defs(*schema, prev));
                    assert forall|i: int| 0 <= i < constraints@.len() implies match #[trigger] expected_slots(next)[i] {
                        Some(slot) => constraint_fits(*schema, constraints@[i], slot),
                        None => constraints@[i] is None,
                    } by {
                        if i < cs_before.len() {
                            assert(constraints@[i] == cs_before[i]);
                            assert(expected_slots(next)[i] == expected_slots(prev)[i]);
                        }
                    }
                    assert forall|j: int| 0 <= j < item_slots@.len() implies #[trigger] item_slots@[j]@ == item_parameter_slots(next)[j] by {
                        if j < item_slots@.len() - 1 {
                            assert(item_parameter_slots(next)[j] == item_parameter_slots(prev)[j]);
                        }
                    }
                }
            },
            ItemEmission::Modifier { definition, rolls } => {
                let m = bind_modifier(schema, rule, definition, rolls, &mut constraints, work, &mut pending);
                if m.is_err() {
                    return Err(m.unwrap_err());
                }
                proof {
                    let added = rolls@.map_values(|r: ItemRoll| Some(r.slot@));
                    assert(expected_slots(next) == expected_slots(prev) + added);
                    assert(item_parameter_slots(next) == item_parameter_slots(prev));
                    assert(template_defs(*schema, next) == template_defs(*schema, prev));
                    assert forall|i: int| 0 <= i < constraints@.len() implies match #[trigger] expected_slots(next)[i] {
                        Some(slot) => constraint_fits(*schema, constraints@[i], slot),
                        None => constraints@[i] is None,
                    } by {
                        if i < cs_before.len() {
                            assert(constraints@[i] == constraints@.take(cs_before.len() as int)[i]);
                            assert(constraints@[i] == cs_before[i]);
                            assert(expected_slots(next)[i] == expected_slots(prev)[i]);
                        } else {
                            let k = i - cs_before.len();
                            assert(expected_slots(next)[i] == added[k]);
                            assert(constraint_fits(*schema, constraints@[cs_before.len() + k], rolls@[k].slot@));
                        }
                    }
                }
            },
        }
        proof {
            assert(emissions_ok(*schema, *rule, next));
        }
        e = e + 1;
    }
    proof {
        assert(es.take(e as int) =~= es);
    }
    Ok(BoundRule { constraints, pending })
}

/// Every rule binds to the schema.
pub open spec fn rules_bind(schema: ItemLineSchema, rules: Seq<ItemLineRule>) -> bool {
    forall|k: int| 0 <= k < rules.len() ==> #[trigger] emissions_ok(schema, rules[k], rules[k].emissions@)
}

/// The schema work binding every rule is charged.
pub open spec fn rules_bind_cost(schema: ItemLineSchema, rules: Seq<ItemLineRule>) -> int {
    sum_of(rules, |r: ItemLineRule| bind_cost(schema, r))
}

proof fn lemma_bind_cost_nonnegative(schema: ItemLineSchema, rule: ItemLineRule)
    ensures
        bind_cost(schema, rule) >= 0,
{
    let es = rule.emissions@;
    let g = |e: ItemEmission| emission_cost(schema, rule, e);
    assert forall|x: ItemEmission| #[trigger] g(x) >= 0 by {
        lemma_emission_cost_nonnegative(schema, rule, x);
    }
    assert(es.take(0) =~= Seq::<ItemEmission>::empty());
    assert(es.take(es.len() as int) =~= es);
    lemma_sum_mono(es, g, 0, es.len() as int);
    let cs = rule.captures@;
    let f = |c: ItemCapture| capture_tokens(c).len() as int;
    assert forall|x: ItemCapture| #[trigger] f(x) >= 0 by {}
    assert(cs.take(0) =~= Seq::<ItemCapture>::empty());
    assert(cs.take(cs.len() as int) =~= cs);
    lemma_sum_mono(cs, f, 0, cs.len() as int);
}

impl OwnedItemLinePolicy {
    /// Check a policy's shape, then bind every rule to the owned schema.
    /// Unknown or partial schema knowledge leaves a rule pending; it is never
    /// treated as proof of absence.
    pub fn new(input: ItemLinePolicyInput, schema: &ItemLineSchema, limits: ItemLineLimits) -> (r: Result<Self, ItemLineError>)
        ensures
            r is Ok <==> {
                &&& shape_valid(input, limits)
                &&& input.definitions@ == schema.identity@
                &&& input.namespace@ == schema.namespace@
                &&& rules_bind(*schema, input.rules@)
                &&& rules_bind_cost(*schema, input.rules@) <= limits.max_schema_work
            },
            !shape_valid(input, limits) ==> r is Err,
            limits_valid(limits) && input.schema_version != OWNED_ITEM_LINE_POLICY_VERSION ==> (r matches Err(
                ItemLineError::UnsupportedVersion(v)) && v == input.schema_version),
            shape_valid(input, limits) && (input.definitions@ != schema.identity@
                || input.namespace@ != schema.namespace@) ==> r matches Err(ItemLineError::Binding),
            shape_valid(input, limits) && input.definitions@ == schema.identity@ && input.namespace@ == schema.namespace@
                && rules_bind(*schema, input.rules@) && rules_bind_cost(*schema, input.rules@) > limits.max_schema_work
                ==> (r matches Err(ItemLineError::Limit(b)) && b == ItemLineBudget::SchemaWork),
            r matches Ok(p) ==> {
                &&& p.spec_input() == input
                &&& p.spec_limits() == limits
                &&& shape_valid(input, limits)
                &&& input.definitions@ == schema.identity@
                &&& input.namespace@ == schema.namespace@
                &&& p.spec_schema_work() == rules_bind_cost(*schema, input.rules@)
                &&& p.spec_rules().len() == input.rules@.len()
                &&& forall|k: int| 0 <= k < input.rules@.len() ==> constraints_fit(
                    *schema,
                    #[trigger] p.spec_rules()[k].constraints@,
                    expected_slots(input.rules@[k].emissions@),
                )
            },
    {
        validate_shape(&input, limits)?;
        if !bytes_eq(input.definitions.as_slice(), schema.identity.as_slice())
            || !bytes_eq(input.namespace.as_slice(), schema.namespace.as_slice()) {
            return Err(ItemLineError::Binding);
        }
        let ghost rs = input.rules@;
        let ghost f = |r: ItemLineRule| bind_cost(*schema, r);
        proof {
            assert forall|x: ItemLineRule| #[trigger] f(x) >= 0 by {
                lemma_bind_cost_nonnegative(*schema, x);
            }
            assert(rs.take(0) =~= Seq::<ItemLineRule>::empty());
            assert(rs.take(rs.len() as int) =~= rs);
        }
        let mut work = limits.max_schema_work;
        let mut rules: Vec<BoundRule> = Vec::new();
        let mut templates: Vec<TemplateContext> = Vec::new();
        let mut k: usize = 0;
        while k < input.rules.len()
            invariant
                k <= input.rules@.len(),
                rs == input.rules@,
                f == (|r: ItemLineRule| bind_cost(*schema, r)),
                forall|x: ItemLineRule| #[trigger] f(x) >= 0,
                rs.take(rs.len() as int) == rs,
                rules@.len() == k,
                0 <= sum_of(rs.take(k as int), f) <= limits.max_schema_work,
                work == limits.max_schema_work - sum_of(rs.take(k as int), f),
                forall|j: int| 0 <= j < k ==> #[trigger] emissions_ok(*schema, rs[j], rs[j].emissions@),
                forall|j: int| 0 <= j < k ==> constraints_fit(
                    *schema,
                    #[trigger] rules@[j].constraints@,
                    expected_slots(rs[j].emissions@),
                ),
                shape_valid(input, limits),
                input.definitions@ == schema.identity@,
                input.namespace@ == schema.namespace@,
            decreases input.rules@.len() - k,
        {
            proof {
                lemma_sum_step(rs, f, k as int);
                lemma_sum_mono(rs, f, k as int + 1, rs.len() as int);
                lemma_sum_mono(rs, f, k as int, k as int + 1);
            }
            let bound = match bind_rule(schema, &input.rules[k], &mut templates, &mut work) {
                Ok(b) => b,
                Err(e) => {
                    proof {
                        if !out_of_schema_work(Err::<BoundRule, ItemLineError>(e)) {
                            assert(!emissions_ok(*schema, rs[k as int], rs[k as int].emissions@));
                            assert(!rules_bind(*schema, rs));
                        }
                    }
                    return Err(e);
                },
            };
            let ghost before = rules@;
            rules.push(bound);
            proof {
                assert forall|j: int| 0 <= j < k + 1 implies constraints_fit(
                    *schema,
                    #[trigger] rules@[j].constraints@,
                    expected_slots(rs[j].emissions@),
                ) by {
                    if j < k {
                        assert(rules@[j] == before[j]);
                    }
                }
            }
            k = k + 1;
        }
        proof {
            assert(rs.take(k as int) =~= rs);
        }
        Ok(OwnedItemLinePolicy {
            input,
            limits,
            rules,
            templates,
            schema_work: limits.max_schema_work - work,
        })
    }
}

} // verus!
