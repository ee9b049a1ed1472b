//! Conversion of physical item text lines with a checked policy. Captured
//! tokens are decoded exactly; unknown, ambiguous, malformed or schema-unproved
//! lines remain pending and keep their positively matched candidates.
use super::{
    BooleanToken, BoundRule, DeclaredSlot, DeclaredSlotView, ItemCapture, ItemCaptureCodec,
    ItemEmission, ItemLineBudget, ItemLineError, ItemLinePending, ItemLinePendingView,
    ItemLinePolicyInput, ItemLineRule, ItemLineValue, ItemNumericLexicalProperty, ItemRoll,
    OptionToken, OwnedItemLinePolicy, ParameterValue, ParameterValueView, ValueCodecKind,
    WhitespacePolicy, charge, pattern_view,
};
use super::matcher::{
    CapturedText, MatchShape, RuleMatch, captures_view, lemma_shape_from, match_rule,
    match_rule_spec, match_shape, rule_match_shape, walk_cost, lemma_walk_cost,
};
use super::schema::{ValueSchema, value_fits, value_fits_spec};
use crate::text::{
    bytes_eq, contains_byte, contains_byte_exec, copy_bytes, is_ascii_digit, trim_ascii,
    trim_ascii_exec,
};
use vstd::prelude::*;

verus! {

/// Largest integer magnitude that a decoded integer may have.
pub const MAX_SAFE_INTEGER: u64 = 9_007_199_254_740_991;

/// Value of a run of ASCII decimal digits.
pub open spec fn digits_value(d: Seq<u8>) -> nat
    decreases d.len(),
{
    if d.len() == 0 {
        0
    } else {
        digits_value(d.drop_last()) * 10 + (d.last() - 0x30u8) as nat
    }
}

pub open spec fn all_digits(d: Seq<u8>) -> bool {
    forall|k: int| 0 <= k < d.len() ==> is_ascii_digit(d[k])
}

/// An optionally signed ASCII decimal integer of bounded magnitude.
pub open spec fn parse_integer(s: Seq<u8>) -> Option<int> {
    let signed = s.len() > 0 && (s[0] == 0x2Bu8 || s[0] == 0x2Du8);
    let digits = if signed {
        s.subrange(1, s.len() as int)
    } else {
        s
    };
    if digits.len() == 0 || !all_digits(digits) || digits_value(digits) > MAX_SAFE_INTEGER {
        None
    } else if signed && s[0] == 0x2Du8 {
        Some(-(digits_value(digits) as int))
    } else {
        Some(digits_value(digits) as int)
    }
}

pub open spec fn boolean_token(tokens: Seq<BooleanToken>, raw: Seq<u8>) -> Option<bool>
    decreases tokens.len(),
{
    if tokens.len() == 0 {
        None
    } else if tokens[0].token@ == raw {
        Some(tokens[0].value)
    } else {
        boolean_token(tokens.drop_first(), raw)
    }
}

pub open spec fn option_token(tokens: Seq<OptionToken>, raw: Seq<u8>) -> Option<Seq<u8>>
    decreases tokens.len(),
{
    if tokens.len() == 0 {
        None
    } else if tokens[0].token@ == raw {
        Some(tokens[0].value@)
    } else {
        option_token(tokens.drop_first(), raw)
    }
}

/// The value a codec assigns to captured text, if it is well formed.
pub open spec fn decode_spec(codec: ValueCodecKind, raw: Seq<u8>) -> Option<ParameterValueView> {
    match codec {
        ValueCodecKind::Boolean { tokens } => match boolean_token(tokens@, raw) {
            Some(b) => Some(ParameterValueView::Boolean(b)),
            None => None,
        },
        ValueCodecKind::Option { tokens } => match option_token(tokens@, raw) {
            Some(o) => Some(ParameterValueView::Option(o)),
            None => None,
        },
        ValueCodecKind::Integer => match parse_integer(raw) {
            Some(i) => Some(ParameterValueView::Integer(i)),
            None => None,
        },
    }
}

proof fn lemma_digits_value_prefix(d: Seq<u8>, i: int)
    requires
        0 <= i <= d.len(),
        all_digits(d),
    ensures
        digits_value(d.take(i)) <= digits_value(d),
    decreases d.len() - i,
{
    if i < d.len() {
        lemma_digits_value_prefix(d.drop_last(), i);
        assert(d.drop_last().take(i) =~= d.take(i));
        assert(d.take(d.len() as int) =~= d);
        if i == d.len() - 1 {
            assert(d.drop_last() =~= d.take(i));
        }
    } else {
        assert(d.take(i) =~= d);
    }
}

/// Decode an optionally signed decimal integer of magnitude at most `MAX_SAFE_INTEGER`.
pub fn decode_integer(raw: &[u8]) -> (r: Option<i64>)
    ensures
        match r {
            Some(v) => parse_integer(raw@) == Some(v as int),
            None => parse_integer(raw@) is None,
        },
{
    let signed = raw.len() > 0 && (raw[0] == 0x2Bu8 || raw[0] == 0x2Du8);
    let start: usize = if signed {
        1
    } else {
        0
    };
    let ghost digits = raw@.subrange(start as int, raw@.len() as int);
    proof {
        if !signed {
            assert(digits =~= raw@);
        }
    }
    if raw.len() == start {
        return None;
    }
    let mut value: u64 = 0;
    let mut k: usize = start;
    while k < raw.len()
        invariant
            start <= k <= raw@.len(),
            digits == raw@.subrange(start as int, raw@.len() as int),
            parse_integer(raw@) is None <==> (digits.len() == 0 || !all_digits(digits)
                || digits_value(digits) > MAX_SAFE_INTEGER),
            forall|j: int| start <= j < k ==> is_ascii_digit(raw@[j]),
            value == digits_value(digits.take(k - start)),
            value <= MAX_SAFE_INTEGER,
        decreases raw@.len() - k,
    {
        let b = raw[k];
        if b < 0x30u8 || b > 0x39u8 {
            assert(!all_digits(digits)) by {
                assert(digits[k - start] == b);
            }
            return None;
        }
        assert(digits.take(k - start + 1).drop_last() =~= digits.take(k - start));
        let d: u64 = (b - 0x30u8) as u64;
        if value > (MAX_SAFE_INTEGER - d) / 10 {
            proof {
                assert(digits_value(digits.take(k - start + 1)) == value * 10 + d);
                assert(value * 10 + d > MAX_SAFE_INTEGER) by (nonlinear_arith)
                    requires
                        value > (MAX_SAFE_INTEGER - d) / 10,
                        d <= 9,
                ;
                if all_digits(digits) {
                    lemma_digits_value_prefix(digits, k - start + 1);
                }
            }
            return None;
        }
        assert(value * 10 + d <= MAX_SAFE_INTEGER) by (nonlinear_arith)
            requires
                value <= (MAX_SAFE_INTEGER - d) / 10,
                d <= 9,
        ;
        value = value * 10 + d;
        k = k + 1;
    }
    assert(digits.take(k - start) =~= digits);
    assert(all_digits(digits));
    if signed && raw[0] == 0x2Du8 {
        Some(-(value as i64))
    } else {
        Some(value as i64)
    }
}

fn decode_boolean(tokens: &Vec<BooleanToken>, raw: &[u8]) -> (r: Option<bool>)
    ensures
        r == boolean_token(tokens@, raw@),
{
    let mut k: usize = 0;
    assert(tokens@.skip(0) =~= tokens@);
    while k < tokens.len()
        invariant
            k <= tokens@.len(),
            boolean_token(tokens@, raw@) == boolean_token(tokens@.skip(k as int), raw@),
        decreases tokens@.len() - k,
    {
        assert(tokens@.skip(k as int).drop_first() =~= tokens@.skip(k + 1));
        if bytes_eq(tokens[k].token.as_slice(), raw) {
            return Some(tokens[k].value);
        }
        k = k + 1;
    }
    None
}

fn decode_option(tokens: &Vec<OptionToken>, raw: &[u8]) -> (r: Option<Vec<u8>>)
    ensures
        match r {
            Some(v) => option_token(tokens@, raw@) == Some(v@),
            None => option_token(tokens@, raw@) is None,
        },
{
    let mut k: usize = 0;
    assert(tokens@.skip(0) =~= tokens@);
    while k < tokens.len()
        invariant
            k <= tokens@.len(),
            option_token(tokens@, raw@) == option_token(tokens@.skip(k as int), raw@),
        decreases tokens@.len() - k,
    {
        assert(tokens@.skip(k as int).drop_first() =~= tokens@.skip(k + 1));
        if bytes_eq(tokens[k].token.as_slice(), raw) {
            return Some(copy_bytes(tokens[k].value.as_slice()));
        }
        k = k + 1;
    }
    None
}

/// Decode captured text with a value codec.
pub fn decode(codec: &ValueCodecKind, raw: &[u8]) -> (r: Option<ParameterValue>)
    ensures
        match r {
            Some(v) => decode_spec(*codec, raw@) == Some(v@),
            None => decode_spec(*codec, raw@) is None,
        },
{
    match codec {
        ValueCodecKind::Boolean { tokens } => match decode_boolean(tokens, raw) {
            Some(b) => Some(ParameterValue::Boolean(b)),
            None => None,
        },
        ValueCodecKind::Option { tokens } => match decode_option(tokens, raw) {
            Some(o) => Some(ParameterValue::Option(o)),
            None => None,
        },
        ValueCodecKind::Integer => match decode_integer(raw) {
            Some(i) => Some(ParameterValue::Integer(i)),
            None => None,
        },
    }
}


/// A supplied boolean fact about the line's item.
#[derive(Debug)]
pub struct PropertyFact {
    pub property: Vec<u8>,
    pub value: bool,
}

/// One physical line handed to the converter, with its 1-based position.
#[derive(Debug)]
pub struct ItemLineInput {
    pub index: usize,
    pub text: Vec<u8>,
    pub properties: Option<Vec<PropertyFact>>,
}

/// A value bound to a declared parameter slot.
#[derive(Debug)]
pub struct ParameterAssignment {
    pub slot: DeclaredSlot,
    pub value: ParameterValue,
}

pub struct AssignmentView {
    pub slot: DeclaredSlotView,
    pub value: ParameterValueView,
}

impl View for ParameterAssignment {
    type V = AssignmentView;

    open spec fn view(&self) -> AssignmentView {
        AssignmentView { slot: self.slot@, value: self.value@ }
    }
}

pub open spec fn assignments_view(a: Seq<ParameterAssignment>) -> Seq<AssignmentView> {
    a.map_values(|x: ParameterAssignment| x@)
}

/// What one converted line declares.
#[derive(Debug)]
pub enum ConvertedItemEmission {
    Metadata { role: Vec<u8> },
    Template { definition: Vec<u8> },
    ItemLevel { value: i64 },
    ItemParameter { assignment: ParameterAssignment },
    Modifier { definition: Vec<u8>, rolls: Vec<ParameterAssignment> },
}

pub enum EmissionView {
    Metadata { role: Seq<u8> },
    Template { definition: Seq<u8> },
    ItemLevel { value: int },
    ItemParameter { assignment: AssignmentView },
    Modifier { definition: Seq<u8>, rolls: Seq<AssignmentView> },
}

impl View for ConvertedItemEmission {
    type V = EmissionView;

    open spec fn view(&self) -> EmissionView {
        match self {
            ConvertedItemEmission::Metadata { role } => EmissionView::Metadata { role: role@ },
            ConvertedItemEmission::Template { definition } => EmissionView::Template {
                definition: definition@,
            },
            ConvertedItemEmission::ItemLevel { value } => EmissionView::ItemLevel { value: *value as int },
            ConvertedItemEmission::ItemParameter { assignment } => EmissionView::ItemParameter {
                assignment: assignment@,
            },
            ConvertedItemEmission::Modifier { definition, rolls } => EmissionView::Modifier {
                definition: definition@,
                rolls: assignments_view(rolls@),
            },
        }
    }
}

pub open spec fn emissions_view(e: Seq<ConvertedItemEmission>) -> Seq<EmissionView> {
    e.map_values(|x: ConvertedItemEmission| x@)
}

/// A line is either known, with its rule and emissions, or pending with the
/// reason and every rule that positively matched it.
#[derive(Debug)]
pub enum ItemLineOutcome {
    Known { rule: Vec<u8>, emissions: Vec<ConvertedItemEmission> },
    Pending { reason: ItemLinePending, candidates: Vec<Vec<u8>> },
}

pub enum OutcomeView {
    Known { rule: Seq<u8>, emissions: Seq<EmissionView> },
    Pending { reason: ItemLinePendingView, candidates: Seq<Seq<u8>> },
}

pub open spec fn keys_view(k: Seq<Vec<u8>>) -> Seq<Seq<u8>> {
    k.map_values(|x: Vec<u8>| x@)
}

impl View for ItemLineOutcome {
    type V = OutcomeView;

    open spec fn view(&self) -> OutcomeView {
        match self {
            ItemLineOutcome::Known { rule, emissions } => OutcomeView::Known {
                rule: rule@,
                emissions: emissions_view(emissions@),
            },
            ItemLineOutcome::Pending { reason, candidates } => OutcomeView::Pending {
                reason: reason@,
                candidates: keys_view(candidates@),
            },
        }
    }
}

/// The converted form of one physical line.
#[derive(Debug)]
pub struct ItemLineEvidence {
    pub index: usize,
    pub text: Vec<u8>,
    pub outcome: ItemLineOutcome,
}

pub open spec fn props_view(p: Option<Vec<PropertyFact>>) -> Option<Seq<(Seq<u8>, bool)>> {
    match p {
        Some(v) => Some(v@.map_values(|f: PropertyFact| (f.property@, f.value))),
        None => None,
    }
}

/// The first supplied fact for `key`.
pub open spec fn property_lookup(props: Seq<(Seq<u8>, bool)>, key: Seq<u8>) -> Option<bool>
    decreases props.len(),
{
    if props.len() == 0 {
        None
    } else if props[0].0 == key {
        Some(props[0].1)
    } else {
        property_lookup(props.drop_first(), key)
    }
}

/// The text captured for `id`.
pub open spec fn captured(caps: Seq<(Seq<u8>, Seq<u8>)>, id: Seq<u8>) -> Option<Seq<u8>>
    decreases caps.len(),
{
    if caps.len() == 0 {
        None
    } else if caps[0].0 == id {
        Some(caps[0].1)
    } else {
        captured(caps.drop_first(), id)
    }
}

/// The declaration of capture `id`.
pub open spec fn capture_decl(decls: Seq<ItemCapture>, id: Seq<u8>) -> Option<ItemCapture>
    decreases decls.len(),
{
    if decls.len() == 0 {
        None
    } else if decls[0].id@ == id {
        Some(decls[0])
    } else {
        capture_decl(decls.drop_first(), id)
    }
}

/// The decoded value of capture `id`, if it is a value capture whose text decodes.
pub open spec fn decoded(rule: ItemLineRule, caps: Seq<(Seq<u8>, Seq<u8>)>, id: Seq<u8>) -> Option<
    ParameterValueView,
> {
    match capture_decl(rule.captures@, id) {
        Some(c) => match c.codec {
            ItemCaptureCodec::Value(v) => match captured(caps, id) {
                Some(t) => decode_spec(v.codec, t),
                None => None,
            },
            ItemCaptureCodec::OpaqueText => None,
        },
        None => None,
    }
}

/// The first value capture, in declaration order from `c`, that does not decode.
pub open spec fn malformed_from(rule: ItemLineRule, caps: Seq<(Seq<u8>, Seq<u8>)>, c: int) -> Option<
    Seq<u8>,
>
    decreases rule.captures@.len() - c,
{
    if c < 0 || c >= rule.captures@.len() {
        None
    } else {
        let decl = rule.captures@[c];
        match decl.codec {
            ItemCaptureCodec::Value(v) => {
                let bad = match captured(caps, decl.id@) {
                    Some(t) => decode_spec(v.codec, t) is None,
                    None => true,
                };
                if bad {
                    Some(decl.id@)
                } else {
                    malformed_from(rule, caps, c + 1)
                }
            },
            ItemCaptureCodec::OpaqueText => malformed_from(rule, caps, c + 1),
        }
    }
}

/// The value an emission plan yields on a matched line.
pub open spec fn resolve_spec(
    value: ItemLineValue,
    rule: ItemLineRule,
    caps: Seq<(Seq<u8>, Seq<u8>)>,
    props: Option<Seq<(Seq<u8>, bool)>>,
) -> Result<ParameterValueView, ItemLinePendingView> {
    match value {
        ItemLineValue::Literal(v) => Ok(v@),
        ItemLineValue::Capture(id) => match decoded(rule, caps, id@) {
            Some(v) => Ok(v),
            None => Err(ItemLinePendingView::MalformedCapture { capture: id@ }),
        },
        ItemLineValue::Property { property } => {
            let found = match props {
                Some(p) => property_lookup(p, property@),
                None => None,
            };
            match found {
                Some(b) => Ok(ParameterValueView::Boolean(b)),
                None => Err(ItemLinePendingView::MissingProperty { property: property@ }),
            }
        },
        ItemLineValue::NumericLexicalProperty { capture, property } => match captured(caps, capture@) {
            Some(t) => match property {
                ItemNumericLexicalProperty::HasDecimalPoint => Ok(
                    ParameterValueView::Boolean(contains_byte(t, 0x2Eu8)),
                ),
            },
            None => Err(ItemLinePendingView::MalformedCapture { capture: capture@ }),
        },
    }
}

/// The input constraint of the `k`-th emitted value of a rule.
pub open spec fn constraint_at(bound: BoundRule, k: int) -> Option<ValueSchema> {
    if 0 <= k < bound.constraints@.len() {
        bound.constraints@[k]
    } else {
        None
    }
}

/// A resolved value, rejected when it lies outside its constraint.
pub open spec fn get_spec(
    value: ItemLineValue,
    slot: Option<DeclaredSlotView>,
    rule: ItemLineRule,
    bound: BoundRule,
    k: int,
    caps: Seq<(Seq<u8>, Seq<u8>)>,
    props: Option<Seq<(Seq<u8>, bool)>>,
) -> Result<ParameterValueView, ItemLinePendingView> {
    match resolve_spec(value, rule, caps, props) {
        Err(p) => Err(p),
        Ok(v) => match constraint_at(bound, k) {
            Some(schema) => if value_fits_spec(v, schema) {
                Ok(v)
            } else {
                Err(ItemLinePendingView::ValueOutsideSchema { slot })
            },
            None => Ok(v),
        },
    }
}

pub open spec fn cons<T>(head: T, rest: Result<Seq<T>, ItemLinePendingView>) -> Result<
    Seq<T>,
    ItemLinePendingView,
> {
    match rest {
        Ok(s) => Ok(seq![head] + s),
        Err(p) => Err(p),
    }
}

pub open spec fn prepend<T>(acc: Seq<T>, rest: Result<Seq<T>, ItemLinePendingView>) -> Result<
    Seq<T>,
    ItemLinePendingView,
> {
    match rest {
        Ok(s) => Ok(acc + s),
        Err(p) => Err(p),
    }
}

/// The rolls from `r` on, whose first value is the `k`-th of the rule.
pub open spec fn rolls_spec(
    rolls: Seq<ItemRoll>,
    r: int,
    k: int,
    rule: ItemLineRule,
    bound: BoundRule,
    caps: Seq<(Seq<u8>, Seq<u8>)>,
    props: Option<Seq<(Seq<u8>, bool)>>,
) -> Result<Seq<AssignmentView>, ItemLinePendingView>
    decreases rolls.len() - r,
{
    if r < 0 || r >= rolls.len() {
        Ok(seq![])
    } else {
        match get_spec(rolls[r].value, Some(rolls[r].slot@), rule, bound, k, caps, props) {
            Err(p) => Err(p),
            Ok(v) => cons(
                AssignmentView { slot: rolls[r].slot@, value: v },
                rolls_spec(rolls, r + 1, k + 1, rule, bound, caps, props),
            ),
        }
    }
}

/// The emissions from `e` on, whose first value is the `k`-th of the rule;
/// the first value that cannot be resolved leaves the line pending.
pub open spec fn emissions_spec(
    e: int,
    k: int,
    rule: ItemLineRule,
    bound: BoundRule,
    caps: Seq<(Seq<u8>, Seq<u8>)>,
    props: Option<Seq<(Seq<u8>, bool)>>,
) -> Result<Seq<EmissionView>, ItemLinePendingView>
    decreases rule.emissions@.len() - e,
{
    if e < 0 || e >= rule.emissions@.len() {
        Ok(seq![])
    } else {
        match rule.emissions@[e] {
            ItemEmission::Metadata { role } => cons(
                EmissionView::Metadata { role: role@ },
                emissions_spec(e + 1, k, rule, bound, caps, props),
            ),
            ItemEmission::Template { definition } => cons(
                EmissionView::Template { definition: definition@ },
                emissions_spec(e + 1, k, rule, bound, caps, props),
            ),
            ItemEmission::ItemLevel { value } => match get_spec(value, None, rule, bound, k, caps, props) {
                Err(p) => Err(p),
                Ok(ParameterValueView::Integer(i)) => cons(
                    EmissionView::ItemLevel { value: i },
                    emissions_spec(e + 1, k + 1, rule, bound, caps, props),
                ),
                Ok(_) => Err(ItemLinePendingView::ValueOutsideSchema { slot: None }),
            },
            ItemEmission::ItemParameter { slot, value } => match get_spec(
                value,
                Some(slot@),
                rule,
                bound,
                k,
                caps,
                props,
            ) {
                Err(p) => Err(p),
                Ok(v) => cons(
                    EmissionView::ItemParameter { assignment: AssignmentView { slot: slot@, value: v } },
                    emissions_spec(e + 1, k + 1, rule, bound, caps, props),
                ),
            },
            ItemEmission::Modifier { definition, rolls } => match rolls_spec(
                rolls@,
                0,
                k,
                rule,
                bound,
                caps,
                props,
            ) {
                Err(p) => Err(p),
                Ok(rs) => cons(
                    EmissionView::Modifier { definition: definition@, rolls: rs },
                    emissions_spec(e + 1, k + rolls@.len(), rule, bound, caps, props),
                ),
            },
        }
    }
}

/// The text the patterns see: the line, trimmed if the policy says so.
pub open spec fn line_text(input: ItemLinePolicyInput, text: Seq<u8>) -> Seq<u8> {
    match input.whitespace {
        WhitespacePolicy::Exact => text,
        WhitespacePolicy::TrimAscii => trim_ascii(text),
    }
}

pub open spec fn rule_shape(rule: ItemLineRule, t: Seq<u8>) -> MatchShape {
    match_shape(pattern_view(rule.pattern@), t)
}

/// Indices, in rule order, of the first `n` rules that do not reject `t`.
pub open spec fn matched_upto(rules: Seq<ItemLineRule>, t: Seq<u8>, n: int) -> Seq<int>
    decreases n,
{
    if n <= 0 {
        seq![]
    } else if rule_shape(rules[n - 1], t) is No {
        matched_upto(rules, t, n - 1)
    } else {
        matched_upto(rules, t, n - 1).push(n - 1)
    }
}

pub open spec fn pending_view(p: Option<ItemLinePending>) -> Option<ItemLinePendingView> {
    match p {
        Some(x) => Some(x@),
        None => None,
    }
}

/// The outcome of one physical line under a checked policy.
pub open spec fn outcome_spec(
    input: ItemLinePolicyInput,
    bound: Seq<BoundRule>,
    text: Seq<u8>,
    props: Option<Seq<(Seq<u8>, bool)>>,
) -> OutcomeView {
    if contains_byte(text, 0x0Au8) || contains_byte(text, 0x0Du8) {
        OutcomeView::Pending { reason: ItemLinePendingView::UnsupportedLineLayout, candidates: seq![] }
    } else {
        let t = line_text(input, text);
        let m = matched_upto(input.rules@, t, input.rules@.len() as int);
        let candidates = m.map_values(|i: int| input.rules@[i].id@);
        if m.len() == 0 {
            OutcomeView::Pending { reason: ItemLinePendingView::UnknownLine, candidates: seq![] }
        } else if m.len() != 1 {
            OutcomeView::Pending { reason: ItemLinePendingView::AmbiguousRules, candidates }
        } else {
            let rule = input.rules@[m[0]];
            match rule_shape(rule, t) {
                MatchShape::Unique(caps) => match malformed_from(rule, caps, 0) {
                    Some(id) => OutcomeView::Pending {
                        reason: ItemLinePendingView::MalformedCapture { capture: id },
                        candidates,
                    },
                    None => match pending_view(bound[m[0]].pending) {
                        Some(p) => OutcomeView::Pending { reason: p, candidates },
                        None => match emissions_spec(0, 0, rule, bound[m[0]], caps, props) {
                            Ok(es) => OutcomeView::Known { rule: rule.id@, emissions: es },
                            Err(p) => OutcomeView::Pending { reason: p, candidates },
                        },
                    },
                },
                _ => OutcomeView::Pending { reason: ItemLinePendingView::AmbiguousCapture, candidates },
            }
        }
    }
}


/// Charge a conversion budget, reporting exhaustion as a limit error.
pub fn spend(left: &mut usize, n: usize, what: ItemLineBudget) -> (r: Result<(), ItemLineError>)
    ensures
        n <= *old(left) ==> r is Ok && *final(left) == *old(left) - n,
        n > *old(left) ==> (r matches Err(ItemLineError::Limit(b)) && b == what),
        *final(left) <= *old(left),
{
    match charge(left, n, what) {
        Ok(()) => Ok(()),
        Err(b) => Err(ItemLineError::Limit(b)),
    }
}

fn lookup_property(props: &Vec<PropertyFact>, key: &[u8]) -> (r: Option<bool>)
    ensures
        r == property_lookup(props@.map_values(|f: PropertyFact| (f.property@, f.value)), key@),
{
    let ghost all = props@.map_values(|f: PropertyFact| (f.property@, f.value));
    let mut k: usize = 0;
    assert(all.skip(0) =~= all);
    while k < props.len()
        invariant
            k <= props@.len(),
            all == props@.map_values(|f: PropertyFact| (f.property@, f.value)),
            property_lookup(all, key@) == property_lookup(all.skip(k as int), key@),
        decreases props@.len() - k,
    {
        assert(all.skip(k as int).drop_first() =~= all.skip(k + 1));
        assert(all.skip(k as int)[0] == all[k as int]);
        if bytes_eq(props[k].property.as_slice(), key) {
            return Some(props[k].value);
        }
        k = k + 1;
    }
    None
}

fn find_captured<'a>(caps: &'a Vec<CapturedText>, id: &[u8]) -> (r: Option<&'a Vec<u8>>)
    ensures
        match r {
            Some(t) => captured(captures_view(caps@), id@) == Some(t@),
            None => captured(captures_view(caps@), id@) is None,
        },
{
    let ghost all = captures_view(caps@);
    let mut k: usize = 0;
    assert(all.skip(0) =~= all);
    while k < caps.len()
        invariant
            k <= caps@.len(),
            all == captures_view(caps@),
            captured(all, id@) == captured(all.skip(k as int), id@),
        decreases caps@.len() - k,
    {
        assert(all.skip(k as int).drop_first() =~= all.skip(k + 1));
        assert(all.skip(k as int)[0] == all[k as int]);
        if bytes_eq(caps[k].id.as_slice(), id) {
            return Some(&caps[k].text);
        }
        k = k + 1;
    }
    None
}

fn find_decl<'a>(decls: &'a Vec<ItemCapture>, id: &[u8]) -> (r: Option<&'a ItemCapture>)
    ensures
        match r {
            Some(c) => capture_decl(decls@, id@) == Some(*c),
            None => capture_decl(decls@, id@) is None,
        },
{
    let mut k: usize = 0;
    assert(decls@.skip(0) =~= decls@);
    while k < decls.len()
        invariant
            k <= decls@.len(),
            capture_decl(decls@, id@) == capture_decl(decls@.skip(k as int), id@),
        decreases decls@.len() - k,
    {
        assert(decls@.skip(k as int).drop_first() =~= decls@.skip(k + 1));
        assert(decls@.skip(k as int)[0] == decls@[k as int]);
        if bytes_eq(decls[k].id.as_slice(), id) {
            return Some(&decls[k]);
        }
        k = k + 1;
    }
    None
}

fn decoded_exec(rule: &ItemLineRule, caps: &Vec<CapturedText>, id: &[u8]) -> (r: Option<ParameterValue>)
    ensures
        match r {
            Some(v) => decoded(*rule, captures_view(caps@), id@) == Some(v@),
            None => decoded(*rule, captures_view(caps@), id@) is None,
        },
{
    match find_decl(&rule.captures, id) {
        Some(c) => match &c.codec {
            ItemCaptureCodec::Value(v) => match find_captured(caps, id) {
                Some(t) => decode(&v.codec, t.as_slice()),
                None => None,
            },
            ItemCaptureCodec::OpaqueText => None,
        },
        None => None,
    }
}

fn resolve(
    value: &ItemLineValue,
    rule: &ItemLineRule,
    caps: &Vec<CapturedText>,
    props: &Option<Vec<PropertyFact>>,
) -> (r: Result<ParameterValue, ItemLinePending>)
    ensures
        match r {
            Ok(v) => resolve_spec(*value, *rule, captures_view(caps@), props_view(*props)) == Ok::<
                ParameterValueView,
                ItemLinePendingView,
            >(v@),
            Err(p) => resolve_spec(*value, *rule, captures_view(caps@), props_view(*props)) == Err::<
                ParameterValueView,
                ItemLinePendingView,
            >(p@),
        },
{
    match value {
        ItemLineValue::Literal(v) => Ok(v.duplicate()),
        ItemLineValue::Capture(id) => match decoded_exec(rule, caps, id.as_slice()) {
            Some(v) => Ok(v),
            None => Err(ItemLinePending::MalformedCapture { capture: copy_bytes(id.as_slice()) }),
        },
        ItemLineValue::Property { property } => {
            let found = match props {
                Some(p) => lookup_property(p, property.as_slice()),
                None => None,
            };
            match found {
                Some(b) => Ok(ParameterValue::Boolean(b)),
                None => Err(ItemLinePending::MissingProperty { property: copy_bytes(property.as_slice()) }),
            }
        },
        ItemLineValue::NumericLexicalProperty { capture, property } => match find_captured(
            caps,
            capture.as_slice(),
        ) {
            Some(t) => match property {
                ItemNumericLexicalProperty::HasDecimalPoint => Ok(
                    ParameterValue::Boolean(contains_byte_exec(t.as_slice(), 0x2Eu8)),
                ),
            },
            None => Err(ItemLinePending::MalformedCapture { capture: copy_bytes(capture.as_slice()) }),
        },
    }
}

pub open spec fn slot_view(slot: Option<&DeclaredSlot>) -> Option<DeclaredSlotView> {
    match slot {
        Some(s) => Some(s@),
        None => None,
    }
}

fn get(
    value: &ItemLineValue,
    slot: Option<&DeclaredSlot>,
    rule: &ItemLineRule,
    bound: &BoundRule,
    k: u128,
    caps: &Vec<CapturedText>,
    props: &Option<Vec<PropertyFact>>,
) -> (r: Result<ParameterValue, ItemLinePending>)
    ensures
        match r {
            Ok(v) => get_spec(*value, slot_view(slot), *rule, *bound, k as int, captures_view(caps@), props_view(*props))
                == Ok::<ParameterValueView, ItemLinePendingView>(v@),
            Err(p) => get_spec(*value, slot_view(slot), *rule, *bound, k as int, captures_view(caps@), props_view(*props))
                == Err::<ParameterValueView, ItemLinePendingView>(p@),
        },
{
    let v = resolve(value, rule, caps, props)?;
    if k < bound.constraints.len() as u128 {
        if let Some(schema) = &bound.constraints[k as usize] {
            if !value_fits(&v, schema) {
                let s = match slot {
                    Some(s) => Some(s.duplicate()),
                    None => None,
                };
                return Err(ItemLinePending::ValueOutsideSchema { slot: s });
            }
        }
    }
    Ok(v)
}

fn convert_rolls(
    rolls: &Vec<ItemRoll>,
    k: u128,
    rule: &ItemLineRule,
    bound: &BoundRule,
    caps: &Vec<CapturedText>,
    props: &Option<Vec<PropertyFact>>,
) -> (r: Result<Vec<ParameterAssignment>, ItemLinePending>)
    requires
        k + rolls@.len() <= u128::MAX,
    ensures
        match r {
            Ok(v) => rolls_spec(rolls@, 0, k as int, *rule, *bound, captures_view(caps@), props_view(*props))
                == Ok::<Seq<AssignmentView>, ItemLinePendingView>(assignments_view(v@)),
            Err(p) => rolls_spec(rolls@, 0, k as int, *rule, *bound, captures_view(caps@), props_view(*props))
                == Err::<Seq<AssignmentView>, ItemLinePendingView>(p@),
        },
{
    let ghost cv = captures_view(caps@);
    let ghost pv = props_view(*props);
    let mut acc: Vec<ParameterAssignment> = Vec::new();
    let mut r: usize = 0;
    assert(assignments_view(acc@) =~= seq![]);
    assert(prepend(seq![], rolls_spec(rolls@, 0, k as int, *rule, *bound, cv, pv)) == rolls_spec(
        rolls@,
        0,
        k as int,
        *rule,
        *bound,
        cv,
        pv,
    )) by {
        match rolls_spec(rolls@, 0, k as int, *rule, *bound, cv, pv) {
            Ok(s) => assert(Seq::<AssignmentView>::empty() + s =~= s),
            Err(_) => {},
        }
    }
    while r < rolls.len()
        invariant
            r <= rolls@.len(),
            k + rolls@.len() <= u128::MAX,
            cv == captures_view(caps@),
            pv == props_view(*props),
            rolls_spec(rolls@, 0, k as int, *rule, *bound, cv, pv) == prepend(
                assignments_view(acc@),
                rolls_spec(rolls@, r as int, k + r, *rule, *bound, cv, pv),
            ),
        decreases rolls@.len() - r,
    {
        let roll = &rolls[r];
        let v = get(&roll.value, Some(&roll.slot), rule, bound, k + r as u128, caps, props)?;
        let ghost before = assignments_view(acc@);
        let ghost head = AssignmentView { slot: roll.slot@, value: v@ };
        acc.push(ParameterAssignment { slot: roll.slot.duplicate(), value: v });
        proof {
            assert(assignments_view(acc@) =~= before.push(head));
            match rolls_spec(rolls@, r + 1, k + r + 1, *rule, *bound, cv, pv) {
                Ok(s) => assert(before + (seq![head] + s) =~= before.push(head) + s),
                Err(_) => {},
            }
        }
        r = r + 1;
    }
    proof {
        assert(assignments_view(acc@) + Seq::<AssignmentView>::empty() =~= assignments_view(acc@));
    }
    Ok(acc)
}


fn convert_emissions(
    rule: &ItemLineRule,
    bound: &BoundRule,
    caps: &Vec<CapturedText>,
    props: &Option<Vec<PropertyFact>>,
    work: &mut usize,
    output: &mut usize,
) -> (r: Result<Result<Vec<ConvertedItemEmission>, ItemLinePending>, ItemLineError>)
    ensures
        r matches Ok(x) ==> match x {
            Ok(v) => emissions_spec(0, 0, *rule, *bound, captures_view(caps@), props_view(*props))
                == Ok::<Seq<EmissionView>, ItemLinePendingView>(emissions_view(v@)),
            Err(p) => emissions_spec(0, 0, *rule, *bound, captures_view(caps@), props_view(*props))
                == Err::<Seq<EmissionView>, ItemLinePendingView>(p@),
        },
        r matches Err(e) ==> e matches ItemLineError::Limit(_),
        sum_of(rule.emissions@, |e: ItemEmission| emission_charge(e)) <= *old(work) && sum_of(
            rule.emissions@,
            |e: ItemEmission| emission_charge(e),
        ) <= *old(output) ==> r is Ok,
        r is Ok ==> *old(work) - *final(work) <= sum_of(rule.emissions@, |e: ItemEmission| emission_charge(e)),
        r is Ok ==> *old(output) - *final(output) <= sum_of(rule.emissions@, |e: ItemEmission| emission_charge(e)),
        *final(work) <= *old(work),
        *final(output) <= *old(output),
{
    let ghost cv = captures_view(caps@);
    let ghost pv = props_view(*props);
    let ghost ems = rule.emissions@;
    let ghost ef = |e: ItemEmission| emission_charge(e);
    proof {
        assert(ems.take(0) =~= Seq::<ItemEmission>::empty());
        assert(ems.take(ems.len() as int) =~= ems);
        assert forall|x: ItemEmission| #[trigger] ef(x) >= 0 by {}
    }
    let mut acc: Vec<ConvertedItemEmission> = Vec::new();
    let mut e: usize = 0;
    let mut k: u128 = 0;
    assert(emissions_view(acc@) =~= seq![]);
    assert(prepend(seq![], emissions_spec(0, 0, *rule, *bound, cv, pv)) == emissions_spec(0, 0, *rule, *bound, cv, pv)) by {
        match emissions_spec(0, 0, *rule, *bound, cv, pv) {
            Ok(s) => assert(Seq::<EmissionView>::empty() + s =~= s),
            Err(_) => {},
        }
    }
    while e < rule.emissions.len()
        invariant
            e <= ems.len(),
            ems == rule.emissions@,
            k <= e * 0x1_0000_0000_0000_0000,
            cv == captures_view(caps@),
            pv == props_view(*props),
            emissions_spec(0, 0, *rule, *bound, cv, pv) == prepend(
                emissions_view(acc@),
                emissions_spec(e as int, k as int, *rule, *bound, cv, pv),
            ),
            ef == (|e: ItemEmission| emission_charge(e)),
            ems.take(ems.len() as int) == ems,
            forall|x: ItemEmission| #[trigger] ef(x) >= 0,
            0 <= sum_of(ems.take(e as int), ef) <= *old(work),
            sum_of(ems.take(e as int), ef) <= *old(output),
            *work == *old(work) - sum_of(ems.take(e as int), ef),
            *output == *old(output) - sum_of(ems.take(e as int), ef),
        decreases ems.len() - e,
    {
        proof {
            lemma_sum_step(ems, ef, e as int);
            lemma_sum_mono(ems, ef, e as int + 1, ems.len() as int);
        }
        spend(output, 1, ItemLineBudget::OutputDeclarations)?;
        spend(work, 1, ItemLineBudget::Work)?;
        let ghost before = emissions_view(acc@);
        let ghost e0 = e as int;
        let ghost k0 = k as int;
        let next_k: u128;
        match &rule.emissions[e] {
            ItemEmission::Metadata { role } => {
                acc.push(ConvertedItemEmission::Metadata { role: copy_bytes(role.as_slice()) });
                next_k = k;
            },
            ItemEmission::Template { definition } => {
                acc.push(ConvertedItemEmission::Template { definition: copy_bytes(definition.as_slice()) });
                next_k = k;
            },
            ItemEmission::ItemLevel { value } => {
                match get(value, None, rule, bound, k, caps, props) {
                    Err(p) => {
                        return Ok(Err(p));
                    },
                    Ok(ParameterValue::Integer(i)) => {
                        acc.push(ConvertedItemEmission::ItemLevel { value: i });
                    },
                    Ok(_) => {
                        return Ok(Err(ItemLinePending::ValueOutsideSchema { slot: None }));
                    },
                }
                next_k = k + 1;
            },
            ItemEmission::ItemParameter { slot, value } => {
                match get(value, Some(slot), rule, bound, k, caps, props) {
                    Err(p) => {
                        return Ok(Err(p));
                    },
                    Ok(v) => {
                        acc.push(ConvertedItemEmission::ItemParameter {
                            assignment: ParameterAssignment { slot: slot.duplicate(), value: v },
                        });
                    },
                }
                next_k = k + 1;
            },
            ItemEmission::Modifier { definition, rolls } => {
                spend(output, rolls.len(), ItemLineBudget::OutputDeclarations)?;
                spend(work, rolls.len(), ItemLineBudget::Work)?;
                match convert_rolls(rolls, k, rule, bound, caps, props) {
                    Err(p) => {
                        return Ok(Err(p));
                    },
                    Ok(rs) => {
                        acc.push(ConvertedItemEmission::Modifier {
                            definition: copy_bytes(definition.as_slice()),
                            rolls: rs,
                        });
                    },
                }
                next_k = k + rolls.len() as u128;
            },
        }
        proof {
            let head = acc@.last()@;
            assert(emissions_view(acc@) =~= before.push(head));
            assert(emissions_spec(e0, k0, *rule, *bound, cv, pv) == cons(
                head,
                emissions_spec(e0 + 1, next_k as int, *rule, *bound, cv, pv),
            ));
            match emissions_spec(e0 + 1, next_k as int, *rule, *bound, cv, pv) {
                Ok(s) => assert(before + (seq![head] + s) =~= before.push(head) + s),
                Err(_) => {},
            }
        }
        k = next_k;
        e = e + 1;
    }
    proof {
        assert(emissions_view(acc@) + Seq::<EmissionView>::empty() =~= emissions_view(acc@));
    }
    Ok(Ok(acc))
}


/// The sum of `f` over `s`.
pub open spec fn sum_of<T>(s: Seq<T>, f: spec_fn(T) -> int) -> int
    decreases s.len(),
{
    if s.len() == 0 {
        0
    } else {
        sum_of(s.drop_last(), f) + f(s.last())
    }
}

pub(crate) proof fn lemma_sum_nonneg<T>(s: Seq<T>, f: spec_fn(T) -> int)
    requires
        forall|x: T| #[trigger] f(x) >= 0,
    ensures
        sum_of(s, f) >= 0,
    decreases s.len(),
{
    if s.len() > 0 {
        lemma_sum_nonneg(s.drop_last(), f);
    }
}

/// An emission's share of the conversion budgets: one declaration and one
/// unit of work, and one of each per roll of a modifier.
pub open spec fn emission_charge(e: ItemEmission) -> int {
    1 + match e {
        ItemEmission::Modifier { rolls, .. } => rolls@.len() as int,
        _ => 0,
    }
}

pub(crate) proof fn lemma_sum_step<T>(s: Seq<T>, f: spec_fn(T) -> int, i: int)
    requires
        0 <= i < s.len(),
    ensures
        sum_of(s.take(i + 1), f) == sum_of(s.take(i), f) + f(s[i]),
{
    assert(s.take(i + 1).drop_last() =~= s.take(i));
}

pub(crate) proof fn lemma_sum_mono<T>(s: Seq<T>, f: spec_fn(T) -> int, i: int, j: int)
    requires
        0 <= i <= j <= s.len(),
        forall|x: T| #[trigger] f(x) >= 0,
    ensures
        sum_of(s.take(i), f) <= sum_of(s.take(j), f),
    decreases j - i,
{
    if i < j {
        lemma_sum_mono(s, f, i, j - 1);
        lemma_sum_step(s, f, j - 1);
    }
}

/// `n + 1`, saturating at the largest `usize`.
pub open spec fn plus_one_sat(n: int) -> int {
    if n + 1 > usize::MAX {
        usize::MAX as int
    } else {
        n + 1
    }
}

/// How many property facts one property lookup compares against.
pub open spec fn property_comparisons(props: Option<Vec<PropertyFact>>) -> int {
    match props {
        Some(p) => if p@.len() == 0 {
            1
        } else {
            p@.len() as int
        },
        None => 1,
    }
}

/// The work one roll's value plan is charged: a numeric lexical property
/// charges its capture lookup and the scan of the captured text, a property
/// its comparisons.
pub open spec fn roll_cost(v: ItemLineValue, caps: Seq<(Seq<u8>, Seq<u8>)>, comparisons: int) -> int {
    match v {
        ItemLineValue::NumericLexicalProperty { capture, .. } => caps.len() * plus_one_sat(capture@.len() as int) * 2
            + match captured(caps, capture@) {
            Some(t) => plus_one_sat(t.len() as int),
            None => 1,
        },
        ItemLineValue::Property { property } => comparisons * plus_one_sat(property@.len() as int),
        _ => 0,
    }
}

/// The work one emission plan is charged: one unit, and for a modifier one
/// unit per roll and each roll's own cost.
pub open spec fn plan_cost(e: ItemEmission, caps: Seq<(Seq<u8>, Seq<u8>)>, comparisons: int) -> int {
    1 + match e {
        ItemEmission::Modifier { rolls, .. } => rolls@.len() + sum_of(
            rolls@,
            |r: ItemRoll| roll_cost(r.value, caps, comparisons),
        ),
        _ => 0,
    }
}

pub open spec fn plans_cost(rule: ItemLineRule, caps: Seq<(Seq<u8>, Seq<u8>)>, comparisons: int) -> int {
    sum_of(rule.emissions@, |e: ItemEmission| plan_cost(e, caps, comparisons))
}

proof fn lemma_roll_cost_nonnegative(v: ItemLineValue, caps: Seq<(Seq<u8>, Seq<u8>)>, comparisons: int)
    requires
        comparisons >= 1,
    ensures
        roll_cost(v, caps, comparisons) >= 0,
{
    match v {
        ItemLineValue::NumericLexicalProperty { capture, .. } => {
            let a = caps.len() as int;
            let b = plus_one_sat(capture@.len() as int);
            assert(a * b * 2 >= 0) by (nonlinear_arith)
                requires
                    a >= 0,
                    b >= 0,
            ;
        },
        ItemLineValue::Property { property } => {
            let b = plus_one_sat(property@.len() as int);
            assert(comparisons * b >= 0) by (nonlinear_arith)
                requires
                    comparisons >= 1,
                    b >= 0,
            ;
        },
        _ => {},
    }
}

proof fn lemma_plan_cost_positive(e: ItemEmission, caps: Seq<(Seq<u8>, Seq<u8>)>, comparisons: int)
    requires
        comparisons >= 1,
    ensures
        plan_cost(e, caps, comparisons) >= 1,
{
    if let ItemEmission::Modifier { rolls, .. } = e {
        let f = |r: ItemRoll| roll_cost(r.value, caps, comparisons);
        assert forall|x: ItemRoll| #[trigger] f(x) >= 0 by {
            lemma_roll_cost_nonnegative(x.value, caps, comparisons);
        }
        lemma_sum_mono(rolls@, f, 0, rolls@.len() as int);
        assert(rolls@.take(rolls@.len() as int) =~= rolls@);
        assert(rolls@.take(0) =~= Seq::<ItemRoll>::empty());
    }
}

/// Charge the bounded lookups an emission plan will make, before any decoding.
fn charge_plans(
    rule: &ItemLineRule,
    caps: &Vec<CapturedText>,
    props: &Option<Vec<PropertyFact>>,
    work: &mut usize,
) -> (r: Result<(), ItemLineError>)
    ensures
        r is Ok <==> plans_cost(*rule, captures_view(caps@), property_comparisons(*props)) <= *old(work),
        r is Ok ==> *final(work) == *old(work) - plans_cost(*rule, captures_view(caps@), property_comparisons(*props)),
        r matches Err(e) ==> e == ItemLineError::Limit(ItemLineBudget::Work),
        *final(work) <= *old(work),
{
    let comparisons: usize = match props {
        Some(p) => if p.len() == 0 {
            1
        } else {
            p.len()
        },
        None => 1,
    };
    let ghost cv = captures_view(caps@);
    let ghost es = rule.emissions@;
    let ghost pf = |x: ItemEmission| plan_cost(x, cv, comparisons as int);
    let ghost total = plans_cost(*rule, cv, comparisons as int);
    proof {
        assert forall|x: ItemEmission| #[trigger] pf(x) >= 0 by {
            lemma_plan_cost_positive(x, cv, comparisons as int);
        }
        assert(es.take(0) =~= Seq::<ItemEmission>::empty());
        assert(es.take(es.len() as int) =~= es);
    }
    let mut e: usize = 0;
    while e < rule.emissions.len()
        invariant
            e <= rule.emissions@.len(),
            es == rule.emissions@,
            cv == captures_view(caps@),
            comparisons as int == property_comparisons(*props),
            comparisons >= 1,
            pf == (|x: ItemEmission| plan_cost(x, cv, comparisons as int)),
            forall|x: ItemEmission| #[trigger] pf(x) >= 0,
            total == sum_of(es, pf),
            total == plans_cost(*rule, captures_view(caps@), property_comparisons(*props)),
            es.take(es.len() as int) == es,
            0 <= sum_of(es.take(e as int), pf) <= *old(work),
            *work == *old(work) - sum_of(es.take(e as int), pf),
        decreases rule.emissions@.len() - e,
    {
        let ghost spent = sum_of(es.take(e as int), pf);
        proof {
            lemma_sum_step(es, pf, e as int);
            lemma_sum_mono(es, pf, e as int + 1, es.len() as int);
            lemma_sum_mono(es, pf, e as int, e as int + 1);
            lemma_plan_cost_positive(es[e as int], cv, comparisons as int);
        }
        spend(work, 1, ItemLineBudget::Work)?;
        if let ItemEmission::Modifier { rolls, .. } = &rule.emissions[e] {
            let ghost rf = |x: ItemRoll| roll_cost(x.value, cv, comparisons as int);
            proof {
                assert forall|x: ItemRoll| #[trigger] rf(x) >= 0 by {
                    lemma_roll_cost_nonnegative(x.value, cv, comparisons as int);
                }
                assert(rolls@.take(rolls@.len() as int) =~= rolls@);
                assert(rolls@.take(0) =~= Seq::<ItemRoll>::empty());
                lemma_sum_mono(rolls@, rf, 0, rolls@.len() as int);
            }
            spend(work, rolls.len(), ItemLineBudget::Work)?;
            let mut r: usize = 0;
            while r < rolls.len()
                invariant
                    r <= rolls@.len(),
                    cv == captures_view(caps@),
                    comparisons >= 1,
                    rf == (|x: ItemRoll| roll_cost(x.value, cv, comparisons as int)),
                    forall|x: ItemRoll| #[trigger] rf(x) >= 0,
                    rolls@.take(rolls@.len() as int) == rolls@,
                    spent + 1 + rolls@.len() + sum_of(rolls@, rf) <= total,
                    spent >= 0,
                    sum_of(rolls@.take(r as int), rf) >= 0,
                    spent + 1 + rolls@.len() + sum_of(rolls@.take(r as int), rf) <= *old(work),
                    *work == *old(work) - (spent + 1 + rolls@.len() + sum_of(rolls@.take(r as int), rf)),
                    total == sum_of(es, pf),
                    total == plans_cost(*rule, captures_view(caps@), property_comparisons(*props)),
                decreases rolls@.len() - r,
            {
                proof {
                    lemma_sum_step(rolls@, rf, r as int);
                    lemma_sum_mono(rolls@, rf, r as int + 1, rolls@.len() as int);
                    lemma_sum_mono(rolls@, rf, r as int, r as int + 1);
                }
                let ghost cost = rf(rolls@[r as int]);
                match &rolls[r].value {
                    ItemLineValue::NumericLexicalProperty { capture, .. } => {
                        let lookup = match caps.len().checked_mul(capture.len().saturating_add(1)) {
                            Some(n) => n.checked_mul(2),
                            None => None,
                        };
                        let ghost scan_cost: int = match captured(cv, capture@) {
                            Some(t) => plus_one_sat(t.len() as int),
                            None => 1,
                        };
                        proof {
                            let a = caps@.len() as int;
                            let b = plus_one_sat(capture@.len() as int);
                            assert(cost == a * b * 2 + scan_cost);
                            assert(scan_cost >= 1);
                            assert(a * b >= 0) by (nonlinear_arith)
                                requires
                                    a >= 0,
                                    b >= 0,
                            ;
                        }
                        match lookup {
                            Some(n) => spend(work, n, ItemLineBudget::Work)?,
                            None => {
                                proof {
                                    let a = caps@.len() as int;
                                    let b = plus_one_sat(capture@.len() as int);
                                    assert(a * b * 2 > usize::MAX);
                                }
                                return Err(ItemLineError::Limit(ItemLineBudget::Work));
                            },
                        }
                        let scan = match find_captured(caps, capture.as_slice()) {
                            Some(t) => t.len().saturating_add(1),
                            None => 1,
                        };
                        spend(work, scan, ItemLineBudget::Work)?;
                    },
                    ItemLineValue::Property { property } => {
                        proof {
                            let b = plus_one_sat(property@.len() as int);
                            assert(cost == comparisons * b);
                        }
                        match comparisons.checked_mul(property.len().saturating_add(1)) {
                            Some(n) => spend(work, n, ItemLineBudget::Work)?,
                            None => {
                                assert(cost > usize::MAX);
                                return Err(ItemLineError::Limit(ItemLineBudget::Work));
                            },
                        }
                    },
                    _ => {},
                }
                r = r + 1;
            }
            proof {
                assert(sum_of(es.take(e as int + 1), pf) == spent + 1 + rolls@.len() + sum_of(rolls@, rf));
            }
        }
        e = e + 1;
    }
    Ok(())
}

/// The work an input constraint is charged: one unit, and one per member of
/// an option set.
pub open spec fn constraint_cost(c: Option<ValueSchema>) -> int {
    match c {
        Some(ValueSchema::Option { allowed }) => 1 + allowed.members@.len() as int,
        Some(_) => 1,
        None => 0,
    }
}

/// Charge one unit per input constraint, plus the members of option sets.
fn charge_constraints(bound: &BoundRule, work: &mut usize) -> (r: Result<(), ItemLineError>)
    ensures
        r is Ok <==> sum_of(bound.constraints@, |c: Option<ValueSchema>| constraint_cost(c)) <= *old(work),
        r is Ok ==> *final(work) == *old(work) - sum_of(bound.constraints@, |c: Option<ValueSchema>| constraint_cost(c)),
        r matches Err(e) ==> e == ItemLineError::Limit(ItemLineBudget::Work),
        *final(work) <= *old(work),
{
    let ghost cs = bound.constraints@;
    let ghost f = |c: Option<ValueSchema>| constraint_cost(c);
    proof {
        assert(cs.take(0) =~= Seq::<Option<ValueSchema>>::empty());
        assert(cs.take(cs.len() as int) =~= cs);
    }
    let mut c: usize = 0;
    while c < bound.constraints.len()
        invariant
            c <= bound.constraints@.len(),
            cs == bound.constraints@,
            f == (|c: Option<ValueSchema>| constraint_cost(c)),
            cs.take(cs.len() as int) == cs,
            0 <= sum_of(cs.take(c as int), f) <= *old(work),
            *work == *old(work) - sum_of(cs.take(c as int), f),
        decreases bound.constraints@.len() - c,
    {
        proof {
            assert forall|x: Option<ValueSchema>| #[trigger] f(x) >= 0 by {}
            lemma_sum_step(cs, f, c as int);
            lemma_sum_mono(cs, f, c as int + 1, cs.len() as int);
            lemma_sum_mono(cs, f, c as int, c as int + 1);
        }
        if let Some(schema) = &bound.constraints[c] {
            spend(work, 1, ItemLineBudget::Work)?;
            if let ValueSchema::Option { allowed } = schema {
                spend(work, allowed.members.len(), ItemLineBudget::Work)?;
            }
        }
        c = c + 1;
    }
    Ok(())
}

/// The supplied facts of a line, none when it supplies none.
pub open spec fn facts(props: Option<Vec<PropertyFact>>) -> Seq<PropertyFact> {
    match props {
        Some(p) => p@,
        None => seq![],
    }
}

/// Source bytes a line is charged: its text, and each supplied property's
/// name with a separator.
pub open spec fn line_bytes(input: ItemLineInput) -> int {
    input.text@.len() + sum_of(facts(input.properties), |f: PropertyFact| plus_one_sat(f.property@.len() as int))
}

/// What resolving a line may charge is never negative.
pub(crate) proof fn lemma_line_charges_nonneg(
    input: ItemLinePolicyInput,
    bound: Seq<BoundRule>,
    text: Seq<u8>,
    props: Option<Vec<PropertyFact>>,
)
    ensures
        resolved_work(input, bound, text, props) >= 0,
        resolved_output(input, text) >= matched_upto(
            input.rules@,
            line_text(input, text),
            input.rules@.len() as int,
        ).len(),
{
    let ef = |e: ItemEmission| emission_charge(e);
    assert forall|x: ItemEmission| #[trigger] ef(x) >= 0 by {}
    let t = line_text(input, text);
    let m = matched_upto(input.rules@, t, input.rules@.len() as int);
    if m.len() == 1 {
        let rule = input.rules@[m[0]];
        lemma_sum_nonneg(rule.emissions@, ef);
        if let MatchShape::Unique(caps) = rule_shape(rule, t) {
            let comps = property_comparisons(props);
            let pf = |e: ItemEmission| plan_cost(e, caps, comps);
            assert forall|x: ItemEmission| #[trigger] pf(x) >= 0 by {
                lemma_plan_cost_positive(x, caps, comps);
            }
            lemma_sum_nonneg(rule.emissions@, pf);
            let df = |c: ItemCapture| decode_charge(c, caps);
            assert forall|x: ItemCapture| #[trigger] df(x) >= 0 by {}
            lemma_sum_nonneg(rule.captures@, df);
            let cf = |c: Option<ValueSchema>| constraint_cost(c);
            assert forall|x: Option<ValueSchema>| #[trigger] cf(x) >= 0 by {}
            lemma_sum_nonneg(bound[m[0]].constraints@, cf);
        }
    }
}

/// Work the supplied facts are charged: one unit each, and each name's length.
pub open spec fn facts_work(props: Option<Vec<PropertyFact>>) -> int {
    facts(props).len() + sum_of(facts(props), |f: PropertyFact| f.property@.len() as int)
}

/// Work matching every rule against the text the patterns see consumes.
pub open spec fn matching_work(rules: Seq<ItemLineRule>, t: Seq<u8>) -> int {
    sum_of(rules, |r: ItemLineRule| walk_cost(pattern_view(r.pattern@), 0, t, 0) as int)
}

/// Work decoding a value capture is charged: its captured text and one unit.
pub open spec fn decode_charge(c: ItemCapture, caps: Seq<(Seq<u8>, Seq<u8>)>) -> int {
    match c.codec {
        ItemCaptureCodec::Value(_) => match captured(caps, c.id@) {
            Some(t) => plus_one_sat(t.len() as int),
            None => 0,
        },
        ItemCaptureCodec::OpaqueText => 0,
    }
}

/// Work resolving the values of a single uniquely matched rule may take:
/// its value plans, the decoding of every value capture, its input
/// constraints and its emissions. Nothing when no single rule matched.
pub open spec fn resolved_work(
    input: ItemLinePolicyInput,
    bound: Seq<BoundRule>,
    text: Seq<u8>,
    props: Option<Vec<PropertyFact>>,
) -> int {
    let t = line_text(input, text);
    let m = matched_upto(input.rules@, t, input.rules@.len() as int);
    if m.len() == 1 {
        let rule = input.rules@[m[0]];
        match rule_shape(rule, t) {
            MatchShape::Unique(caps) => plans_cost(rule, caps, property_comparisons(props)) + sum_of(
                rule.captures@,
                |c: ItemCapture| decode_charge(c, caps),
            ) + sum_of(bound[m[0]].constraints@, |c: Option<ValueSchema>| constraint_cost(c)) + sum_of(
                rule.emissions@,
                |e: ItemEmission| emission_charge(e),
            ),
            _ => 0,
        }
    } else {
        0
    }
}

/// Output declarations the matched rules may take: one per candidate, and
/// the emissions of a single matched rule.
pub open spec fn resolved_output(input: ItemLinePolicyInput, text: Seq<u8>) -> int {
    let t = line_text(input, text);
    let m = matched_upto(input.rules@, t, input.rules@.len() as int);
    m.len() + if m.len() == 1 {
        sum_of(input.rules@[m[0]].emissions@, |e: ItemEmission| emission_charge(e))
    } else {
        0
    }
}

/// Work matching one rule against source text is charged: each capture's
/// name, trimming where the policy trims, and the walk of the pattern.
pub open spec fn source_capture_work(input: ItemLinePolicyInput, rule: ItemLineRule, text: Seq<u8>) -> int {
    sum_of(rule.captures@, |c: ItemCapture| plus_one_sat(c.id@.len() as int)) + match input.whitespace {
        WhitespacePolicy::Exact => 0,
        WhitespacePolicy::TrimAscii => text.len() as int,
    } + walk_cost(pattern_view(rule.pattern@), 0, line_text(input, text), 0) as int
}

/// Work converting one line may take.
pub open spec fn line_work(input: ItemLinePolicyInput, bound: Seq<BoundRule>, line: ItemLineInput) -> int {
    facts_work(line.properties) + matching_work(input.rules@, line_text(input, line.text@)) + resolved_work(
        input,
        bound,
        line.text@,
        line.properties,
    )
}

/// Output declarations converting one line may take.
pub open spec fn line_output(input: ItemLinePolicyInput, line: ItemLineInput) -> int {
    facts(line.properties).len() + resolved_output(input, line.text@)
}

fn pending_line(input: &ItemLineInput, reason: ItemLinePending, candidates: Vec<Vec<u8>>) -> (r: ItemLineEvidence)
    ensures
        r.index == input.index,
        r.text@ == input.text@,
        r.outcome@ == (OutcomeView::Pending { reason: reason@, candidates: keys_view(candidates@) }),
{
    ItemLineEvidence {
        index: input.index,
        text: copy_bytes(input.text.as_slice()),
        outcome: ItemLineOutcome::Pending { reason, candidates },
    }
}

impl OwnedItemLinePolicy {
    /// Convert one line, charging the shared budgets. Supplied facts are charged
    /// before any matching; a line is matched against every rule and a malformed
    /// matched value never falls through to another rule.
    #[verifier::loop_isolation(false)]
    #[verifier::spinoff_prover]
    #[verifier::rlimit(80)]
    pub(crate) fn line(&self, input: &ItemLineInput, work: &mut usize, output: &mut usize, bytes: &mut usize) -> (r:
        Result<ItemLineEvidence, ItemLineError>)
        ensures
            r matches Ok(ev) ==> {
                &&& ev.index == input.index
                &&& ev.text@ == input.text@
                &&& ev.outcome@ == outcome_spec(
                    self.spec_input(),
                    self.spec_rules(),
                    input.text@,
                    props_view(input.properties),
                )
            },
            input.index == 0 ==> r is Err,
            r matches Err(ItemLineError::LineOrder) ==> input.index == 0,
            input.index != 0 && input.text@.len() > self.spec_limits().max_line_bytes ==> r is Err,
            r matches Err(e) ==> (e matches ItemLineError::LineOrder || e matches ItemLineError::Limit(_)),
            input.text@.len() > *old(bytes) ==> r == Err::<ItemLineEvidence, ItemLineError>(
                ItemLineError::Limit(ItemLineBudget::SourceBytes),
            ),
            input.properties is None && input.text@.len() <= *old(bytes) ==> {
                &&& *final(bytes) == *old(bytes) - input.text@.len()
                &&& input.index == 0 ==> r == Err::<ItemLineEvidence, ItemLineError>(ItemLineError::LineOrder)
                &&& input.index != 0 && input.text@.len() > self.spec_limits().max_line_bytes ==> r == Err::<
                    ItemLineEvidence,
                    ItemLineError,
                >(ItemLineError::Limit(ItemLineBudget::LineBytes))
                &&& input.index != 0 && input.text@.len() <= self.spec_limits().max_line_bytes && (contains_byte(
                    input.text@,
                    0x0Au8,
                ) || contains_byte(input.text@, 0x0Du8)) ==> r is Ok
            },
            input.index != 0 && input.text@.len() <= self.spec_limits().max_line_bytes && line_bytes(*input)
                <= *old(bytes) && line_output(self.spec_input(), *input) <= *old(output) && line_work(
                self.spec_input(),
                self.spec_rules(),
                *input,
            ) <= *old(work) ==> r is Ok,
            r is Ok ==> *old(work) - *final(work) <= line_work(self.spec_input(), self.spec_rules(), *input),
            r is Ok ==> *old(output) - *final(output) <= line_output(self.spec_input(), *input),
            r is Ok ==> *final(bytes) == *old(bytes) - line_bytes(*input),
            *final(work) <= *old(work),
            *final(output) <= *old(output),
            *final(bytes) <= *old(bytes),
    {
        proof {
            use_type_invariant(self);
        }
        let ghost w0 = *work as int;
        let ghost o0 = *output as int;
        let ghost b0 = *bytes as int;
        let ghost pin = self.spec_input();
        let ghost tt = line_text(pin, input.text@);
        let ghost fs = facts(input.properties);
        let ghost fl = |f: PropertyFact| f.property@.len() as int;
        let ghost fb = |f: PropertyFact| plus_one_sat(f.property@.len() as int);
        let ghost mw = |r: ItemLineRule| walk_cost(pattern_view(r.pattern@), 0, tt, 0) as int;
        proof {
            assert forall|x: PropertyFact| #[trigger] fl(x) >= 0 by {}
            assert forall|x: PropertyFact| #[trigger] fb(x) >= 0 by {}
            assert forall|x: ItemLineRule| #[trigger] mw(x) >= 0 by {}
            lemma_sum_nonneg(fs, fl);
            lemma_sum_nonneg(fs, fb);
            lemma_sum_nonneg(pin.rules@, mw);
            lemma_line_charges_nonneg(pin, self.spec_rules(), input.text@, input.properties);
            assert(fs.take(0) =~= Seq::<PropertyFact>::empty());
            assert(fs.take(fs.len() as int) =~= fs);
            assert(pin.rules@.take(0) =~= Seq::<ItemLineRule>::empty());
            assert(pin.rules@.take(pin.rules@.len() as int) =~= pin.rules@);
        }
        spend(bytes, input.text.len(), ItemLineBudget::SourceBytes)?;
        if let Some(props) = &input.properties {
            spend(output, props.len(), ItemLineBudget::OutputDeclarations)?;
            spend(work, props.len(), ItemLineBudget::Work)?;
            let mut k: usize = 0;
            while k < props.len()
                invariant
                    k <= props@.len(),
                    fs == props@,
                    0 <= sum_of(fs.take(k as int), fl) <= sum_of(fs, fl),
                    0 <= sum_of(fs.take(k as int), fb) <= sum_of(fs, fb),
                    *work == w0 - fs.len() - sum_of(fs.take(k as int), fl),
                    *bytes == b0 - input.text@.len() - sum_of(fs.take(k as int), fb),
                    *work <= *old(work),
                    *bytes <= *old(bytes),
                decreases props@.len() - k,
            {
                proof {
                    lemma_sum_step(fs, fl, k as int);
                    lemma_sum_step(fs, fb, k as int);
                    lemma_sum_mono(fs, fl, k as int + 1, fs.len() as int);
                    lemma_sum_mono(fs, fb, k as int + 1, fs.len() as int);
                }
                spend(work, props[k].property.len(), ItemLineBudget::Work)?;
                spend(bytes, props[k].property.len().saturating_add(1), ItemLineBudget::SourceBytes)?;
                k = k + 1;
            }
        }
        let ghost w1 = *work as int;
        assert(w1 == w0 - facts_work(input.properties));
        assert(*bytes == b0 - line_bytes(*input));
        assert(*output == o0 - fs.len());
        if input.index == 0 {
            return Err(ItemLineError::LineOrder);
        }
        if input.text.len() > self.limits.max_line_bytes {
            return Err(ItemLineError::Limit(ItemLineBudget::LineBytes));
        }
        if contains_byte_exec(input.text.as_slice(), 0x0Au8) || contains_byte_exec(input.text.as_slice(), 0x0Du8) {
            let none: Vec<Vec<u8>> = Vec::new();
            assert(keys_view(none@) =~= seq![]);
            return Ok(pending_line(input, ItemLinePending::UnsupportedLineLayout, none));
        }
        let t: &[u8] = match self.input.whitespace {
            WhitespacePolicy::Exact => input.text.as_slice(),
            WhitespacePolicy::TrimAscii => trim_ascii_exec(input.text.as_slice()),
        };
        let ghost rules = self.input.rules@;
        let mut matches: Vec<(usize, RuleMatch)> = Vec::new();
        let mut candidates: Vec<Vec<u8>> = Vec::new();
        let mut i: usize = 0;
        while i < self.input.rules.len()
            invariant
                i <= rules.len(),
                rules == self.input.rules@,
                t@ == line_text(self.input, input.text@),
                matches@.len() == matched_upto(rules, t@, i as int).len(),
                candidates@.len() == matches@.len(),
                forall|j: int| 0 <= j < matches@.len() ==> candidates@[j]@ == rules[matches@[j].0 as int].id@,
                forall|j: int|
                    0 <= j < matches@.len() ==> {
                        &&& matches@[j].0 as int == matched_upto(rules, t@, i as int)[j]
                        &&& matches@[j].0 < i
                        &&& rule_match_shape(matches@[j].1) == rule_shape(rules[matches@[j].0 as int], t@)
                    },
                *work <= *old(work),
                tt == t@,
                0 <= sum_of(rules.take(i as int), mw) <= sum_of(rules, mw),
                *work == w1 - sum_of(rules.take(i as int), mw),
            decreases rules.len() - i,
        {
            proof {
                lemma_sum_step(rules, mw, i as int);
                lemma_sum_mono(rules, mw, i as int + 1, rules.len() as int);
                lemma_walk_cost(pattern_view(rules[i as int].pattern@), 0, t@, 0, *work as nat, seq![]);
            }
            let ghost w0 = *work as nat;
            let m = match match_rule(&self.input.rules[i].pattern, t, work) {
                Ok(m) => m,
                Err(b) => {
                    return Err(ItemLineError::Limit(b));
                },
            };
            proof {
                lemma_shape_from(pattern_view(rules[i as int].pattern@), 0, t@, 0, w0, seq![]);
                assert(rule_match_shape(m) == rule_shape(rules[i as int], t@));
            }
            let ghost prev = matched_upto(rules, t@, i as int);
            if let RuleMatch::No = m {
                assert(matched_upto(rules, t@, i + 1) == prev);
            } else {
                assert(matched_upto(rules, t@, i + 1) == prev.push(i as int));
                let ghost mm = m;
                candidates.push(copy_bytes(self.input.rules[i].id.as_slice()));
                matches.push((i, m));
                assert(matches@.last().1 == mm);
                assert(rule_match_shape(matches@.last().1) == rule_shape(rules[i as int], t@));
                assert(matches@.last().0 == i);
            }
            assert(forall|j: int| 0 <= j < matches@.len() ==> matches@[j].0 as int == matched_upto(rules, t@, i + 1)[j]);
            assert(forall|j: int| 0 <= j < matches@.len() ==> matches@[j].0 <= i);
            i = i + 1;
        }
        let ghost ms = matched_upto(rules, t@, rules.len() as int);
        if matches.len() == 0 {
            let none: Vec<Vec<u8>> = Vec::new();
            assert(keys_view(none@) =~= seq![]);
            return Ok(pending_line(input, ItemLinePending::UnknownLine, none));
        }
        spend(output, matches.len(), ItemLineBudget::OutputDeclarations)?;
        assert(keys_view(candidates@) =~= ms.map_values(|q: int| rules[q].id@));
        if matches.len() != 1 {
            return Ok(pending_line(input, ItemLinePending::AmbiguousRules, candidates));
        }
        let index = matches[0].0;
        let rule = &self.input.rules[index];
        let caps = match &matches[0].1 {
            RuleMatch::Unique(c) => c,
            _ => {
                return Ok(pending_line(input, ItemLinePending::AmbiguousCapture, candidates));
            },
        };
        let ghost cv = captures_view(caps@);
        assert(rule_shape(*rule, t@) == MatchShape::Unique(cv));
        let ghost ri = index as int;
        let ghost caps_list = rule.captures@;
        let ghost df = |c: ItemCapture| decode_charge(c, cv);
        let ghost cf = |c: Option<ValueSchema>| constraint_cost(c);
        let ghost ef = |e: ItemEmission| emission_charge(e);
        proof {
            assert(ms.len() == 1 && ms[0] == ri);
            assert(resolved_work(pin, self.spec_rules(), input.text@, input.properties) == plans_cost(
                *rule,
                cv,
                property_comparisons(input.properties),
            ) + sum_of(caps_list, df) + sum_of(self.spec_rules()[ri].constraints@, cf) + sum_of(rule.emissions@, ef));
            assert(resolved_output(pin, input.text@) == 1 + sum_of(rule.emissions@, ef));
            assert forall|x: ItemCapture| #[trigger] df(x) >= 0 by {}
            assert forall|x: Option<ValueSchema>| #[trigger] cf(x) >= 0 by {}
            assert forall|x: ItemEmission| #[trigger] ef(x) >= 0 by {}
            lemma_sum_nonneg(caps_list, df);
            lemma_sum_nonneg(self.spec_rules()[ri].constraints@, cf);
            lemma_sum_nonneg(rule.emissions@, ef);
            assert(caps_list.take(0) =~= Seq::<ItemCapture>::empty());
            assert(caps_list.take(caps_list.len() as int) =~= caps_list);
        }
        charge_plans(rule, caps, &input.properties, work)?;
        let ghost w2 = *work as int;
        let mut c: usize = 0;
        while c < rule.captures.len()
            invariant
                c <= rule.captures@.len(),
                cv == captures_view(caps@),
                malformed_from(*rule, cv, 0) == malformed_from(*rule, cv, c as int),
                *work <= *old(work),
                caps_list == rule.captures@,
                0 <= sum_of(caps_list.take(c as int), df) <= sum_of(caps_list, df),
                *work == w2 - sum_of(caps_list.take(c as int), df),
            decreases rule.captures@.len() - c,
        {
            proof {
                lemma_sum_step(caps_list, df, c as int);
                lemma_sum_mono(caps_list, df, c as int + 1, caps_list.len() as int);
            }
            if let ItemCaptureCodec::Value(v) = &rule.captures[c].codec {
                match find_captured(caps, rule.captures[c].id.as_slice()) {
                    None => {
                        let id = copy_bytes(rule.captures[c].id.as_slice());
                        return Ok(pending_line(input, ItemLinePending::MalformedCapture { capture: id }, candidates));
                    },
                    Some(raw) => {
                        spend(work, raw.len().saturating_add(1), ItemLineBudget::Work)?;
                        if decode(&v.codec, raw.as_slice()).is_none() {
                            let id = copy_bytes(rule.captures[c].id.as_slice());
                            return Ok(pending_line(input, ItemLinePending::MalformedCapture { capture: id }, candidates));
                        }
                    },
                }
            }
            c = c + 1;
        }
        let bound = &self.rules[index];
        assert(bound.constraints@ == self.spec_rules()[ri].constraints@);
        if let Some(p) = &bound.pending {
            return Ok(pending_line(input, p.duplicate(), candidates));
        }
        charge_constraints(bound, work)?;
        match convert_emissions(rule, bound, caps, &input.properties, work, output)? {
            Ok(es) => Ok(ItemLineEvidence {
                index: input.index,
                text: copy_bytes(input.text.as_slice()),
                outcome: ItemLineOutcome::Known { rule: copy_bytes(rule.id.as_slice()), emissions: es },
            }),
            Err(p) => Ok(pending_line(input, p, candidates)),
        }
    }

    /// Match the rule at `rule_index` against source text with the checked
    /// matcher, keeping the captured spelling undecoded.
    pub fn source_rule_captures(&self, rule_index: usize, text: &[u8], work: &mut usize, output: &mut usize) -> (r: Result<
        Option<Vec<CapturedText>>,
        ItemLineError,
    >)
        ensures
            rule_index >= self.spec_input().rules@.len() ==> r matches Err(ItemLineError::Binding),
            rule_index < self.spec_input().rules@.len() && text@.len() > self.spec_limits().max_line_bytes ==> r matches Err(
                ItemLineError::Limit(ItemLineBudget::LineBytes),
            ),
            r matches Ok(c) ==> rule_index < self.spec_input().rules@.len() && match rule_shape(
                self.spec_input().rules@[rule_index as int],
                line_text(self.spec_input(), text@),
            ) {
                MatchShape::Unique(caps) => c matches Some(v) && captures_view(v@) == caps,
                _ => c is None,
            },
            r matches Err(e) ==> (e matches ItemLineError::Binding || e matches ItemLineError::Limit(_)),
            rule_index < self.spec_input().rules@.len() && text@.len() <= self.spec_limits().max_line_bytes
                && self.spec_input().rules@[rule_index as int].captures@.len() <= *old(output) && source_capture_work(
                self.spec_input(),
                self.spec_input().rules@[rule_index as int],
                text@,
            ) <= *old(work) ==> r is Ok,
            *final(work) <= *old(work),
            *final(output) <= *old(output),
    {
        if rule_index >= self.input.rules.len() {
            return Err(ItemLineError::Binding);
        }
        let rule = &self.input.rules[rule_index];
        if text.len() > self.limits.max_line_bytes {
            return Err(ItemLineError::Limit(ItemLineBudget::LineBytes));
        }
        spend(output, rule.captures.len(), ItemLineBudget::OutputDeclarations)?;
        let ghost cs = rule.captures@;
        let ghost cf = |c: ItemCapture| plus_one_sat(c.id@.len() as int);
        let ghost rest: int = match self.input.whitespace {
            WhitespacePolicy::Exact => 0,
            WhitespacePolicy::TrimAscii => text@.len() as int,
        } + walk_cost(pattern_view(rule.pattern@), 0, line_text(self.input, text@), 0) as int;
        proof {
            assert forall|x: ItemCapture| #[trigger] cf(x) >= 0 by {}
            assert(cs.take(0) =~= Seq::<ItemCapture>::empty());
            assert(cs.take(cs.len() as int) =~= cs);
            assert(source_capture_work(self.input, *rule, text@) == sum_of(cs, cf) + rest);
            lemma_sum_nonneg(cs, cf);
        }
        let mut k: usize = 0;
        while k < rule.captures.len()
            invariant
                k <= rule.captures@.len(),
                rule_index < self.spec_input().rules@.len(),
                text@.len() <= self.spec_limits().max_line_bytes,
                *work <= *old(work),
                *output <= *old(output),
                cs == rule.captures@,
                self.spec_input().rules@[rule_index as int] == *rule,
                self.input == self.spec_input(),
                cs.take(cs.len() as int) == cs,
                cf == (|c: ItemCapture| plus_one_sat(c.id@.len() as int)),
                forall|x: ItemCapture| #[trigger] cf(x) >= 0,
                rest >= 0,
                source_capture_work(self.input, *rule, text@) == sum_of(cs, cf) + rest,
                0 <= sum_of(cs.take(k as int), cf) <= sum_of(cs, cf),
                *work == *old(work) - sum_of(cs.take(k as int), cf),
            decreases rule.captures@.len() - k,
        {
            proof {
                lemma_sum_step(cs, cf, k as int);
                lemma_sum_mono(cs, cf, k as int + 1, cs.len() as int);
            }
            let n = rule.captures[k].id.len().saturating_add(1);
            assert(n == cf(cs[k as int]));
            spend(work, n, ItemLineBudget::Work)?;
            k = k + 1;
        }
        let t: &[u8] = match self.input.whitespace {
            WhitespacePolicy::Exact => text,
            WhitespacePolicy::TrimAscii => {
                spend(work, text.len(), ItemLineBudget::Work)?;
                trim_ascii_exec(text)
            },
        };
        assert(t@ == line_text(self.input, text@));
        let ghost w0 = *work as nat;
        proof {
            lemma_walk_cost(pattern_view(rule.pattern@), 0, t@, 0, w0, seq![]);
        }
        let m = match match_rule(&rule.pattern, t, work) {
            Ok(m) => m,
            Err(b) => {
                return Err(ItemLineError::Limit(b));
            },
        };
        proof {
            lemma_shape_from(pattern_view(rule.pattern@), 0, t@, 0, w0, seq![]);
            assert(rule_match_shape(m) == rule_shape(*rule, t@));
        }
        match m {
            RuleMatch::Unique(c) => Ok(Some(c)),
            _ => Ok(None),
        }
    }

    /// Convert one line with the caller's shared work and output budgets.
    pub fn probe_source_line(&self, index: usize, text: Vec<u8>, work: &mut usize, output: &mut usize) -> (r: Result<
        ItemLineEvidence,
        ItemLineError,
    >)
        ensures
            r matches Ok(ev) ==> {
                &&& ev.index == index
                &&& ev.text@ == text@
                &&& ev.outcome@ == outcome_spec(self.spec_input(), self.spec_rules(), text@, None)
            },
            index == 0 ==> r is Err,
            index != 0 && text@.len() > self.spec_limits().max_line_bytes ==> r is Err,
            r matches Err(e) ==> (e matches ItemLineError::LineOrder || e matches ItemLineError::Limit(_)),
            index != 0 && text@.len() <= self.spec_limits().max_line_bytes && text@.len()
                <= self.spec_limits().max_source_bytes && resolved_output(self.spec_input(), text@) <= *old(output)
                && matching_work(self.spec_input().rules@, line_text(self.spec_input(), text@)) + resolved_work(
                self.spec_input(),
                self.spec_rules(),
                text@,
                None,
            ) <= *old(work) ==> r is Ok,
            *final(work) <= *old(work),
            *final(output) <= *old(output),
    {
        let mut bytes = self.limits.max_source_bytes;
        let ghost tv = text@;
        let input = ItemLineInput { index, text, properties: None };
        proof {
            let z = |f: PropertyFact| plus_one_sat(f.property@.len() as int);
            let zl = |f: PropertyFact| f.property@.len() as int;
            assert(sum_of(Seq::<PropertyFact>::empty(), z) == 0);
            assert(sum_of(Seq::<PropertyFact>::empty(), zl) == 0);
            assert(line_bytes(input) == tv.len());
            assert(facts_work(input.properties) == 0);
            assert(line_output(self.spec_input(), input) == resolved_output(self.spec_input(), tv));
        }
        self.line(&input, work, output, &mut bytes)
    }
}

} // verus!
