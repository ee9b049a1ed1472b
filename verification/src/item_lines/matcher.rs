//! Left-to-right pattern matching with an explicit work budget. A free capture
//! extends to the next literal delimiter, which must then occur exactly once.
use super::{ItemLineBudget, ItemNumericSign, ItemNumericSyntax, ItemPatternPart, PatternPartView, charged, pattern_view, sat_add};
use crate::text::{copy_bytes, find_from, find_from_exec, is_ascii_digit, is_prefix, occurs_at, starts_with};
use vstd::prelude::*;
use vstd::slice::slice_subrange;

verus! {

/// One captured source token.
#[derive(Debug)]
pub struct CapturedText {
    pub id: Vec<u8>,
    pub text: Vec<u8>,
}

/// Result of matching one rule against one line.
#[derive(Debug)]
pub enum RuleMatch {
    No,
    Unique(Vec<CapturedText>),
    Ambiguous,
}

/// Specification-level outcome, including the work left over.
pub enum MatchOutcome {
    Exhausted,
    No { work: nat },
    Unique { captures: Seq<(Seq<u8>, Seq<u8>)>, work: nat },
    Ambiguous { work: nat },
}

pub open spec fn captures_view(c: Seq<CapturedText>) -> Seq<(Seq<u8>, Seq<u8>)> {
    c.map_values(|x: CapturedText| (x.id@, x.text@))
}

/// Length of the run of ASCII digits starting at `i`.
pub open spec fn digit_run(s: Seq<u8>, i: int) -> nat
    decreases s.len() - i,
{
    if 0 <= i < s.len() && is_ascii_digit(s[i]) {
        1 + digit_run(s, i + 1)
    } else {
        0
    }
}

/// Length of the longest numeric token at the start of `s`, if any.
pub open spec fn numeric_prefix(s: Seq<u8>, syntax: ItemNumericSyntax) -> Option<nat> {
    let sign: nat = if s.len() > 0 && (s[0] == 0x2Bu8 || s[0] == 0x2Du8) {
        1
    } else {
        0
    };
    let digits = digit_run(s, sign as int);
    if digits == 0 {
        None
    } else {
        let base = sign + digits;
        match syntax {
            ItemNumericSyntax::Integer => Some(base),
            ItemNumericSyntax::Decimal => {
                if base < s.len() && s[base as int] == 0x2Eu8 && digit_run(s, base + 1 as int) > 0 {
                    Some(base + 1 + digit_run(s, base + 1 as int))
                } else {
                    Some(base)
                }
            },
        }
    }
}

/// A sign that the numeric capture does not admit starts the remaining text.
pub open spec fn sign_rejects(sign: ItemNumericSign, rem: Seq<u8>) -> bool {
    rem.len() > 0 && match sign {
        ItemNumericSign::Forbidden => rem[0] == 0x2Bu8 || rem[0] == 0x2Du8,
        ItemNumericSign::OptionalMinus => rem[0] == 0x2Bu8,
    }
}

/// Offset after which a second, non-overlapping delimiter is searched.
pub open spec fn search_step(next: Seq<u8>) -> nat {
    if next.len() == 0 {
        1
    } else {
        next.len()
    }
}

/// Match `parts[i..]` against `text[pos..]` with `work` left and `caps` so far.
pub open spec fn match_from(
    parts: Seq<PatternPartView>,
    i: int,
    text: Seq<u8>,
    pos: int,
    work: nat,
    caps: Seq<(Seq<u8>, Seq<u8>)>,
) -> MatchOutcome
    decreases parts.len() - i,
{
    if i < 0 || pos < 0 || pos > text.len() {
        MatchOutcome::No { work }
    } else if i >= parts.len() {
        if pos == text.len() {
            MatchOutcome::Unique { captures: caps, work }
        } else {
            MatchOutcome::No { work }
        }
    } else {
        let rem = text.subrange(pos, text.len() as int);
        match charged(work, 1) {
            None => MatchOutcome::Exhausted,
            Some(w) => match parts[i] {
                PatternPartView::Literal(lit) => {
                    let cost = sat_add(if lit.len() < rem.len() { lit.len() } else { rem.len() }, 1);
                    match charged(w, cost) {
                        None => MatchOutcome::Exhausted,
                        Some(w2) => if is_prefix(lit, rem) {
                            match_from(parts, i + 1, text, pos + lit.len(), w2, caps)
                        } else {
                            MatchOutcome::No { work: w2 }
                        },
                    }
                },
                PatternPartView::NumericCapture { capture, syntax, sign } => {
                    match charged(w, sat_add(rem.len(), 1)) {
                        None => MatchOutcome::Exhausted,
                        Some(w2) => if sign_rejects(sign, rem) {
                            MatchOutcome::No { work: w2 }
                        } else {
                            match numeric_prefix(rem, syntax) {
                                None => MatchOutcome::No { work: w2 },
                                Some(len) => match_from(
                                    parts,
                                    i + 1,
                                    text,
                                    pos + len,
                                    w2,
                                    caps.push((capture, rem.subrange(0, len as int))),
                                ),
                            }
                        },
                    }
                },
                PatternPartView::Capture(id) => {
                    if i + 1 < parts.len() && parts[i + 1] is Literal {
                        let next = parts[i + 1]->Literal_0;
                        match charged(w, sat_add(rem.len(), next.len())) {
                            None => MatchOutcome::Exhausted,
                            Some(w2) => match find_from(rem, next, 0) {
                                None => MatchOutcome::No { work: w2 },
                                Some(first) => if find_from(
                                    rem,
                                    next,
                                    first + search_step(next),
                                ) is Some {
                                    MatchOutcome::Ambiguous { work: w2 }
                                } else {
                                    match_from(
                                        parts,
                                        i + 1,
                                        text,
                                        pos + first,
                                        w2,
                                        caps.push((id, rem.subrange(0, first))),
                                    )
                                },
                            },
                        }
                    } else {
                        match_from(parts, i + 1, text, text.len() as int, w, caps.push((id, rem)))
                    }
                },
            },
        }
    }
}

/// The work the walk of `match_from` consumes when its budget never runs out.
pub open spec fn walk_cost(parts: Seq<PatternPartView>, i: int, text: Seq<u8>, pos: int) -> nat
    decreases parts.len() - i,
{
    if i < 0 || pos < 0 || pos > text.len() || i >= parts.len() {
        0
    } else {
        let rem = text.subrange(pos, text.len() as int);
        match parts[i] {
            PatternPartView::Literal(lit) => 1 + sat_add(
                if lit.len() < rem.len() {
                    lit.len()
                } else {
                    rem.len()
                },
                1,
            ) + if is_prefix(lit, rem) {
                walk_cost(parts, i + 1, text, pos + lit.len())
            } else {
                0
            },
            PatternPartView::NumericCapture { syntax, sign, .. } => 1 + sat_add(rem.len(), 1) + if sign_rejects(
                sign,
                rem,
            ) {
                0
            } else {
                match numeric_prefix(rem, syntax) {
                    None => 0,
                    Some(len) => walk_cost(parts, i + 1, text, pos + len),
                }
            },
            PatternPartView::Capture(_) => if i + 1 < parts.len() && parts[i + 1] is Literal {
                let next = parts[i + 1]->Literal_0;
                1 + sat_add(rem.len(), next.len()) + match find_from(rem, next, 0) {
                    None => 0,
                    Some(first) => if find_from(rem, next, first + search_step(next)) is Some {
                        0
                    } else {
                        walk_cost(parts, i + 1, text, pos + first)
                    },
                }
            } else {
                1 + walk_cost(parts, i + 1, text, text.len() as int)
            },
        }
    }
}

/// The work an outcome leaves over.
pub open spec fn outcome_work(o: MatchOutcome) -> nat {
    match o {
        MatchOutcome::Exhausted => 0,
        MatchOutcome::No { work } => work,
        MatchOutcome::Unique { work, .. } => work,
        MatchOutcome::Ambiguous { work } => work,
    }
}

/// Matching runs out of work exactly when its walk costs more than the
/// budget, and otherwise leaves the budget less the walk's cost.
pub proof fn lemma_walk_cost(
    parts: Seq<PatternPartView>,
    i: int,
    text: Seq<u8>,
    pos: int,
    work: nat,
    caps: Seq<(Seq<u8>, Seq<u8>)>,
)
    ensures
        match_from(parts, i, text, pos, work, caps) is Exhausted <==> walk_cost(parts, i, text, pos) > work,
        !(match_from(parts, i, text, pos, work, caps) is Exhausted) ==> outcome_work(
            match_from(parts, i, text, pos, work, caps),
        ) == work - walk_cost(parts, i, text, pos),
    decreases parts.len() - i,
{
    if i < 0 || pos < 0 || pos > text.len() || i >= parts.len() {
    } else if work >= 1 {
        let rem = text.subrange(pos, text.len() as int);
        let w = (work - 1) as nat;
        match parts[i] {
            PatternPartView::Literal(lit) => {
                let cost = sat_add(
                    if lit.len() < rem.len() {
                        lit.len()
                    } else {
                        rem.len()
                    },
                    1,
                );
                if cost <= w && is_prefix(lit, rem) {
                    lemma_walk_cost(parts, i + 1, text, pos + lit.len(), (w - cost) as nat, caps);
                }
            },
            PatternPartView::NumericCapture { capture, syntax, sign } => {
                let cost = sat_add(rem.len(), 1);
                if cost <= w && !sign_rejects(sign, rem) {
                    if let Some(len) = numeric_prefix(rem, syntax) {
                        lemma_walk_cost(
                            parts,
                            i + 1,
                            text,
                            pos + len,
                            (w - cost) as nat,
                            caps.push((capture, rem.subrange(0, len as int))),
                        );
                    }
                }
            },
            PatternPartView::Capture(id) => {
                if i + 1 < parts.len() && parts[i + 1] is Literal {
                    let next = parts[i + 1]->Literal_0;
                    let cost = sat_add(rem.len(), next.len());
                    if cost <= w {
                        if let Some(first) = find_from(rem, next, 0) {
                            if find_from(rem, next, first + search_step(next)) is None {
                                lemma_walk_cost(
                                    parts,
                                    i + 1,
                                    text,
                                    pos + first,
                                    (w - cost) as nat,
                                    caps.push((id, rem.subrange(0, first))),
                                );
                            }
                        }
                    }
                } else {
                    lemma_walk_cost(parts, i + 1, text, text.len() as int, w, caps.push((id, rem)));
                }
            },
        }
    }
}

/// The outcome of matching a whole pattern against a whole line.
pub open spec fn match_rule_spec(parts: Seq<PatternPartView>, text: Seq<u8>, work: nat) -> MatchOutcome {
    match_from(parts, 0, text, 0, work, seq![])
}

/// What matching decides, apart from the work it spends.
pub enum MatchShape {
    No,
    Unique(Seq<(Seq<u8>, Seq<u8>)>),
    Ambiguous,
}

/// The same walk as `match_from`, without any budget.
pub open spec fn shape_from(
    parts: Seq<PatternPartView>,
    i: int,
    text: Seq<u8>,
    pos: int,
    caps: Seq<(Seq<u8>, Seq<u8>)>,
) -> MatchShape
    decreases parts.len() - i,
{
    if i < 0 || pos < 0 || pos > text.len() {
        MatchShape::No
    } else if i >= parts.len() {
        if pos == text.len() {
            MatchShape::Unique(caps)
        } else {
            MatchShape::No
        }
    } else {
        let rem = text.subrange(pos, text.len() as int);
        match parts[i] {
            PatternPartView::Literal(lit) => if is_prefix(lit, rem) {
                shape_from(parts, i + 1, text, pos + lit.len(), caps)
            } else {
                MatchShape::No
            },
            PatternPartView::NumericCapture { capture, syntax, sign } => if sign_rejects(sign, rem) {
                MatchShape::No
            } else {
                match numeric_prefix(rem, syntax) {
                    None => MatchShape::No,
                    Some(len) => shape_from(
                        parts,
                        i + 1,
                        text,
                        pos + len,
                        caps.push((capture, rem.subrange(0, len as int))),
                    ),
                }
            },
            PatternPartView::Capture(id) => {
                if i + 1 < parts.len() && parts[i + 1] is Literal {
                    let next = parts[i + 1]->Literal_0;
                    match find_from(rem, next, 0) {
                        None => MatchShape::No,
                        Some(first) => if find_from(rem, next, first + search_step(next)) is Some {
                            MatchShape::Ambiguous
                        } else {
                            shape_from(parts, i + 1, text, pos + first, caps.push((id, rem.subrange(0, first))))
                        },
                    }
                } else {
                    shape_from(parts, i + 1, text, text.len() as int, caps.push((id, rem)))
                }
            },
        }
    }
}

/// Whether and how a whole pattern matches a whole line.
pub open spec fn match_shape(parts: Seq<PatternPartView>, text: Seq<u8>) -> MatchShape {
    shape_from(parts, 0, text, 0, seq![])
}

pub open spec fn outcome_shape(o: MatchOutcome) -> MatchShape {
    match o {
        MatchOutcome::Unique { captures, .. } => MatchShape::Unique(captures),
        MatchOutcome::Ambiguous { .. } => MatchShape::Ambiguous,
        _ => MatchShape::No,
    }
}

pub open spec fn rule_match_shape(m: RuleMatch) -> MatchShape {
    match m {
        RuleMatch::No => MatchShape::No,
        RuleMatch::Unique(c) => MatchShape::Unique(captures_view(c@)),
        RuleMatch::Ambiguous => MatchShape::Ambiguous,
    }
}

/// The work budget decides only whether matching finishes, never its result.
pub proof fn lemma_shape_from(
    parts: Seq<PatternPartView>,
    i: int,
    text: Seq<u8>,
    pos: int,
    work: nat,
    caps: Seq<(Seq<u8>, Seq<u8>)>,
)
    ensures
        !(match_from(parts, i, text, pos, work, caps) is Exhausted) ==> outcome_shape(
            match_from(parts, i, text, pos, work, caps),
        ) == shape_from(parts, i, text, pos, caps),
    decreases parts.len() - i,
{
    if i < 0 || pos < 0 || pos > text.len() {
    } else if i >= parts.len() {
    } else {
        let rem = text.subrange(pos, text.len() as int);
        match charged(work, 1) {
            None => {},
            Some(w) => match parts[i] {
                PatternPartView::Literal(lit) => {
                    let cost = sat_add(if lit.len() < rem.len() { lit.len() } else { rem.len() }, 1);
                    match charged(w, cost) {
                        None => {},
                        Some(w2) => if is_prefix(lit, rem) {
                            lemma_shape_from(parts, i + 1, text, pos + lit.len(), w2, caps);
                        },
                    }
                },
                PatternPartView::NumericCapture { capture, syntax, sign } => {
                    match charged(w, sat_add(rem.len(), 1)) {
                        None => {},
                        Some(w2) => if !sign_rejects(sign, rem) {
                            match numeric_prefix(rem, syntax) {
                                None => {},
                                Some(len) => lemma_shape_from(
                                    parts,
                                    i + 1,
                                    text,
                                    pos + len,
                                    w2,
                                    caps.push((capture, rem.subrange(0, len as int))),
                                ),
                            }
                        },
                    }
                },
                PatternPartView::Capture(id) => {
                    if i + 1 < parts.len() && parts[i + 1] is Literal {
                        let next = parts[i + 1]->Literal_0;
                        match charged(w, sat_add(rem.len(), next.len())) {
                            None => {},
                            Some(w2) => match find_from(rem, next, 0) {
                                None => {},
                                Some(first) => if !(find_from(rem, next, first + search_step(next)) is Some) {
                                    lemma_shape_from(
                                        parts,
                                        i + 1,
                                        text,
                                        pos + first,
                                        w2,
                                        caps.push((id, rem.subrange(0, first))),
                                    );
                                },
                            },
                        }
                    } else {
                        lemma_shape_from(parts, i + 1, text, text.len() as int, w, caps.push((id, rem)));
                    }
                },
            },
        }
    }
}

proof fn lemma_digit_run_bound(s: Seq<u8>, i: int)
    requires
        0 <= i <= s.len(),
    ensures
        i + digit_run(s, i) <= s.len(),
    decreases s.len() - i,
{
    if i < s.len() && is_ascii_digit(s[i]) {
        lemma_digit_run_bound(s, i + 1);
    }
}

proof fn lemma_find_from_bound(hay: Seq<u8>, needle: Seq<u8>, from: int)
    ensures
        find_from(hay, needle, from) matches Some(k) ==> from <= k && occurs_at(hay, needle, k),
    decreases hay.len() + 1 - from,
{
    if from >= 0 && from <= hay.len() && !occurs_at(hay, needle, from) {
        lemma_find_from_bound(hay, needle, from + 1);
    }
}

fn digit_run_exec(s: &[u8], i: usize) -> (r: usize)
    requires
        i <= s@.len(),
    ensures
        r == digit_run(s@, i as int),
        i + r <= s@.len(),
{
    let mut j: usize = i;
    while j < s.len() && 0x30u8 <= s[j] && s[j] <= 0x39u8
        invariant
            i <= j <= s@.len(),
            digit_run(s@, i as int) == (j - i) + digit_run(s@, j as int),
        decreases s@.len() - j,
    {
        j = j + 1;
    }
    proof {
        lemma_digit_run_bound(s@, i as int);
    }
    j - i
}

/// Length of the longest numeric token at the start of `s`.
pub fn numeric_prefix_length(s: &[u8], syntax: ItemNumericSyntax) -> (r: Option<usize>)
    ensures
        match r {
            Some(n) => numeric_prefix(s@, syntax) == Some(n as nat) && n <= s@.len(),
            None => numeric_prefix(s@, syntax) is None,
        },
{
    let sign: usize = if s.len() > 0 && (s[0] == 0x2Bu8 || s[0] == 0x2Du8) {
        1
    } else {
        0
    };
    let digits = digit_run_exec(s, sign);
    if digits == 0 {
        return None;
    }
    let base = sign + digits;
    match syntax {
        ItemNumericSyntax::Integer => Some(base),
        ItemNumericSyntax::Decimal => {
            if base < s.len() && s[base] == 0x2Eu8 {
                let fraction = digit_run_exec(s, base + 1);
                if fraction > 0 {
                    return Some(base + 1 + fraction);
                }
            }
            Some(base)
        },
    }
}

fn sign_rejects_exec(sign: ItemNumericSign, rem: &[u8]) -> (r: bool)
    ensures
        r == sign_rejects(sign, rem@),
{
    if rem.len() == 0 {
        return false;
    }
    match sign {
        ItemNumericSign::Forbidden => rem[0] == 0x2Bu8 || rem[0] == 0x2Du8,
        ItemNumericSign::OptionalMinus => rem[0] == 0x2Bu8,
    }
}

/// Match one rule pattern against one line, charging `work` before each step.
pub fn match_rule(pattern: &Vec<ItemPatternPart>, text: &[u8], work: &mut usize) -> (r: Result<
    RuleMatch,
    ItemLineBudget,
>)
    ensures
        match match_rule_spec(pattern_view(pattern@), text@, *old(work) as nat) {
            MatchOutcome::Exhausted => r == Err::<RuleMatch, ItemLineBudget>(ItemLineBudget::Work),
            MatchOutcome::No { work: w } => r matches Ok(RuleMatch::No) && *final(work) == w,
            MatchOutcome::Ambiguous { work: w } => r matches Ok(RuleMatch::Ambiguous) && *final(work)
                == w,
            MatchOutcome::Unique { captures, work: w } => r matches Ok(RuleMatch::Unique(c))
                && captures_view(c@) == captures && *final(work) == w,
        },
        *final(work) <= *old(work),
{
    let ghost parts = pattern_view(pattern@);
    let ghost start = *work as nat;
    let mut pos: usize = 0;
    let mut caps: Vec<CapturedText> = Vec::new();
    let mut i: usize = 0;
    assert(captures_view(caps@) =~= seq![]);
    while i < pattern.len()
        invariant
            parts == pattern_view(pattern@),
            start == *old(work) as nat,
            *work <= start,
            i <= pattern@.len(),
            pos <= text@.len(),
            match_rule_spec(parts, text@, start) == match_from(
                parts,
                i as int,
                text@,
                pos as int,
                *work as nat,
                captures_view(caps@),
            ),
        decreases pattern@.len() - i,
    {
        let ghost w0 = *work as nat;
        let ghost cv = captures_view(caps@);
        let rem = slice_subrange(text, pos, text.len());
        assert(rem@ == text@.subrange(pos as int, text@.len() as int));
        assert(parts.len() == pattern@.len());
        assert(parts[i as int] == pattern@[i as int]@);
        if 1 > *work {
            assert(charged(w0, 1) is None);
            assert(match_from(parts, i as int, text@, pos as int, w0, cv) is Exhausted);
            assert(match_rule_spec(parts, text@, start) == MatchOutcome::Exhausted);
            return Err(ItemLineBudget::Work);
        }
        *work = *work - 1;
        let ghost w1 = *work as nat;
        match &pattern[i] {
            ItemPatternPart::Literal(lit) => {
                let shorter = if lit.len() < rem.len() {
                    lit.len()
                } else {
                    rem.len()
                };
                let cost = shorter.saturating_add(1);
                if cost > *work {
                    assert(match_rule_spec(parts, text@, start) == MatchOutcome::Exhausted);
                    return Err(ItemLineBudget::Work);
                }
                *work = *work - cost;
                if !starts_with(rem, lit.as_slice()) {
                    assert(match_rule_spec(parts, text@, start) == MatchOutcome::No { work: *work as nat });
                    return Ok(RuleMatch::No);
                }
                pos = pos + lit.len();
            },
            ItemPatternPart::NumericCapture { capture, syntax, sign } => {
                let cost = rem.len().saturating_add(1);
                if cost > *work {
                    assert(match_rule_spec(parts, text@, start) == MatchOutcome::Exhausted);
                    return Err(ItemLineBudget::Work);
                }
                *work = *work - cost;
                if sign_rejects_exec(*sign, rem) {
                    assert(match_rule_spec(parts, text@, start) == MatchOutcome::No { work: *work as nat });
                    return Ok(RuleMatch::No);
                }
                let length = match numeric_prefix_length(rem, *syntax) {
                    Some(n) => n,
                    None => {
                        assert(match_rule_spec(parts, text@, start) == MatchOutcome::No { work: *work as nat });
                        return Ok(RuleMatch::No);
                    },
                };
                let token = copy_bytes(slice_subrange(rem, 0, length));
                caps.push(CapturedText { id: copy_bytes(capture.as_slice()), text: token });
                assert(captures_view(caps@) =~= cv.push((capture@, rem@.subrange(0, length as int))));
                pos = pos + length;
            },
            ItemPatternPart::Capture(id) => {
                let mut delimited = false;
                if i + 1 < pattern.len() {
                    if let ItemPatternPart::Literal(next) = &pattern[i + 1] {
                        delimited = true;
                        assert(parts[i + 1] == pattern@[i + 1]@);
                        let cost = rem.len().saturating_add(next.len());
                        if cost > *work {
                            assert(match_rule_spec(parts, text@, start) == MatchOutcome::Exhausted);
                            return Err(ItemLineBudget::Work);
                        }
                        *work = *work - cost;
                        let first = match find_from_exec(rem, next.as_slice(), 0) {
                            Some(f) => f,
                            None => {
                                assert(match_rule_spec(parts, text@, start) == MatchOutcome::No { work: *work as nat });
                                return Ok(RuleMatch::No);
                            },
                        };
                        proof {
                            lemma_find_from_bound(rem@, next@, 0);
                        }
                        let step: usize = if next.len() == 0 {
                            1
                        } else {
                            next.len()
                        };
                        if first <= rem.len() && step <= rem.len() - first {
                            if find_from_exec(rem, next.as_slice(), first + step).is_some() {
                                assert(match_rule_spec(parts, text@, start) == MatchOutcome::Ambiguous { work: *work as nat });
                                return Ok(RuleMatch::Ambiguous);
                            }
                        } else {
                            assert(find_from(rem@, next@, first + search_step(next@)) is None);
                        }
                        let token = copy_bytes(slice_subrange(rem, 0, first));
                        caps.push(CapturedText { id: copy_bytes(id.as_slice()), text: token });
                        assert(captures_view(caps@) =~= cv.push((id@, rem@.subrange(0, first as int))));
                        pos = pos + first;
                    }
                }
                if !delimited {
                    let token = copy_bytes(rem);
                    caps.push(CapturedText { id: copy_bytes(id.as_slice()), text: token });
                    assert(captures_view(caps@) =~= cv.push((id@, rem@)));
                    pos = text.len();
                }
            },
        }
        i = i + 1;
    }
    if pos == text.len() {
        Ok(RuleMatch::Unique(caps))
    } else {
        Ok(RuleMatch::No)
    }
}

} // verus!
