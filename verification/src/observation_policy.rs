//! Compilation of reviewed display observations into finite template
//! allowlists. A catalog base binds a template only through one exact,
//! capture-free header rule that is the template's only emitter; each
//! observation then lists, in canonical order, every bound template whose
//! base row supports its family.
use crate::gems::{lex_less, lex_lt};
use crate::item_lines::convert::{keys_view, sum_of, lemma_sum_step, lemma_sum_mono, lemma_sum_nonneg};
use crate::item_lines::schema::{metadata_only, shape_valid, rules_bind, rules_bind_cost, ItemLineSchema};
use crate::item_lines::{ItemEmission, ItemLineLimits, ItemLinePolicyInput, ItemLineRule, ItemPatternPart, OwnedItemLinePolicy};
use crate::item_source::{ItemRuleSourceLayout, ItemRuleSourceRole, ItemSourceLayoutPolicy, ItemSourceLayoutPolicyInput};
use crate::observations::{
    family_permits, validate_item_observation_catalog, catalog_ok, observation_policy_limits_valid,
    ItemObservationBaseRow, ItemObservationCatalog, ItemObservationFamily, ItemObservationPolicyError,
    ItemObservationPolicyLimits,
};
use crate::provenance::{SourceFilePin, SourcePin};
use crate::recipe::{hex_encode, hex_lower, sha256_digest, sha256_of};
use crate::release::{hashes_agree, merge_files, pin_files, sorted_by_path, union_view, lemma_lex_order, lemma_lex_transitive};
use crate::text::{bytes_eq, copy_bytes};
use vstd::prelude::*;

verus! {

/// The only observation request version this compiler reads.
pub const OWNED_ITEM_OBSERVATION_REQUEST_VERSION: u32 = 1;

/// One reviewed display observation: a new metadata-only rule, the semantic
/// field all its aliases share, and the family its templates must support.
#[derive(Debug)]
pub struct ItemObservationDeclaration {
    pub rule: ItemLineRule,
    pub field: Vec<u8>,
    pub family: ItemObservationFamily,
}

#[derive(Debug)]
pub struct ItemObservationPolicyRequest {
    pub schema_version: u32,
    pub version: Vec<u8>,
    /// Lowercase hex SHA-256 of the exact catalog bytes.
    pub catalog_sha256: Vec<u8>,
    pub observations: Vec<ItemObservationDeclaration>,
}

/// A derived preamble observation: its rule, field and template allowlist.
#[derive(Debug)]
pub struct ItemSourcePreambleObservation {
    pub rule: Vec<u8>,
    pub field: Vec<u8>,
    pub templates: Vec<Vec<u8>>,
}

// ---------------------------------------------------------------------------
// Exact base bindings.

/// The literal text of a rule whose pattern is one literal.
pub open spec fn exact_literal(r: ItemLineRule) -> Option<Seq<u8>> {
    if r.pattern@.len() == 1 {
        match r.pattern@[0] {
            ItemPatternPart::Literal(t) => Some(t@),
            _ => None,
        }
    } else {
        None
    }
}

/// Indices, ascending, of the first `n` rules that are exactly `text`.
pub open spec fn exact_matches(rules: Seq<ItemLineRule>, text: Seq<u8>, n: int) -> Seq<int>
    decreases n,
{
    if n <= 0 {
        seq![]
    } else if exact_literal(rules[n - 1]) == Some(text) {
        exact_matches(rules, text, n - 1).push(n - 1)
    } else {
        exact_matches(rules, text, n - 1)
    }
}

pub open spec fn is_template_of(e: ItemEmission, d: Seq<u8>) -> bool {
    match e {
        ItemEmission::Template { definition } => definition@ == d,
        _ => false,
    }
}

/// Template emissions of `d` among the first `n` emissions.
pub open spec fn emission_uses(es: Seq<ItemEmission>, d: Seq<u8>, n: int) -> nat
    decreases n,
{
    if n <= 0 {
        0
    } else {
        emission_uses(es, d, n - 1) + if is_template_of(es[n - 1], d) {
            1nat
        } else {
            0nat
        }
    }
}

/// Template emissions of `d` in the first `n` rules.
pub open spec fn template_uses(rules: Seq<ItemLineRule>, d: Seq<u8>, n: int) -> nat
    decreases n,
{
    if n <= 0 {
        0
    } else {
        template_uses(rules, d, n - 1) + emission_uses(rules[n - 1].emissions@, d, rules[n - 1].emissions@.len() as int)
    }
}

/// The role of the first layout, from `i` on, that names `id`.
pub open spec fn role_of(layouts: Seq<ItemRuleSourceLayout>, id: Seq<u8>, i: int) -> Option<ItemRuleSourceRole>
    decreases layouts.len() - i,
{
    if i < 0 || i >= layouts.len() {
        None
    } else if layouts[i].rule@ == id {
        Some(layouts[i].role)
    } else {
        role_of(layouts, id, i + 1)
    }
}

/// How a catalog base binds to the line policy.
pub enum BaseBinding {
    Unmatched,
    Bound(Seq<u8>),
    Ambiguous,
    NotOneTemplate,
    NotExactHeader,
}

/// The single template emitted by a rule, if it emits exactly one template.
pub open spec fn sole_template(r: ItemLineRule) -> Option<Seq<u8>> {
    if r.emissions@.len() == 1 {
        match r.emissions@[0] {
            ItemEmission::Template { definition } => Some(definition@),
            _ => None,
        }
    } else {
        None
    }
}

pub open spec fn base_binding(rules: Seq<ItemLineRule>, layouts: Seq<ItemRuleSourceLayout>, base: Seq<u8>) -> BaseBinding {
    let m = exact_matches(rules, base, rules.len() as int);
    if m.len() == 0 {
        BaseBinding::Unmatched
    } else if m.len() != 1 {
        BaseBinding::Ambiguous
    } else {
        let r = rules[m[0]];
        match sole_template(r) {
            None => BaseBinding::NotOneTemplate,
            Some(d) => if role_of(layouts, r.id@, 0) == Some(ItemRuleSourceRole::Header) && r.captures@.len() == 0
                && template_uses(rules, d, rules.len() as int) == 1 {
                BaseBinding::Bound(d)
            } else {
                BaseBinding::NotExactHeader
            },
        }
    }
}

/// Every one of the first `n` bases is either unmatched or bound.
pub open spec fn bases_bind(rules: Seq<ItemLineRule>, layouts: Seq<ItemRuleSourceLayout>, bases: Seq<ItemObservationBaseRow>, n: int) -> bool {
    forall|i: int|
        0 <= i < n ==> #[trigger] base_binding(rules, layouts, bases[i].source_base@) is Unmatched || base_binding(
            rules,
            layouts,
            bases[i].source_base@,
        ) is Bound
}

/// Number of bound bases among the first `n`.
pub open spec fn bound_count(rules: Seq<ItemLineRule>, layouts: Seq<ItemRuleSourceLayout>, bases: Seq<ItemObservationBaseRow>, n: int) -> nat
    decreases n,
{
    if n <= 0 {
        0
    } else {
        bound_count(rules, layouts, bases, n - 1) + if base_binding(rules, layouts, bases[n - 1].source_base@) is Bound {
            1nat
        } else {
            0nat
        }
    }
}

/// Templates bound by the first `n` bases whose rows support `f`.
pub open spec fn compatible_upto(
    rules: Seq<ItemLineRule>,
    layouts: Seq<ItemRuleSourceLayout>,
    bases: Seq<ItemObservationBaseRow>,
    f: ItemObservationFamily,
    n: int,
) -> Set<Seq<u8>>
    decreases n,
{
    if n <= 0 {
        Set::empty()
    } else {
        let prev = compatible_upto(rules, layouts, bases, f, n - 1);
        match base_binding(rules, layouts, bases[n - 1].source_base@) {
            BaseBinding::Bound(d) => if family_permits(f, bases[n - 1]) {
                prev.insert(d)
            } else {
                prev
            },
            _ => prev,
        }
    }
}

pub open spec fn compatible(
    rules: Seq<ItemLineRule>,
    layouts: Seq<ItemRuleSourceLayout>,
    bases: Seq<ItemObservationBaseRow>,
    f: ItemObservationFamily,
) -> Set<Seq<u8>> {
    compatible_upto(rules, layouts, bases, f, bases.len() as int)
}

/// Strictly ascending byte strings.
pub open spec fn sorted_keys(s: Seq<Seq<u8>>) -> bool {
    forall|i: int, j: int| 0 <= i < j < s.len() ==> lex_lt(#[trigger] s[i], #[trigger] s[j])
}

// ---------------------------------------------------------------------------
// Executable helpers.

fn literal_of(r: &ItemLineRule) -> (t: Option<&Vec<u8>>)
    ensures
        match t {
            Some(v) => exact_literal(*r) == Some(v@),
            None => exact_literal(*r) is None,
        },
{
    if r.pattern.len() == 1 {
        match &r.pattern[0] {
            ItemPatternPart::Literal(t) => Some(t),
            _ => None,
        }
    } else {
        None
    }
}

/// Number of rules that are exactly `text`, and the first of them.
fn exact_rule(rules: &Vec<ItemLineRule>, text: &[u8]) -> (r: (usize, usize))
    ensures
        r.0 == exact_matches(rules@, text@, rules@.len() as int).len(),
        r.0 > 0 ==> r.1 == exact_matches(rules@, text@, rules@.len() as int)[0],
{
    let mut count: usize = 0;
    let mut first: usize = 0;
    let mut k: usize = 0;
    while k < rules.len()
        invariant
            k <= rules@.len(),
            count == exact_matches(rules@, text@, k as int).len(),
            count <= k,
            count > 0 ==> first == exact_matches(rules@, text@, k as int)[0],
        decreases rules@.len() - k,
    {
        match literal_of(&rules[k]) {
            Some(t) => {
                if bytes_eq(t.as_slice(), text) {
                    if count == 0 {
                        first = k;
                    }
                    count = count + 1;
                }
            },
            None => {},
        }
        k = k + 1;
    }
    (count, first)
}

/// Whether `d` has exactly one template emission in the rules.
fn used_once(rules: &Vec<ItemLineRule>, d: &[u8]) -> (r: bool)
    ensures
        r == (template_uses(rules@, d@, rules@.len() as int) == 1),
{
    let mut seen: usize = 0;
    let mut k: usize = 0;
    while k < rules.len()
        invariant
            k <= rules@.len(),
            seen == if template_uses(rules@, d@, k as int) >= 2 {
                2
            } else {
                template_uses(rules@, d@, k as int)
            },
        decreases rules@.len() - k,
    {
        let es = &rules[k].emissions;
        let ghost before = template_uses(rules@, d@, k as int);
        let mut e: usize = 0;
        while e < es.len()
            invariant
                e <= es@.len(),
                es@ == rules@[k as int].emissions@,
                seen == if before + emission_uses(es@, d@, e as int) >= 2 {
                    2
                } else {
                    before + emission_uses(es@, d@, e as int)
                },
            decreases es@.len() - e,
        {
            let hit = match &es[e] {
                ItemEmission::Template { definition } => bytes_eq(definition.as_slice(), d),
                _ => false,
            };
            if hit && seen < 2 {
                seen = seen + 1;
            }
            e = e + 1;
        }
        k = k + 1;
    }
    seen == 1
}

/// The role of the first layout that names `id`.
fn role_lookup(layouts: &Vec<ItemRuleSourceLayout>, id: &[u8]) -> (r: Option<ItemRuleSourceRole>)
    ensures
        r == role_of(layouts@, id@, 0),
{
    let mut k: usize = 0;
    while k < layouts.len()
        invariant
            k <= layouts@.len(),
            role_of(layouts@, id@, 0) == role_of(layouts@, id@, k as int),
        decreases layouts@.len() - k,
    {
        if bytes_eq(layouts[k].rule.as_slice(), id) {
            return Some(layouts[k].role);
        }
        k = k + 1;
    }
    None
}

/// The executable form of a base binding: the bound rule's index.
enum BindingExec {
    Unmatched,
    Bound(usize),
    Ambiguous,
    NotOneTemplate,
    NotExactHeader,
}

fn bind_base(rules: &Vec<ItemLineRule>, layouts: &Vec<ItemRuleSourceLayout>, base: &[u8]) -> (r: BindingExec)
    ensures
        match r {
            BindingExec::Unmatched => base_binding(rules@, layouts@, base@) is Unmatched,
            BindingExec::Ambiguous => base_binding(rules@, layouts@, base@) is Ambiguous,
            BindingExec::NotOneTemplate => base_binding(rules@, layouts@, base@) is NotOneTemplate,
            BindingExec::NotExactHeader => base_binding(rules@, layouts@, base@) is NotExactHeader,
            BindingExec::Bound(i) => i < rules@.len() && sole_template(rules@[i as int]) is Some
                && base_binding(rules@, layouts@, base@) == BaseBinding::Bound(
                sole_template(rules@[i as int])->0,
            ),
        },
{
    let (count, first) = exact_rule(rules, base);
    if count == 0 {
        return BindingExec::Unmatched;
    }
    if count != 1 {
        return BindingExec::Ambiguous;
    }
    proof {
        let m = exact_matches(rules@, base@, rules@.len() as int);
        lemma_exact_matches_in_range(rules@, base@, rules@.len() as int);
        assert(m[0] == first);
    }
    let r = &rules[first];
    if r.emissions.len() != 1 {
        return BindingExec::NotOneTemplate;
    }
    let d = match &r.emissions[0] {
        ItemEmission::Template { definition } => definition,
        _ => {
            return BindingExec::NotOneTemplate;
        },
    };
    let role = role_lookup(layouts, r.id.as_slice());
    let header = match role {
        Some(ItemRuleSourceRole::Header) => true,
        _ => false,
    };
    if header && r.captures.len() == 0 && used_once(rules, d.as_slice()) {
        BindingExec::Bound(first)
    } else {
        BindingExec::NotExactHeader
    }
}

/// Insert `key` into a strictly ascending list, keeping it so.
fn insert_key(set: &mut Vec<Vec<u8>>, key: &[u8])
    requires
        sorted_keys(keys_view(old(set)@)),
    ensures
        sorted_keys(keys_view(final(set)@)),
        keys_view(final(set)@).to_set() == keys_view(old(set)@).to_set().insert(key@),
{
    let ghost before = keys_view(set@);
    let mut k: usize = 0;
    while k < set.len() && lex_less(set[k].as_slice(), key)
        invariant
            k <= set@.len(),
            before == keys_view(set@),
            set@ == old(set)@,
            sorted_keys(before),
            forall|q: int| 0 <= q < k ==> lex_lt(#[trigger] before[q], key@),
        decreases set@.len() - k,
    {
        k = k + 1;
    }
    if k < set.len() && bytes_eq(set[k].as_slice(), key) {
        proof {
            assert(before[k as int] == key@);
            assert(before.to_set() =~= before.to_set().insert(key@)) by {
                assert(before.to_set().contains(before[k as int]));
            }
        }
        return;
    }
    proof {
        if k < before.len() {
            lemma_lex_order(before[k as int], key@);
        }
        assert forall|q: int| k <= q < before.len() implies lex_lt(key@, #[trigger] before[q]) by {
            if q > k {
                lemma_lex_transitive(key@, before[k as int], before[q]);
            }
        }
    }
    set.insert(k, copy_bytes(key));
    proof {
        let after = keys_view(set@);
        assert(after =~= before.insert(k as int, key@));
        assert forall|i: int, j: int| 0 <= i < j < after.len() implies lex_lt(#[trigger] after[i], #[trigger] after[j]) by {
            if i < k && j > k {
                lemma_lex_transitive(before[i], key@, before[j - 1]);
            }
        }
        assert(after.to_set() =~= before.to_set().insert(key@)) by {
            assert forall|x| after.to_set().contains(x) <==> before.to_set().insert(key@).contains(x) by {
                if after.to_set().contains(x) {
                    let i = choose|i: int| 0 <= i < after.len() && after[i] == x;
                    if i < k {
                        assert(before[i] == x);
                    } else if i > k {
                        assert(before[i - 1] == x);
                    }
                }
                if before.to_set().contains(x) {
                    let i = choose|i: int| 0 <= i < before.len() && before[i] == x;
                    if i < k {
                        assert(after[i] == x);
                    } else {
                        assert(after[i + 1] == x);
                    }
                }
                if x == key@ {
                    assert(after[k as int] == x);
                }
            }
        }
    }
}

/// A copy of a list of byte strings.
fn copy_keys(keys: &Vec<Vec<u8>>) -> (r: Vec<Vec<u8>>)
    ensures
        keys_view(r@) == keys_view(keys@),
{
    let mut r: Vec<Vec<u8>> = Vec::new();
    let mut k: usize = 0;
    while k < keys.len()
        invariant
            k <= keys@.len(),
            r@.len() == k,
            keys_view(r@) == keys_view(keys@).take(k as int),
        decreases keys@.len() - k,
    {
        let ghost before = r@;
        let c = copy_bytes(keys[k].as_slice());
        r.push(c);
        proof {
            assert(r@ == before.push(c));
            assert forall|i: int| 0 <= i < k + 1 implies #[trigger] keys_view(r@)[i] == keys_view(keys@).take(k + 1)[i] by {
                if i < k {
                    assert(r@[i] == before[i]);
                    assert(keys_view(before)[i] == keys_view(keys@).take(k as int)[i]);
                } else {
                    assert(r@[i] == c);
                    assert(c@ == keys@[i]@);
                }
            }
            assert(keys_view(r@).len() == k + 1);
        }
        assert(keys_view(r@) =~= keys_view(keys@).take(k + 1));
        k = k + 1;
    }
    assert(keys_view(keys@).take(k as int) =~= keys_view(keys@));
    r
}

/// Floor of the binary logarithm of a positive number.
pub open spec fn log2(n: nat) -> nat
    decreases n,
{
    if n < 2 {
        0
    } else {
        1 + log2(n / 2)
    }
}

/// Comparisons charged for a search among `n` ordered entries.
pub open spec fn comparisons_spec(n: nat) -> nat {
    if n == 0 {
        1
    } else {
        log2(n) + 2
    }
}

proof fn lemma_log2_small(n: nat)
    requires
        n >= 1,
    ensures
        log2(n) <= n / 2,
    decreases n,
{
    if n >= 2 {
        lemma_log2_small(n / 2);
    }
}

fn comparisons(n: usize) -> (r: usize)
    ensures
        r == comparisons_spec(n as nat),
{
    if n == 0 {
        return 1;
    }
    let mut m: usize = n;
    let mut bits: usize = 0;
    proof {
        lemma_log2_small(n as nat);
    }
    while m >= 2
        invariant
            1 <= m <= n,
            bits + log2(m as nat) == log2(n as nat),
            log2(n as nat) <= n / 2,
        decreases m,
    {
        m = m / 2;
        bits = bits + 1;
    }
    bits + 2
}

fn charge(work: &mut usize, amount: usize) -> (r: Result<(), ItemObservationPolicyError>)
    ensures
        amount <= *old(work) ==> r is Ok && *final(work) == *old(work) - amount,
        amount > *old(work) ==> (r matches Err(ItemObservationPolicyError::Limit(_))) && *final(work) == *old(work),
{
    if amount <= *work {
        *work = *work - amount;
        Ok(())
    } else {
        Err(ItemObservationPolicyError::Limit("work"))
    }
}

/// Charge `a * b`, where a product beyond the machine word exceeds any budget.
fn charge_product(work: &mut usize, a: usize, b: usize) -> (r: Result<(), ItemObservationPolicyError>)
    ensures
        a * b <= *old(work) ==> r is Ok && *final(work) == *old(work) - a * b,
        a * b > *old(work) ==> (r matches Err(ItemObservationPolicyError::Limit(_))) && *final(work) == *old(work),
{
    match a.checked_mul(b) {
        Some(p) => charge(work, p),
        None => Err(ItemObservationPolicyError::Limit("work")),
    }
}

/// Work merging two source pins is charged: every file's path and digest,
/// against the positions of all the pinned files.
pub open spec fn merge_work(target: SourcePin, incoming: SourcePin) -> int {
    let per = comparisons_spec((target.files@.len() + incoming.files@.len()) as nat) as int;
    sum_of(target.files@, |f: SourceFilePin| (f.path@.len() + f.sha256@.len()) * per) + sum_of(
        incoming.files@,
        |f: SourceFilePin| (f.path@.len() + f.sha256@.len()) * per,
    )
}

/// Merge the catalog's source pin into the predecessor's: same system and
/// revision, and a path pinned twice must carry one digest. The result lists
/// each path once, ascending.
fn merge_source(target: &SourcePin, incoming: &SourcePin, work: &mut usize) -> (r: Result<SourcePin, ItemObservationPolicyError>)
    ensures
        r matches Ok(u) ==> {
            &&& u.system == target.system
            &&& u.revision@ == target.revision@
            &&& incoming.system == target.system
            &&& incoming.revision@ == target.revision@
            &&& hashes_agree(pin_files(*target) + pin_files(*incoming))
            &&& sorted_by_path(pin_files(u))
            &&& pin_files(u).to_set() == (pin_files(*target) + pin_files(*incoming)).to_set()
        },
        r matches Err(e) ==> e is Limit || (e is Binding && !(incoming.system == target.system
            && incoming.revision@ == target.revision@ && hashes_agree(pin_files(*target) + pin_files(*incoming)))),
        r is Ok ==> *final(work) == *old(work) - merge_work(*target, *incoming),
        incoming.system == target.system && incoming.revision@ == target.revision@ && hashes_agree(
            pin_files(*target) + pin_files(*incoming),
        ) && target.files@.len() + incoming.files@.len() <= usize::MAX && merge_work(*target, *incoming)
            <= *old(work) ==> r is Ok,
        *final(work) <= *old(work),
{
    if target.system != incoming.system || !bytes_eq(target.revision.as_slice(), incoming.revision.as_slice()) {
        return Err(ItemObservationPolicyError::Binding);
    }
    let count = match target.files.len().checked_add(incoming.files.len()) {
        Some(c) => c,
        None => {
            return Err(ItemObservationPolicyError::Limit("work"));
        },
    };
    let per = comparisons(count);
    let ghost tf = target.files@;
    let ghost inf = incoming.files@;
    let ghost g = |f: SourceFilePin| (f.path@.len() + f.sha256@.len()) * (per as int);
    proof {
        assert forall|x: SourceFilePin| #[trigger] g(x) >= x.path@.len() + x.sha256@.len() by {
            let a: int = (x.path@.len() + x.sha256@.len()) as int;
            assert(a * (per as int) >= a) by (nonlinear_arith)
                requires
                    a >= 0,
                    per >= 1,
            ;
        }
        assert forall|x: SourceFilePin| #[trigger] g(x) >= 0 by {
            assert(g(x) >= x.path@.len() + x.sha256@.len());
        }
        assert(tf.take(0) =~= Seq::<SourceFilePin>::empty());
        assert(tf.take(tf.len() as int) =~= tf);
        assert(inf.take(0) =~= Seq::<SourceFilePin>::empty());
        assert(inf.take(inf.len() as int) =~= inf);
        lemma_sum_nonneg(inf, g);
        assert(merge_work(*target, *incoming) == sum_of(tf, g) + sum_of(inf, g));
    }
    let mut k: usize = 0;
    while k < target.files.len()
        invariant
            *work <= *old(work),
            k <= tf.len(),
            tf == target.files@,
            tf.take(tf.len() as int) == tf,
            g == (|f: SourceFilePin| (f.path@.len() + f.sha256@.len()) * (per as int)),
            forall|x: SourceFilePin| #[trigger] g(x) >= x.path@.len() + x.sha256@.len(),
            forall|x: SourceFilePin| #[trigger] g(x) >= 0,
            0 <= sum_of(tf.take(k as int), g) <= *old(work),
            *work == *old(work) - sum_of(tf.take(k as int), g),
            sum_of(inf, g) >= 0,
            merge_work(*target, *incoming) == sum_of(tf, g) + sum_of(inf, g),
        decreases target.files@.len() - k,
    {
        proof {
            lemma_sum_step(tf, g, k as int);
            lemma_sum_mono(tf, g, k as int + 1, tf.len() as int);
        }
        let f = &target.files[k];
        assert(tf[k as int] == *f);
        match f.path.len().checked_add(f.sha256.len()) {
            Some(n) => charge_product(work, n, per)?,
            None => {
                return Err(ItemObservationPolicyError::Limit("work"));
            },
        }
        k = k + 1;
    }
    assert(inf.take(0) =~= Seq::<SourceFilePin>::empty());
    assert(tf.take(k as int) == tf);
    let mut k: usize = 0;
    while k < incoming.files.len()
        invariant
            *work <= *old(work),
            k <= inf.len(),
            inf == incoming.files@,
            inf.take(inf.len() as int) == inf,
            g == (|f: SourceFilePin| (f.path@.len() + f.sha256@.len()) * (per as int)),
            forall|x: SourceFilePin| #[trigger] g(x) >= x.path@.len() + x.sha256@.len(),
            forall|x: SourceFilePin| #[trigger] g(x) >= 0,
            0 <= sum_of(tf, g) + sum_of(inf.take(k as int), g) <= *old(work),
            *work == *old(work) - sum_of(tf, g) - sum_of(inf.take(k as int), g),
            merge_work(*target, *incoming) == sum_of(tf, g) + sum_of(inf, g),
            sum_of(tf, g) >= 0,
        decreases incoming.files@.len() - k,
    {
        proof {
            lemma_sum_step(inf, g, k as int);
            lemma_sum_mono(inf, g, k as int + 1, inf.len() as int);
        }
        let f = &incoming.files[k];
        assert(inf[k as int] == *f);
        match f.path.len().checked_add(f.sha256.len()) {
            Some(n) => charge_product(work, n, per)?,
            None => {
                return Err(ItemObservationPolicyError::Limit("work"));
            },
        }
        k = k + 1;
    }
    let mut union: Vec<crate::provenance::SourceFilePin> = Vec::new();
    let ghost empty: Seq<(Seq<u8>, Seq<u8>)> = seq![];
    proof {
        assert(union_view(union@) =~= empty);
        assert(union_view(target.files@) =~= pin_files(*target));
        assert(union_view(incoming.files@) =~= pin_files(*incoming));
        assert(empty + pin_files(*target) =~= pin_files(*target));
    }
    if !merge_files(&mut union, &target.files, Ghost(empty)) {
        proof {
            let a = pin_files(*target);
            let (i, j) = choose|i: int, j: int| 0 <= i < a.len() && 0 <= j < a.len() && #[trigger] a[i].0 == #[trigger] a[j].0 && a[i].1 != a[j].1;
            let all = pin_files(*target) + pin_files(*incoming);
            assert(all[i] == a[i] && all[j] == a[j]);
        }
        return Err(ItemObservationPolicyError::Binding);
    }
    if !merge_files(&mut union, &incoming.files, Ghost(pin_files(*target))) {
        return Err(ItemObservationPolicyError::Binding);
    }
    let u = SourcePin { system: target.system, revision: copy_bytes(target.revision.as_slice()), files: union };
    assert(pin_files(u) =~= union_view(u.files@));
    Ok(u)
}

// ---------------------------------------------------------------------------
// Declarations.

pub open spec fn declares_rule(rules: Seq<ItemLineRule>, id: Seq<u8>) -> bool {
    exists|k: int| 0 <= k < rules.len() && #[trigger] rules[k].id@ == id
}

/// Declaration `j` adds a new nonempty metadata-only rule, keeps the family
/// of earlier aliases of its field, and has a compatible template.
pub open spec fn declaration_ok(
    rules: Seq<ItemLineRule>,
    layouts: Seq<ItemRuleSourceLayout>,
    bases: Seq<ItemObservationBaseRow>,
    decls: Seq<ItemObservationDeclaration>,
    j: int,
) -> bool {
    let d = decls[j];
    &&& !declares_rule(rules, d.rule.id@)
    &&& forall|k: int| 0 <= k < j ==> (#[trigger] decls[k]).rule.id@ != d.rule.id@
    &&& d.rule.emissions@.len() > 0
    &&& metadata_only(d.rule)
    &&& forall|k: int| 0 <= k < j && (#[trigger] decls[k]).field@ == d.field@ ==> decls[k].family == d.family
    &&& compatible(rules, layouts, bases, d.family) != Set::<Seq<u8>>::empty()
}

/// Total template references of observations `from..from + n`.
pub open spec fn templates_total(obs: Seq<ItemSourcePreambleObservation>, from: int, n: int) -> nat
    decreases n,
{
    if n <= 0 {
        0
    } else {
        templates_total(obs, from, n - 1) + obs[from + n - 1].templates@.len()
    }
}

/// The additions staged for the line and source policies.
#[derive(Debug)]
pub struct StagedItemObservations {
    /// The successor line policy: the predecessor's rules followed by the
    /// new ones, checked against the schema.
    pub items: OwnedItemLinePolicy,
    /// Their source layouts, each unresolved.
    pub rule_layouts: Vec<ItemRuleSourceLayout>,
    /// The predecessor's observations followed by the new ones.
    pub observations: Vec<ItemSourcePreambleObservation>,
    /// The predecessor's source pin merged with the catalog's.
    pub source: SourcePin,
    pub catalog_sha256: Vec<u8>,
    pub catalog_bases: usize,
    pub exact_base_bindings: usize,
    pub added_observations: usize,
    pub added_template_references: usize,
    pub work_used: usize,
}

fn declares_rule_exec(rules: &Vec<ItemLineRule>, id: &[u8]) -> (r: bool)
    ensures
        r == declares_rule(rules@, id@),
{
    let mut k: usize = 0;
    while k < rules.len()
        invariant
            k <= rules@.len(),
            forall|q: int| 0 <= q < k ==> #[trigger] rules@[q].id@ != id@,
        decreases rules@.len() - k,
    {
        if bytes_eq(rules[k].id.as_slice(), id) {
            return true;
        }
        k = k + 1;
    }
    false
}

/// Check declaration `j` against the earlier ones; the compatible template
/// list of its family is passed in.
fn check_declaration(
    rules: &Vec<ItemLineRule>,
    decls: &Vec<ItemObservationDeclaration>,
    j: usize,
    templates: &Vec<Vec<u8>>,
    Ghost(layouts): Ghost<Seq<ItemRuleSourceLayout>>,
    Ghost(bases): Ghost<Seq<ItemObservationBaseRow>>,
) -> (r: Result<(), ItemObservationPolicyError>)
    requires
        j < decls@.len(),
        keys_view(templates@).to_set() == compatible(rules@, layouts, bases, decls@[j as int].family),
    ensures
        r is Ok <==> declaration_ok(rules@, layouts, bases, decls@, j as int),
        r is Err ==> r matches Err(ItemObservationPolicyError::Invalid(_)),
{
    let d = &decls[j];
    let ghost ds = decls@;
    let mut fresh = !declares_rule_exec(rules, d.rule.id.as_slice());
    let mut k: usize = 0;
    while k < j
        invariant
            k <= j < ds.len(),
            ds == decls@,
            *d == ds[j as int],
            fresh == (!declares_rule(rules@, ds[j as int].rule.id@) && forall|q: int|
                0 <= q < k ==> (#[trigger] ds[q]).rule.id@ != ds[j as int].rule.id@),
        decreases j - k,
    {
        let same = bytes_eq(decls[k].rule.id.as_slice(), d.rule.id.as_slice());
        assert(same == (ds[k as int].rule.id@ == ds[j as int].rule.id@));
        if same {
            fresh = false;
        }
        k = k + 1;
    }
    if !fresh || d.rule.emissions.len() == 0 || !crate::item_lines::schema::metadata_only_exec(&d.rule) {
        return Err(ItemObservationPolicyError::Invalid("observation needs a new nonempty metadata-only rule"));
    }
    let mut k: usize = 0;
    while k < j
        invariant
            k <= j < ds.len(),
            ds == decls@,
            *d == ds[j as int],
            forall|q: int| 0 <= q < k && (#[trigger] ds[q]).field@ == ds[j as int].field@ ==> ds[q].family == ds[j as int].family,
        decreases j - k,
    {
        let same = bytes_eq(decls[k].field.as_slice(), d.field.as_slice());
        assert(same == (ds[k as int].field@ == ds[j as int].field@));
        if same && decls[k].family != d.family {
            return Err(ItemObservationPolicyError::Invalid("observation field aliases use different families"));
        }
        k = k + 1;
    }
    if templates.len() == 0 {
        proof {
            assert(keys_view(templates@).to_set() =~= Set::<Seq<u8>>::empty());
        }
        return Err(ItemObservationPolicyError::Invalid("observation has no compatible exact template bindings"));
    }
    proof {
        assert(keys_view(templates@).to_set().contains(keys_view(templates@)[0]));
    }
    Ok(())
}

/// Templates bound to catalog bases, per family, each list ascending.
struct CompatibleTemplates {
    defences: Vec<Vec<u8>>,
    spirit: Vec<Vec<u8>>,
    charm_slots: Vec<Vec<u8>>,
}

spec fn family_list(c: CompatibleTemplates, f: ItemObservationFamily) -> Seq<Vec<u8>> {
    match f {
        ItemObservationFamily::Defences => c.defences@,
        ItemObservationFamily::Spirit => c.spirit@,
        ItemObservationFamily::CharmSlots => c.charm_slots@,
    }
}

spec fn lists_match(
    c: CompatibleTemplates,
    rules: Seq<ItemLineRule>,
    layouts: Seq<ItemRuleSourceLayout>,
    bases: Seq<ItemObservationBaseRow>,
    n: int,
) -> bool {
    forall|f: ItemObservationFamily|
        sorted_keys(keys_view(#[trigger] family_list(c, f))) && keys_view(family_list(c, f)).to_set()
            == compatible_upto(rules, layouts, bases, f, n)
}

fn family_templates(c: &CompatibleTemplates, f: ItemObservationFamily) -> (r: &Vec<Vec<u8>>)
    ensures
        r@ == family_list(*c, f),
{
    match f {
        ItemObservationFamily::Defences => &c.defences,
        ItemObservationFamily::Spirit => &c.spirit,
        ItemObservationFamily::CharmSlots => &c.charm_slots,
    }
}

/// Rule `i` is a single literal whose text no earlier rule has exactly.
pub open spec fn first_literal(rules: Seq<ItemLineRule>, i: int) -> bool {
    &&& exact_literal(rules[i]) is Some
    &&& forall|q: int| 0 <= q < i ==> #[trigger] exact_literal(rules[q]) != exact_literal(rules[i])
}

/// The number of distinct single-literal texts among the first `n` rules.
pub open spec fn distinct_literals(rules: Seq<ItemLineRule>, n: int) -> int
    decreases n,
{
    if n <= 0 {
        0
    } else {
        distinct_literals(rules, n - 1) + if first_literal(rules, n - 1) {
            1int
        } else {
            0int
        }
    }
}

/// Number of distinct texts of single-literal rules.
fn distinct_exact_texts(rules: &Vec<ItemLineRule>) -> (r: usize)
    ensures
        r == distinct_literals(rules@, rules@.len() as int),
        r <= rules@.len(),
{
    let mut count: usize = 0;
    let mut i: usize = 0;
    while i < rules.len()
        invariant
            i <= rules@.len(),
            count <= i,
            count == distinct_literals(rules@, i as int),
        decreases rules@.len() - i,
    {
        if let Some(t) = literal_of(&rules[i]) {
            let mut fresh = true;
            let mut q: usize = 0;
            while q < i
                invariant
                    q <= i < rules@.len(),
                    exact_literal(rules@[i as int]) == Some(t@),
                    fresh <==> forall|p: int| 0 <= p < q ==> #[trigger] exact_literal(rules@[p]) != Some(t@),
                decreases i - q,
            {
                if let Some(u) = literal_of(&rules[q]) {
                    if bytes_eq(u.as_slice(), t.as_slice()) {
                        fresh = false;
                    }
                }
                q = q + 1;
            }
            if fresh {
                count = count + 1;
            }
        }
        i = i + 1;
    }
    count
}

/// Bind every catalog base and collect, per family, the templates whose bases
/// support it.
/// Work binding one catalog base is charged: its text against every distinct
/// exact rule text, and for a bound base its template against each of the
/// three family lists.
pub open spec fn base_work(
    rules: Seq<ItemLineRule>,
    layouts: Seq<ItemRuleSourceLayout>,
    row: ItemObservationBaseRow,
    per_row: int,
    per_family: int,
) -> int {
    (row.source_base@.len() + 1) * per_row + match base_binding(rules, layouts, row.source_base@) {
        BaseBinding::Bound(d) => 3 * ((d.len() + 1) * per_family),
        _ => 0,
    }
}

/// Work binding every catalog base is charged.
pub open spec fn bind_work(
    rules: Seq<ItemLineRule>,
    layouts: Seq<ItemRuleSourceLayout>,
    bases: Seq<ItemObservationBaseRow>,
) -> int {
    let per_row = comparisons_spec(distinct_literals(rules, rules.len() as int) as nat) as int;
    let per_family = comparisons_spec(bases.len()) as int;
    sum_of(bases, |row: ItemObservationBaseRow| base_work(rules, layouts, row, per_row, per_family))
}

proof fn lemma_base_work_parts(a: int, b: int, c: int, e: int)
    requires
        a >= 1,
        b >= 1,
        c >= 1,
        e >= 1,
    ensures
        a * b >= a,
        c * e >= c,
        a * b >= 0,
        c * e >= 0,
{
    assert(a * b >= a) by (nonlinear_arith)
        requires
            a >= 1,
            b >= 1,
    ;
    assert(c * e >= c) by (nonlinear_arith)
        requires
            c >= 1,
            e >= 1,
    ;
}

fn bind_catalog(
    rules: &Vec<ItemLineRule>,
    layouts: &Vec<ItemRuleSourceLayout>,
    bases: &Vec<ItemObservationBaseRow>,
    work: &mut usize,
) -> (r: Result<(CompatibleTemplates, usize), ItemObservationPolicyError>)
    ensures
        r matches Ok((c, n)) ==> {
            &&& bases_bind(rules@, layouts@, bases@, bases@.len() as int)
            &&& n == bound_count(rules@, layouts@, bases@, bases@.len() as int)
            &&& lists_match(c, rules@, layouts@, bases@, bases@.len() as int)
        },
        r matches Err(e) ==> e is Limit || (e is Invalid && !bases_bind(rules@, layouts@, bases@, bases@.len() as int)),
        r is Ok ==> *final(work) == *old(work) - bind_work(rules@, layouts@, bases@),
        bases_bind(rules@, layouts@, bases@, bases@.len() as int) && bind_work(rules@, layouts@, bases@) <= *old(work)
            ==> r is Ok,
        *final(work) <= *old(work),
{
    let per_row = comparisons(distinct_exact_texts(rules));
    let per_family = comparisons(bases.len());
    let ghost bf = |row: ItemObservationBaseRow| base_work(rules@, layouts@, row, per_row as int, per_family as int);
    let ghost bs = bases@;
    proof {
        assert forall|x: ItemObservationBaseRow| #[trigger] bf(x) >= 0 by {
            let sb = x.source_base@.len() + 1int;
            lemma_base_work_parts(sb, per_row as int, 1, per_family as int);
            if let BaseBinding::Bound(d) = base_binding(rules@, layouts@, x.source_base@) {
                lemma_base_work_parts(sb, per_row as int, d.len() + 1int, per_family as int);
            }
        }
        assert(bs.take(0) =~= Seq::<ItemObservationBaseRow>::empty());
        assert(bs.take(bs.len() as int) =~= bs);
        assert(bind_work(rules@, layouts@, bases@) == sum_of(bs, bf));
    }
    let mut c = CompatibleTemplates { defences: Vec::new(), spirit: Vec::new(), charm_slots: Vec::new() };
    let mut bound: usize = 0;
    let mut k: usize = 0;
    proof {
        assert(keys_view(c.defences@) =~= seq![]);
        assert(keys_view(c.spirit@) =~= seq![]);
        assert(keys_view(c.charm_slots@) =~= seq![]);
        assert forall|f: ItemObservationFamily| sorted_keys(keys_view(#[trigger] family_list(c, f))) && keys_view(family_list(c, f)).to_set()
            == compatible_upto(rules@, layouts@, bases@, f, 0) by {
            assert(keys_view(family_list(c, f)).to_set() =~= Set::<Seq<u8>>::empty());
        }
    }
    while k < bases.len()
        invariant
            k <= bases@.len(),
            bound <= k,
            bases_bind(rules@, layouts@, bases@, k as int),
            bound == bound_count(rules@, layouts@, bases@, k as int),
            lists_match(c, rules@, layouts@, bases@, k as int),
            *work <= *old(work),
            bs == bases@,
            bs.take(bs.len() as int) == bs,
            per_row >= 1,
            per_family >= 1,
            bf == (|row: ItemObservationBaseRow| base_work(rules@, layouts@, row, per_row as int, per_family as int)),
            forall|x: ItemObservationBaseRow| #[trigger] bf(x) >= 0,
            0 <= sum_of(bs.take(k as int), bf) <= *old(work),
            *work == *old(work) - sum_of(bs.take(k as int), bf),
            bind_work(rules@, layouts@, bases@) == sum_of(bs, bf),
        decreases bases@.len() - k,
    {
        proof {
            lemma_sum_step(bs, bf, k as int);
            lemma_sum_mono(bs, bf, k as int + 1, bs.len() as int);
        }
        let row = &bases[k];
        let ghost sb = row.source_base@.len() + 1int;
        proof {
            lemma_base_work_parts(sb, per_row as int, 1, per_family as int);
            if let BaseBinding::Bound(d) = base_binding(rules@, layouts@, row.source_base@) {
                lemma_base_work_parts(sb, per_row as int, d.len() + 1int, per_family as int);
            }
        }
        proof {
            assert(bs[k as int] == *row);
            assert(bf(bs[k as int]) >= sb * per_row);
            assert(sum_of(bs.take(k as int), bf) + sb * per_row <= sum_of(bs, bf));
        }
        match row.source_base.len().checked_add(1) {
            Some(n) => charge_product(work, n, per_row)?,
            None => {
                return Err(ItemObservationPolicyError::Limit("work"));
            },
        }
        let ghost prev = c;
        match bind_base(rules, layouts, row.source_base.as_slice()) {
            BindingExec::Unmatched => {
                proof {
                    assert forall|f: ItemObservationFamily| sorted_keys(keys_view(#[trigger] family_list(c, f))) && keys_view(family_list(c, f)).to_set()
                        == compatible_upto(rules@, layouts@, bases@, f, k + 1) by {
                        assert(family_list(prev, f) == family_list(c, f));
                    }
                }
            },
            BindingExec::Ambiguous => {
                return Err(ItemObservationPolicyError::Invalid("ambiguous exact base rules"));
            },
            BindingExec::NotOneTemplate => {
                return Err(ItemObservationPolicyError::Invalid("base rule must emit exactly one template"));
            },
            BindingExec::NotExactHeader => {
                return Err(ItemObservationPolicyError::Invalid("base template needs one exact header binding"));
            },
            BindingExec::Bound(i) => {
                let d = match &rules[i].emissions[0] {
                    ItemEmission::Template { definition } => definition,
                    _ => {
                        return Err(ItemObservationPolicyError::Invalid("base rule must emit exactly one template"));
                    },
                };
                assert(d@ == sole_template(rules@[i as int])->0);
                bound = bound + 1;
                let n = match d.len().checked_add(1) {
                    Some(n) => n,
                    None => {
                        return Err(ItemObservationPolicyError::Limit("work"));
                    },
                };
                proof {
                    assert(sorted_keys(keys_view(family_list(c, ItemObservationFamily::Defences))));
                    assert(sorted_keys(keys_view(family_list(c, ItemObservationFamily::Spirit))));
                    assert(sorted_keys(keys_view(family_list(c, ItemObservationFamily::CharmSlots))));
                }
                charge_product(work, n, per_family)?;
                if ItemObservationFamily::Defences.permits(row) {
                    insert_key(&mut c.defences, d.as_slice());
                }
                charge_product(work, n, per_family)?;
                if ItemObservationFamily::Spirit.permits(row) {
                    insert_key(&mut c.spirit, d.as_slice());
                }
                charge_product(work, n, per_family)?;
                if ItemObservationFamily::CharmSlots.permits(row) {
                    insert_key(&mut c.charm_slots, d.as_slice());
                }
                proof {
                    assert forall|f: ItemObservationFamily| sorted_keys(keys_view(#[trigger] family_list(c, f))) && keys_view(family_list(c, f)).to_set()
                        == compatible_upto(rules@, layouts@, bases@, f, k + 1) by {
                        assert(sorted_keys(keys_view(family_list(prev, f))));
                        match f {
                            ItemObservationFamily::Defences => {},
                            ItemObservationFamily::Spirit => {},
                            ItemObservationFamily::CharmSlots => {},
                        }
                    }
                }
            },
        }
        k = k + 1;
    }
    Ok((c, bound))
}

/// Work declaration `j` is charged: its rule identifier, field and emissions
/// against the rules before it, and its template allowlist.
pub open spec fn declaration_work(
    rules: Seq<ItemLineRule>,
    layouts: Seq<ItemRuleSourceLayout>,
    bases: Seq<ItemObservationBaseRow>,
    decls: Seq<ItemObservationDeclaration>,
    j: int,
) -> int {
    let d = decls[j];
    let weight = d.rule.id@.len() + d.field@.len() + d.rule.emissions@.len();
    weight * (comparisons_spec((rules.len() + j) as nat) as int) + compatible(rules, layouts, bases, d.family).len()
}

/// Work the first `n` declarations are charged.
pub open spec fn declarations_work(
    rules: Seq<ItemLineRule>,
    layouts: Seq<ItemRuleSourceLayout>,
    bases: Seq<ItemObservationBaseRow>,
    decls: Seq<ItemObservationDeclaration>,
    n: int,
) -> int
    decreases n,
{
    if n <= 0 {
        0
    } else {
        declarations_work(rules, layouts, bases, decls, n - 1) + declaration_work(rules, layouts, bases, decls, n - 1)
    }
}

/// Template references the first `n` declarations add.
pub open spec fn declarations_templates(
    rules: Seq<ItemLineRule>,
    layouts: Seq<ItemRuleSourceLayout>,
    bases: Seq<ItemObservationBaseRow>,
    decls: Seq<ItemObservationDeclaration>,
    n: int,
) -> int
    decreases n,
{
    if n <= 0 {
        0
    } else {
        declarations_templates(rules, layouts, bases, decls, n - 1) + compatible(
            rules,
            layouts,
            bases,
            decls[n - 1].family,
        ).len()
    }
}

proof fn lemma_declarations_mono(
    rules: Seq<ItemLineRule>,
    layouts: Seq<ItemRuleSourceLayout>,
    bases: Seq<ItemObservationBaseRow>,
    decls: Seq<ItemObservationDeclaration>,
    n: int,
    m: int,
)
    requires
        0 <= n <= m,
    ensures
        0 <= declarations_work(rules, layouts, bases, decls, n) <= declarations_work(rules, layouts, bases, decls, m),
        0 <= declarations_templates(rules, layouts, bases, decls, n) <= declarations_templates(
            rules,
            layouts,
            bases,
            decls,
            m,
        ),
    decreases m,
{
    if m > 0 {
        if n < m {
            lemma_declarations_mono(rules, layouts, bases, decls, n, m - 1);
        } else {
            lemma_declarations_mono(rules, layouts, bases, decls, m - 1, m - 1);
        }
        let d = decls[m - 1];
        let w: int = (d.rule.id@.len() + d.field@.len() + d.rule.emissions@.len()) as int;
        let c: int = comparisons_spec((rules.len() + m - 1) as nat) as int;
        assert(w * c >= 0) by (nonlinear_arith)
            requires
                w >= 0,
                c >= 0,
        ;
    }
}

proof fn lemma_merge_work_nonneg(target: SourcePin, incoming: SourcePin)
    ensures
        merge_work(target, incoming) >= 0,
{
    let per = comparisons_spec((target.files@.len() + incoming.files@.len()) as nat) as int;
    let g = |f: SourceFilePin| (f.path@.len() + f.sha256@.len()) * per;
    assert forall|x: SourceFilePin| #[trigger] g(x) >= 0 by {
        let a: int = (x.path@.len() + x.sha256@.len()) as int;
        assert(a * per >= 0) by (nonlinear_arith)
            requires
                a >= 0,
                per >= 1,
        ;
    }
    lemma_sum_nonneg(target.files@, g);
    lemma_sum_nonneg(incoming.files@, g);
}

proof fn lemma_bind_work_nonneg(
    rules: Seq<ItemLineRule>,
    layouts: Seq<ItemRuleSourceLayout>,
    bases: Seq<ItemObservationBaseRow>,
)
    ensures
        bind_work(rules, layouts, bases) >= 0,
{
    let per_row = comparisons_spec(distinct_literals(rules, rules.len() as int) as nat) as int;
    let per_family = comparisons_spec(bases.len()) as int;
    let bf = |row: ItemObservationBaseRow| base_work(rules, layouts, row, per_row, per_family);
    assert forall|x: ItemObservationBaseRow| #[trigger] bf(x) >= 0 by {
        let sb = x.source_base@.len() + 1int;
        lemma_base_work_parts(sb, per_row, 1, per_family);
        if let BaseBinding::Bound(d) = base_binding(rules, layouts, x.source_base@) {
            lemma_base_work_parts(sb, per_row, d.len() + 1int, per_family);
        }
    }
    lemma_sum_nonneg(bases, bf);
}

/// `succ` is the predecessor line policy with the declarations' rules
/// appended, in request order.
pub open spec fn successor_input(
    prev: ItemLinePolicyInput,
    decls: Seq<ItemObservationDeclaration>,
    succ: ItemLinePolicyInput,
) -> bool {
    &&& succ.schema_version == prev.schema_version
    &&& succ.namespace == prev.namespace
    &&& succ.definitions == prev.definitions
    &&& succ.whitespace == prev.whitespace
    &&& succ.rules@ == prev.rules@ + decls.map_values(|d: ItemObservationDeclaration| d.rule)
}

/// A line policy input passes the checks of `OwnedItemLinePolicy::new`.
pub open spec fn line_policy_accepts(input: ItemLinePolicyInput, schema: ItemLineSchema, limits: ItemLineLimits) -> bool {
    &&& shape_valid(input, limits)
    &&& input.definitions@ == schema.identity@
    &&& input.namespace@ == schema.namespace@
    &&& rules_bind(schema, input.rules@)
    &&& rules_bind_cost(schema, input.rules@) <= limits.max_schema_work
}

/// Staging the declarations passes every check and fits every limit.
pub open spec fn observations_fit(
    catalog_bytes: Seq<u8>,
    catalog: ItemObservationCatalog,
    request: ItemObservationPolicyRequest,
    lines: ItemLinePolicyInput,
    source: ItemSourceLayoutPolicyInput,
    prior_line_bytes: int,
    prior_source_bytes: int,
    limits: ItemObservationPolicyLimits,
) -> bool {
    let rules = lines.rules@;
    let layouts = source.rule_layouts@;
    let bases = catalog.bases@;
    let decls = request.observations@;
    &&& observation_policy_limits_valid(limits)
    &&& request.schema_version == OWNED_ITEM_OBSERVATION_REQUEST_VERSION
    &&& 0 < decls.len() <= limits.max_observations
    &&& catalog_bytes.len() <= limits.catalog.max_catalog_bytes
    &&& request.catalog_sha256@ == hex_encode(sha256_of(catalog_bytes))
    &&& catalog_ok(catalog, limits.catalog)
    &&& catalog.source.system == source.source.system
    &&& catalog.source.revision@ == source.source.revision@
    &&& hashes_agree(pin_files(source.source) + pin_files(catalog.source))
    &&& source.source.files@.len() + catalog.source.files@.len() <= usize::MAX
    &&& bases_bind(rules, layouts, bases, bases.len() as int)
    &&& forall|j: int| 0 <= j < decls.len() ==> declaration_ok(rules, layouts, bases, decls, j)
    &&& rules.len() + decls.len() <= usize::MAX
    &&& declarations_templates(rules, layouts, bases, decls, decls.len() as int) <= limits.item_source.max_templates
    &&& catalog_bytes.len() + prior_line_bytes * (comparisons_spec(rules.len()) as int) + prior_source_bytes
        + merge_work(source.source, catalog.source) + bind_work(rules, layouts, bases) + declarations_work(
        rules,
        layouts,
        bases,
        decls,
        decls.len() as int,
    ) <= limits.max_work
}

/// Stage reviewed observations: check the request and the catalog's digest
/// and structure, merge the catalog's source pin, bind catalog bases to exact
/// header rules, and append each declaration's rule, unresolved layout and
/// template allowlist. `prior_line_bytes` and `prior_source_bytes` are the
/// encoded sizes of the predecessor policies, charged as comparison work.
/// Staging succeeds whenever every check passes and the charged work and
/// template references fit the limits.
pub fn compile_owned_item_observations(
    catalog_bytes: &[u8],
    catalog: &ItemObservationCatalog,
    request: ItemObservationPolicyRequest,
    lines: OwnedItemLinePolicy,
    schema: &ItemLineSchema,
    source: &ItemSourceLayoutPolicy,
    prior: Vec<ItemSourcePreambleObservation>,
    prior_line_bytes: usize,
    prior_source_bytes: usize,
    limits: ItemObservationPolicyLimits,
) -> (r: Result<StagedItemObservations, ItemObservationPolicyError>)
    ensures
        !observation_policy_limits_valid(limits) ==> r matches Err(ItemObservationPolicyError::Limit(_)),
        observation_policy_limits_valid(limits) && request.schema_version != OWNED_ITEM_OBSERVATION_REQUEST_VERSION
            ==> r matches Err(ItemObservationPolicyError::Invalid(_)),
        r matches Ok(s) ==> {
            let rules = lines.spec_input().rules@;
            let layouts = source.spec_input().rule_layouts@;
            let bases = catalog.bases@;
            let decls = request.observations@;
            let p = prior@.len();
            &&& request.schema_version == OWNED_ITEM_OBSERVATION_REQUEST_VERSION
            &&& 0 < decls.len() <= limits.max_observations
            &&& catalog_bytes@.len() <= limits.catalog.max_catalog_bytes
            &&& request.catalog_sha256@ == hex_encode(sha256_of(catalog_bytes@))
            &&& s.catalog_sha256@ == request.catalog_sha256@
            &&& catalog_ok(*catalog, limits.catalog)
            &&& catalog.source.system == source.spec_input().source.system
            &&& catalog.source.revision@ == source.spec_input().source.revision@
            &&& hashes_agree(pin_files(source.spec_input().source) + pin_files(catalog.source))
            &&& s.source.system == source.spec_input().source.system
            &&& s.source.revision@ == source.spec_input().source.revision@
            &&& sorted_by_path(pin_files(s.source))
            &&& pin_files(s.source).to_set() == (pin_files(source.spec_input().source) + pin_files(catalog.source)).to_set()
            &&& bases_bind(rules, layouts, bases, bases.len() as int)
            &&& s.catalog_bases == bases.len()
            &&& s.exact_base_bindings == bound_count(rules, layouts, bases, bases.len() as int)
            &&& forall|j: int| 0 <= j < decls.len() ==> declaration_ok(rules, layouts, bases, decls, j)
            &&& successor_input(lines.spec_input(), decls, s.items.spec_input())
            &&& s.items.spec_limits() == limits.items
            &&& line_policy_accepts(s.items.spec_input(), *schema, limits.items)
            &&& s.rule_layouts@.len() == decls.len()
            &&& forall|j: int|
                0 <= j < decls.len() ==> (#[trigger] s.rule_layouts@[j]).rule@ == decls[j].rule.id@
                    && s.rule_layouts@[j].role == ItemRuleSourceRole::Unresolved
            &&& s.observations@.len() == p + decls.len()
            &&& forall|q: int| 0 <= q < p ==> #[trigger] s.observations@[q] == prior@[q]
            &&& forall|j: int|
                0 <= j < decls.len() ==> {
                    let o = #[trigger] s.observations@[p + j];
                    &&& o.rule@ == decls[j].rule.id@
                    &&& o.field@ == decls[j].field@
                    &&& sorted_keys(keys_view(o.templates@))
                    &&& keys_view(o.templates@).to_set() == compatible(rules, layouts, bases, decls[j].family)
                }
            &&& s.added_observations == decls.len()
            &&& s.added_template_references == templates_total(s.observations@, p as int, decls.len() as int)
            &&& s.added_template_references <= limits.item_source.max_templates
            &&& s.work_used <= limits.max_work
        },
        r matches Err(ItemObservationPolicyError::Invalid(_)) ==> request.schema_version
            != OWNED_ITEM_OBSERVATION_REQUEST_VERSION || !bases_bind(
            lines.spec_input().rules@,
            source.spec_input().rule_layouts@,
            catalog.bases@,
            catalog.bases@.len() as int,
        ) || exists|j: int|
            0 <= j < request.observations@.len() && !declaration_ok(
                lines.spec_input().rules@,
                source.spec_input().rule_layouts@,
                catalog.bases@,
                request.observations@,
                j,
            ),
        r matches Err(ItemObservationPolicyError::Binding) ==> request.catalog_sha256@ != hex_encode(
            sha256_of(catalog_bytes@),
        ) || catalog.source.system != source.spec_input().source.system || catalog.source.revision@
            != source.spec_input().source.revision@ || !hashes_agree(
            pin_files(source.spec_input().source) + pin_files(catalog.source),
        ),
        r matches Err(ItemObservationPolicyError::Catalog(_)) ==> !catalog_ok(*catalog, limits.catalog),
        observation_policy_limits_valid(limits) && request.schema_version == OWNED_ITEM_OBSERVATION_REQUEST_VERSION
            && 0 < request.observations@.len() <= limits.max_observations && catalog_bytes@.len()
            <= limits.catalog.max_catalog_bytes && catalog_bytes@.len() <= limits.max_work
            && request.catalog_sha256@ != hex_encode(sha256_of(catalog_bytes@)) ==> r
            == Err::<StagedItemObservations, ItemObservationPolicyError>(ItemObservationPolicyError::Binding),
        observations_fit(
            catalog_bytes@,
            *catalog,
            request,
            lines.spec_input(),
            source.spec_input(),
            prior_line_bytes as int,
            prior_source_bytes as int,
            limits,
        ) && (forall|succ: ItemLinePolicyInput|
            #[trigger] successor_input(lines.spec_input(), request.observations@, succ) ==> line_policy_accepts(
                succ,
                *schema,
                limits.items,
            )) ==> r is Ok,
        r matches Err(ItemObservationPolicyError::Items(_)) ==> exists|succ: ItemLinePolicyInput|
            #[trigger] successor_input(lines.spec_input(), request.observations@, succ) && !line_policy_accepts(
                succ,
                *schema,
                limits.items,
            ),
{
    let ghost fits = observations_fit(
        catalog_bytes@,
        *catalog,
        request,
        lines.spec_input(),
        source.spec_input(),
        prior_line_bytes as int,
        prior_source_bytes as int,
        limits,
    );
    let ghost pre: int = catalog_bytes@.len() + prior_line_bytes * (comparisons_spec(
        lines.spec_input().rules@.len(),
    ) as int) + prior_source_bytes + merge_work(source.spec_input().source, catalog.source) + bind_work(
        lines.spec_input().rules@,
        source.spec_input().rule_layouts@,
        catalog.bases@,
    );
    proof {
        let lr = lines.spec_input().rules@;
        let c = comparisons_spec(lr.len()) as int;
        let pl = prior_line_bytes as int;
        assert(pl * c >= 0) by (nonlinear_arith)
            requires
                pl >= 0,
                c >= 0,
        ;
        lemma_merge_work_nonneg(source.spec_input().source, catalog.source);
        lemma_bind_work_nonneg(lr, source.spec_input().rule_layouts@, catalog.bases@);
        lemma_declarations_mono(
            lr,
            source.spec_input().rule_layouts@,
            catalog.bases@,
            request.observations@,
            0,
            request.observations@.len() as int,
        );
    }
    limits.validate()?;
    if request.schema_version != OWNED_ITEM_OBSERVATION_REQUEST_VERSION {
        return Err(ItemObservationPolicyError::Invalid("request version"));
    }
    let count = request.observations.len();
    if count == 0 || count > limits.max_observations {
        return Err(ItemObservationPolicyError::Limit("observations"));
    }
    if catalog_bytes.len() > limits.catalog.max_catalog_bytes {
        return Err(ItemObservationPolicyError::Limit("catalog bytes"));
    }
    let mut work = limits.max_work;
    charge(&mut work, catalog_bytes.len())?;
    let digest = sha256_digest(catalog_bytes);
    let catalog_sha256 = hex_lower(digest.as_slice());
    if !bytes_eq(catalog_sha256.as_slice(), request.catalog_sha256.as_slice()) {
        return Err(ItemObservationPolicyError::Binding);
    }
    match validate_item_observation_catalog(catalog, limits.catalog) {
        Ok(()) => {},
        Err(e) => {
            return Err(ItemObservationPolicyError::Catalog(e));
        },
    }
    let li = lines.input();
    charge_product(&mut work, prior_line_bytes, comparisons(li.rules.len()))?;
    charge(&mut work, prior_source_bytes)?;
    let si = source.input();
    let merged = merge_source(&si.source, &catalog.source, &mut work)?;
    let (compat, bound) = bind_catalog(&li.rules, &si.rule_layouts, &catalog.bases, &mut work)?;
    let ghost rules = li.rules@;
    let ghost layouts = si.rule_layouts@;
    let ghost bases = catalog.bases@;
    let ghost decls = request.observations@;
    let ghost pv = prior@;
    let p = prior.len();
    let mut observations = prior;
    let mut rule_layouts: Vec<ItemRuleSourceLayout> = Vec::new();
    let mut added: usize = 0;
    let id_base = li.rules.len();
    let mut j: usize = 0;
    while j < count
        invariant
            j <= count == decls.len(),
            decls == request.observations@,
            request.schema_version == OWNED_ITEM_OBSERVATION_REQUEST_VERSION,
            observation_policy_limits_valid(limits),
            request.catalog_sha256@ == hex_encode(sha256_of(catalog_bytes@)),
            rules == li.rules@,
            layouts == si.rule_layouts@,
            bases == catalog.bases@,
            *li == lines.spec_input(),
            *si == source.spec_input(),
            id_base == rules.len(),
            lists_match(compat, rules, layouts, bases, bases.len() as int),
            p == pv.len(),
            observations@.len() == p + j,
            forall|q: int| 0 <= q < p ==> #[trigger] observations@[q] == pv[q],
            forall|q: int|
                0 <= q < j ==> {
                    let o = #[trigger] observations@[p + q];
                    &&& o.rule@ == decls[q].rule.id@
                    &&& o.field@ == decls[q].field@
                    &&& sorted_keys(keys_view(o.templates@))
                    &&& keys_view(o.templates@).to_set() == compatible(rules, layouts, bases, decls[q].family)
                },
            rule_layouts@.len() == j,
            forall|q: int|
                0 <= q < j ==> (#[trigger] rule_layouts@[q]).rule@ == decls[q].rule.id@ && rule_layouts@[q].role
                    == ItemRuleSourceRole::Unresolved,
            forall|q: int| 0 <= q < j ==> declaration_ok(rules, layouts, bases, decls, q),
            added == templates_total(observations@, p as int, j as int),
            added <= limits.item_source.max_templates,
            work <= limits.max_work,
            fits == observations_fit(
                catalog_bytes@,
                *catalog,
                request,
                lines.spec_input(),
                source.spec_input(),
                prior_line_bytes as int,
                prior_source_bytes as int,
                limits,
            ),
            pre >= 0,
            fits ==> pre + declarations_work(rules, layouts, bases, decls, decls.len() as int) <= limits.max_work,
            work == limits.max_work - pre - declarations_work(rules, layouts, bases, decls, j as int),
            added == declarations_templates(rules, layouts, bases, decls, j as int),
        decreases count - j,
    {
        proof {
            lemma_declarations_mono(rules, layouts, bases, decls, j as int + 1, decls.len() as int);
            lemma_declarations_mono(rules, layouts, bases, decls, j as int, j as int);
        }
        let d = &request.observations[j];
        let templates = family_templates(&compat, d.family);
        proof {
            assert(sorted_keys(keys_view(family_list(compat, decls[j as int].family))));
            let kv = keys_view(templates@);
            assert(kv.no_duplicates()) by {
                assert forall|a: int, b: int| 0 <= a < kv.len() && 0 <= b < kv.len() && a != b implies kv[a] != kv[b] by {
                    lemma_lex_order(kv[a], kv[b]);
                    if a < b {
                        assert(lex_lt(kv[a], kv[b]));
                    } else {
                        assert(lex_lt(kv[b], kv[a]));
                    }
                    lemma_lex_order(kv[a], kv[a]);
                }
            }
            kv.unique_seq_to_set();
            assert(templates@.len() == compatible(rules, layouts, bases, decls[j as int].family).len());
            let w: int = (d.rule.id@.len() + d.field@.len() + d.rule.emissions@.len()) as int;
            let c: int = comparisons_spec((rules.len() + j) as nat) as int;
            assert(w * c >= w) by (nonlinear_arith)
                requires
                    w >= 0,
                    c >= 1,
            ;
        }
        let weight = match d.rule.id.len().checked_add(d.field.len()) {
            Some(a) => match a.checked_add(d.rule.emissions.len()) {
                Some(b) => b,
                None => {
                    return Err(ItemObservationPolicyError::Limit("work"));
                },
            },
            None => {
                return Err(ItemObservationPolicyError::Limit("work"));
            },
        };
        let ids = match id_base.checked_add(j) {
            Some(n) => n,
            None => {
                return Err(ItemObservationPolicyError::Limit("work"));
            },
        };
        charge_product(&mut work, weight, comparisons(ids))?;
        check_declaration(&li.rules, &request.observations, j, templates, Ghost(layouts), Ghost(bases))?;
        charge(&mut work, templates.len())?;
        let total = match added.checked_add(templates.len()) {
            Some(t) => t,
            None => {
                return Err(ItemObservationPolicyError::Limit("observation templates"));
            },
        };
        if total > limits.item_source.max_templates {
            return Err(ItemObservationPolicyError::Limit("observation templates"));
        }
        rule_layouts.push(ItemRuleSourceLayout { rule: copy_bytes(d.rule.id.as_slice()), role: ItemRuleSourceRole::Unresolved });
        let ghost before = observations@;
        let copied = copy_keys(templates);
        assert(copied@.len() == templates@.len()) by {
            assert(keys_view(copied@).len() == copied@.len());
            assert(keys_view(templates@).len() == templates@.len());
        }
        observations.push(ItemSourcePreambleObservation {
            rule: copy_bytes(d.rule.id.as_slice()),
            field: copy_bytes(d.field.as_slice()),
            templates: copied,
        });
        proof {
            assert(observations@.subrange(0, p + j) == before);
            assert forall|q: int| 0 <= q < p + j implies observations@[q] == before[q] by {}
            lemma_templates_total_frame(before, observations@, p as int, j as int);
        }
        added = total;
        j = j + 1;
    }
    let ghost prev = lines.spec_input();
    let mut items = lines.into_input();
    let mut rest = request.observations;
    let mut n: usize = 0;
    let ghost dr = decls.map_values(|d: ItemObservationDeclaration| d.rule);
    assert(items.rules@ =~= prev.rules@ + dr.take(0));
    while rest.len() > 0
        invariant
            n + rest@.len() == decls.len(),
            decls.len() == count,
            rest@ == decls.subrange(n as int, decls.len() as int),
            dr == decls.map_values(|d: ItemObservationDeclaration| d.rule),
            items.rules@ == prev.rules@ + dr.take(n as int),
            items.schema_version == prev.schema_version,
            items.namespace == prev.namespace,
            items.definitions == prev.definitions,
            items.whitespace == prev.whitespace,
        decreases rest@.len(),
    {
        let d = rest.remove(0);
        assert(d == decls[n as int]);
        items.rules.push(d.rule);
        n = n + 1;
        assert(items.rules@ =~= prev.rules@ + dr.take(n as int));
    }
    assert(dr.take(n as int) =~= dr);
    assert(successor_input(prev, decls, items));
    let items = match OwnedItemLinePolicy::new(items, schema, limits.items) {
        Ok(p) => p,
        Err(e) => {
            return Err(ItemObservationPolicyError::Items(e));
        },
    };
    Ok(StagedItemObservations {
        items,
        rule_layouts,
        observations,
        source: merged,
        catalog_sha256,
        catalog_bases: catalog.bases.len(),
        exact_base_bindings: bound,
        added_observations: count,
        added_template_references: added,
        work_used: limits.max_work - work,
    })
}

proof fn lemma_templates_total_frame(before: Seq<ItemSourcePreambleObservation>, after: Seq<ItemSourcePreambleObservation>, p: int, j: int)
    requires
        0 <= p,
        0 <= j,
        before.len() == p + j,
        after.len() == p + j + 1,
        forall|q: int| 0 <= q < p + j ==> after[q] == before[q],
    ensures
        templates_total(after, p, j + 1) == templates_total(before, p, j) + after[p + j].templates@.len(),
{
    lemma_templates_total_same(before, after, p, j);
}

proof fn lemma_templates_total_same(a: Seq<ItemSourcePreambleObservation>, b: Seq<ItemSourcePreambleObservation>, p: int, n: int)
    requires
        0 <= p,
        0 <= n,
        p + n <= a.len(),
        p + n <= b.len(),
        forall|q: int| 0 <= q < p + n ==> b[q] == a[q],
    ensures
        templates_total(a, p, n) == templates_total(b, p, n),
    decreases n,
{
    if n > 0 {
        lemma_templates_total_same(a, b, p, n - 1);
    }
}

proof fn lemma_exact_matches_in_range(rules: Seq<ItemLineRule>, text: Seq<u8>, n: int)
    requires
        0 <= n <= rules.len(),
    ensures
        forall|q: int| 0 <= q < exact_matches(rules, text, n).len() ==> 0 <= #[trigger] exact_matches(rules, text, n)[q] < n,
    decreases n,
{
    if n > 0 {
        lemma_exact_matches_in_range(rules, text, n - 1);
        let prev = exact_matches(rules, text, n - 1);
        assert forall|q: int| 0 <= q < exact_matches(rules, text, n).len() implies 0 <= #[trigger] exact_matches(
            rules,
            text,
            n,
        )[q] < n by {
            if q < prev.len() {
                assert(exact_matches(rules, text, n)[q] == prev[q]);
            }
        }
    }
}

} // verus!
