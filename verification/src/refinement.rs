//! Preservation of a schema across a membership refinement. Outside the
//! selected subjects a successor schema repeats every previous descriptor
//! exactly; a selected descriptor keeps its known schema and every field but
//! its membership facets, and its facets only gain members.
use crate::membership::{
    check_subjects, eligible, law_refinement_keeps_members, refine_set, refines, DeclaredSet, DeclaredSetView, MembershipError,
    RefinementProblem, SchemaMembershipRefinement,
};
use crate::registry::{check_namespace, subject_in_namespace, SchemaSubject, SubjectView};
use crate::item_lines::convert::{lemma_sum_mono, lemma_sum_step, sum_of};
use crate::text::bytes_eq;
use vstd::prelude::*;

verus! {

/// What a refinement reads of a schema descriptor: its subject, whether its
/// schema is known, its membership facets in declaration order, and the
/// descriptor's remaining fields as canonical bytes.
#[derive(Debug)]
pub struct SchemaDescriptor {
    pub subject: SchemaSubject,
    pub known: bool,
    pub facets: Vec<DeclaredSet>,
    pub rest: Vec<u8>,
}

pub struct DescriptorView {
    pub subject: SubjectView,
    pub known: bool,
    pub facets: Seq<DeclaredSetView>,
    pub rest: Seq<u8>,
}

impl View for SchemaDescriptor {
    type V = DescriptorView;

    open spec fn view(&self) -> DescriptorView {
        DescriptorView {
            subject: self.subject@,
            known: self.known,
            facets: self.facets@.map_values(|f: DeclaredSet| f@),
            rest: self.rest@,
        }
    }
}

/// A schema's definition and slot descriptors.
#[derive(Debug)]
pub struct SchemaCatalog {
    pub definitions: Vec<SchemaDescriptor>,
    pub slots: Vec<SchemaDescriptor>,
}

pub open spec fn descriptors_view(d: Seq<SchemaDescriptor>) -> Seq<DescriptorView> {
    d.map_values(|x: SchemaDescriptor| x@)
}

/// Each facet of `new` repeats or refines the matching facet of `old`.
pub open spec fn facets_refine(prev: Seq<DeclaredSetView>, next: Seq<DeclaredSetView>) -> bool {
    &&& prev.len() == next.len()
    &&& forall|i: int| 0 <= i < prev.len() ==> prev[i] == next[i] || refines(prev[i], next[i])
}

/// `new` may replace the selected descriptor `old`.
pub open spec fn descriptor_refines(prev: DescriptorView, next: DescriptorView) -> bool {
    &&& prev.known
    &&& next.known
    &&& facets_refine(prev.facets, next.facets)
    &&& prev.rest == next.rest
}

/// Some facet changed.
pub open spec fn adds_somewhere(prev: DescriptorView, next: DescriptorView) -> bool {
    exists|i: int| 0 <= i < prev.facets.len() && prev.facets[i] != next.facets[i]
}

/// Some facet is a nonempty partial set.
pub open spec fn has_eligible(d: DescriptorView) -> bool {
    exists|i: int| 0 <= i < d.facets.len() && eligible(d.facets[i])
}

fn descriptor_facet(d: &SchemaDescriptor, i: usize) -> (r: &DeclaredSet)
    requires
        i < d.facets@.len(),
    ensures
        r@ == d@.facets[i as int],
{
    &d.facets[i]
}

/// The set sizes comparing the first `n` facets of two descriptors charges.
pub open spec fn facets_cost(prev: DescriptorView, next: DescriptorView, n: int) -> int
    decreases n,
{
    if n <= 0 {
        0
    } else {
        facets_cost(prev, next, n - 1) + prev.facets[n - 1].members.len() + next.facets[n - 1].members.len()
    }
}

/// The work comparing two descriptors charges: both sizes of every facet.
pub open spec fn descriptor_cost(prev: DescriptorView, next: DescriptorView) -> int {
    facets_cost(prev, next, prev.facets.len() as int)
}

proof fn lemma_facets_cost_nonnegative(prev: DescriptorView, next: DescriptorView, n: int)
    ensures
        0 <= facets_cost(prev, next, n),
    decreases n,
{
    if n > 0 {
        lemma_facets_cost_nonnegative(prev, next, n - 1);
    }
}

proof fn lemma_facets_cost_mono(prev: DescriptorView, next: DescriptorView, i: int, j: int)
    requires
        0 <= i <= j,
    ensures
        0 <= facets_cost(prev, next, i) <= facets_cost(prev, next, j),
    decreases j - i,
{
    lemma_facets_cost_nonnegative(prev, next, i);
    if i < j {
        lemma_facets_cost_mono(prev, next, i, j - 1);
    }
}

/// Compare a selected descriptor with its successor. Returns whether a facet
/// changed and whether the successor has a nonempty partial facet.
pub fn check_descriptor(left: &mut usize, prev: &SchemaDescriptor, next: &SchemaDescriptor) -> (r: Result<(bool, bool), MembershipError>)
    ensures
        *old(left) >= descriptor_cost(prev@, next@) ==> (r is Ok <==> descriptor_refines(prev@, next@)),
        r matches Ok(flags) ==> {
            &&& descriptor_refines(prev@, next@)
            &&& flags.0 == adds_somewhere(prev@, next@)
            &&& flags.1 == has_eligible(next@)
            &&& *final(left) == *old(left) - descriptor_cost(prev@, next@)
        },
        r matches Err(e) ==> e is Limit || (e is Refinement && !descriptor_refines(prev@, next@)),
        r matches Err(MembershipError::Limit) ==> *old(left) < descriptor_cost(prev@, next@),
        *final(left) <= *old(left),
{
    if !prev.known || !next.known {
        return Err(MembershipError::Refinement(RefinementProblem::RequiresKnown));
    }
    let n = prev.facets.len();
    if n != next.facets.len() {
        return Err(MembershipError::Refinement(RefinementProblem::ChangedFields));
    }
    let ghost ov = prev@.facets;
    let ghost nv = next@.facets;
    let ghost start = *left;
    proof {
        lemma_facets_cost_mono(prev@, next@, 0, n as int);
    }
    let mut changed = false;
    let mut any_eligible = false;
    let mut i: usize = 0;
    while i < n
        invariant
            i <= n == ov.len() == nv.len(),
            ov == prev@.facets,
            nv == next@.facets,
            start == *old(left),
            facets_cost(prev@, next@, i as int) <= start,
            *left == start - facets_cost(prev@, next@, i as int),
            forall|k: int| 0 <= k < i ==> ov[k] == nv[k] || refines(ov[k], nv[k]),
            changed == exists|k: int| 0 <= k < i && ov[k] != nv[k],
            any_eligible == exists|k: int| 0 <= k < i && eligible(nv[k]),
        decreases n - i,
    {
        proof {
            lemma_facets_cost_mono(prev@, next@, i as int + 1, n as int);
            lemma_facets_cost_mono(prev@, next@, 0, i as int);
        }
        let mut current = descriptor_facet(prev, i).duplicate();
        let following = descriptor_facet(next, i);
        match refine_set(left, &mut current, following) {
            Ok((c, e)) => {
                changed = changed || c;
                any_eligible = any_eligible || e;
            },
            Err(err) => {
                proof {
                    if err is Refinement {
                        assert(!(ov[i as int] == nv[i as int] || refines(ov[i as int], nv[i as int])));
                        assert(!descriptor_refines(prev@, next@));
                    } else {
                        assert(facets_cost(prev@, next@, i as int + 1) == facets_cost(prev@, next@, i as int)
                            + ov[i as int].members.len() + nv[i as int].members.len());
                    }
                }
                return Err(err);
            },
        }
        i = i + 1;
    }
    if !bytes_eq(prev.rest.as_slice(), next.rest.as_slice()) {
        return Err(MembershipError::Refinement(RefinementProblem::ChangedFields));
    }
    Ok((changed, any_eligible))
}

pub open spec fn subjects_view(s: Seq<SchemaSubject>) -> Seq<SubjectView> {
    s.map_values(|x: SchemaSubject| x@)
}

/// Index of the first descriptor of `s` in `list`, from `i` on.
pub open spec fn lookup_from(list: Seq<DescriptorView>, s: SubjectView, i: int) -> Option<int>
    decreases list.len() - i,
{
    if i < 0 || i >= list.len() {
        None
    } else if list[i].subject == s {
        Some(i)
    } else {
        lookup_from(list, s, i + 1)
    }
}

/// Entry `i` of `all` is the first occurrence of a selected subject.
pub open spec fn selected_at(all: Seq<DescriptorView>, subjects: Seq<SubjectView>, i: int) -> bool {
    &&& subjects.contains(all[i].subject)
    &&& forall|k: int| 0 <= k < i ==> all[k].subject != all[i].subject
}

/// Previous entry `i` of `all` is carried into `next`: refined with some
/// addition if it is selected, repeated exactly otherwise.
pub open spec fn preserved_at(all: Seq<DescriptorView>, next: Seq<DescriptorView>, subjects: Seq<SubjectView>, i: int) -> bool {
    match lookup_from(next, all[i].subject, 0) {
        None => false,
        Some(j) => if selected_at(all, subjects, i) {
            descriptor_refines(all[i], next[j]) && adds_somewhere(all[i], next[j])
        } else {
            all[i] == next[j]
        },
    }
}

/// Selected entries of `all` in `from..from + n`.
pub open spec fn selected_count(all: Seq<DescriptorView>, subjects: Seq<SubjectView>, from: int, n: int) -> nat
    decreases n,
{
    if n <= 0 {
        0
    } else {
        selected_count(all, subjects, from, n - 1) + if selected_at(all, subjects, from + n - 1) {
            1nat
        } else {
            0nat
        }
    }
}

/// The previous definitions then the previous slots.
pub open spec fn all_descriptors(c: SchemaCatalog) -> Seq<DescriptorView> {
    descriptors_view(c.definitions@) + descriptors_view(c.slots@)
}

/// `next` preserves `prev` under the selected subjects, each of which is a
/// previous descriptor.
pub open spec fn catalog_preserved(prev: SchemaCatalog, next: SchemaCatalog, subjects: Seq<SubjectView>) -> bool {
    let all = all_descriptors(prev);
    let d = prev.definitions@.len() as int;
    &&& forall|i: int| 0 <= i < d ==> preserved_at(all, descriptors_view(next.definitions@), subjects, i)
    &&& forall|i: int| d <= i < all.len() ==> preserved_at(all, descriptors_view(next.slots@), subjects, i)
    &&& forall|q: int| 0 <= q < subjects.len() ==> covered(all, #[trigger] subjects[q])
}

/// Some entry of `all` describes `s`.
pub open spec fn covered(all: Seq<DescriptorView>, s: SubjectView) -> bool {
    exists|i: int| 0 <= i < all.len() && all[i].subject == s
}

pub open spec fn subjects_distinct(s: Seq<SubjectView>) -> bool {
    forall|a: int, b: int| 0 <= a < b < s.len() ==> s[a] != s[b]
}

impl SchemaDescriptor {
    pub fn same(&self, other: &SchemaDescriptor) -> (r: bool)
        ensures
            r == (self@ == other@),
    {
        if !self.subject.same(&other.subject) || self.known != other.known || !bytes_eq(self.rest.as_slice(), other.rest.as_slice())
            || self.facets.len() != other.facets.len() {
            proof {
                if self.facets.len() != other.facets.len() {
                    assert(self@.facets.len() != other@.facets.len());
                }
            }
            return false;
        }
        let mut k: usize = 0;
        while k < self.facets.len()
            invariant
                k <= self.facets@.len() == other.facets@.len(),
                forall|j: int| 0 <= j < k ==> self@.facets[j] == other@.facets[j],
            decreases self.facets@.len() - k,
        {
            if !self.facets[k].same(&other.facets[k]) {
                assert(self@.facets[k as int] != other@.facets[k as int]);
                return false;
            }
            k = k + 1;
        }
        assert(self@.facets =~= other@.facets);
        true
    }
}

fn find_descriptor(list: &Vec<SchemaDescriptor>, s: &SchemaSubject) -> (r: Option<usize>)
    ensures
        match r {
            Some(j) => lookup_from(descriptors_view(list@), s@, 0) == Some(j as int) && j < list@.len(),
            None => lookup_from(descriptors_view(list@), s@, 0) is None,
        },
{
    let ghost lv = descriptors_view(list@);
    let mut k: usize = 0;
    while k < list.len()
        invariant
            k <= list@.len(),
            lv == descriptors_view(list@),
            lookup_from(lv, s@, 0) == lookup_from(lv, s@, k as int),
        decreases list@.len() - k,
    {
        assert(lv[k as int] == list@[k as int]@);
        if list[k].subject.same(s) {
            return Some(k);
        }
        k = k + 1;
    }
    None
}

fn find_subject(subjects: &Vec<SchemaSubject>, s: &SchemaSubject) -> (r: Option<usize>)
    ensures
        match r {
            Some(p) => p < subjects@.len() && subjects@[p as int]@ == s@,
            None => forall|q: int| 0 <= q < subjects@.len() ==> subjects@[q]@ != s@,
        },
{
    let mut k: usize = 0;
    while k < subjects.len()
        invariant
            k <= subjects@.len(),
            forall|q: int| 0 <= q < k ==> subjects@[q]@ != s@,
        decreases subjects@.len() - k,
    {
        if subjects[k].same(s) {
            return Some(k);
        }
        k = k + 1;
    }
    None
}

/// The work carrying previous entry `i` into `next` charges: a selected
/// entry's facets against its successor's.
pub open spec fn entry_cost(all: Seq<DescriptorView>, next: Seq<DescriptorView>, subjects: Seq<SubjectView>, i: int) -> int {
    if selected_at(all, subjects, i) {
        match lookup_from(next, all[i].subject, 0) {
            Some(j) => descriptor_cost(all[i], next[j]),
            None => 0,
        }
    } else {
        0
    }
}

/// The work of entries `from..from + n`.
pub open spec fn range_cost(
    all: Seq<DescriptorView>,
    next: Seq<DescriptorView>,
    subjects: Seq<SubjectView>,
    from: int,
    n: int,
) -> int
    decreases n,
{
    if n <= 0 {
        0
    } else {
        range_cost(all, next, subjects, from, n - 1) + entry_cost(all, next, subjects, from + n - 1)
    }
}

proof fn lemma_entry_cost_nonnegative(all: Seq<DescriptorView>, next: Seq<DescriptorView>, subjects: Seq<SubjectView>, i: int)
    ensures
        entry_cost(all, next, subjects, i) >= 0,
{
    if selected_at(all, subjects, i) {
        if let Some(j) = lookup_from(next, all[i].subject, 0) {
            lemma_facets_cost_nonnegative(all[i], next[j], all[i].facets.len() as int);
        }
    }
}

proof fn lemma_range_cost_mono(
    all: Seq<DescriptorView>,
    next: Seq<DescriptorView>,
    subjects: Seq<SubjectView>,
    from: int,
    i: int,
    j: int,
)
    requires
        0 <= i <= j,
    ensures
        0 <= range_cost(all, next, subjects, from, i) <= range_cost(all, next, subjects, from, j),
    decreases j,
{
    if j > 0 {
        lemma_entry_cost_nonnegative(all, next, subjects, from + j - 1);
        if i < j {
            lemma_range_cost_mono(all, next, subjects, from, i, j - 1);
        } else {
            lemma_range_cost_mono(all, next, subjects, from, i - 1, j - 1);
        }
    }
}

/// The work preserving a whole catalog charges.
pub open spec fn preserve_cost(prev: SchemaCatalog, next: SchemaCatalog, subjects: Seq<SubjectView>) -> int {
    let all = all_descriptors(prev);
    let d = prev.definitions@.len() as int;
    range_cost(all, descriptors_view(next.definitions@), subjects, 0, d) + range_cost(
        all,
        descriptors_view(next.slots@),
        subjects,
        d,
        prev.slots@.len() as int,
    )
}

/// Carry one list of previous descriptors, at `offset` in `all`, into `next`.
fn preserve_list(
    prev: &Vec<SchemaDescriptor>,
    next: &Vec<SchemaDescriptor>,
    subjects: &Vec<SchemaSubject>,
    used: &mut Vec<bool>,
    left: &mut usize,
    Ghost(all): Ghost<Seq<DescriptorView>>,
    Ghost(offset): Ghost<int>,
) -> (r: Result<usize, MembershipError>)
    requires
        0 <= offset,
        offset + prev@.len() <= all.len(),
        forall|i: int| 0 <= i < prev@.len() ==> all[offset + i] == #[trigger] prev@[i]@,
        old(used)@.len() == subjects@.len(),
        subjects_distinct(subjects_view(subjects@)),
        forall|q: int|
            0 <= q < subjects@.len() ==> (#[trigger] old(used)@[q] <==> exists|k: int|
                0 <= k < offset && all[k].subject == subjects@[q]@),
    ensures
        final(used)@.len() == subjects@.len(),
        *final(left) <= *old(left),
        r matches Ok(n) ==> {
            &&& n == selected_count(all, subjects_view(subjects@), offset, prev@.len() as int)
            &&& forall|g: int|
                offset <= g < offset + prev@.len() ==> preserved_at(all, descriptors_view(next@), subjects_view(subjects@), g)
            &&& forall|q: int|
                0 <= q < subjects@.len() ==> (#[trigger] final(used)@[q] <==> exists|k: int|
                    0 <= k < offset + prev@.len() && all[k].subject == subjects@[q]@)
        },
        r matches Err(e) ==> e is Limit || exists|g: int|
            offset <= g < offset + prev@.len() && !preserved_at(all, descriptors_view(next@), subjects_view(subjects@), g),
        r is Ok ==> *final(left) == *old(left) - range_cost(
            all,
            descriptors_view(next@),
            subjects_view(subjects@),
            offset,
            prev@.len() as int,
        ),
        *old(left) >= range_cost(all, descriptors_view(next@), subjects_view(subjects@), offset, prev@.len() as int)
            ==> (r is Ok <==> forall|g: int|
            offset <= g < offset + prev@.len() ==> preserved_at(all, descriptors_view(next@), subjects_view(subjects@), g)),
        r matches Err(MembershipError::Limit) ==> *old(left) < range_cost(
            all,
            descriptors_view(next@),
            subjects_view(subjects@),
            offset,
            prev@.len() as int,
        ),
{
    let ghost sv = subjects_view(subjects@);
    let ghost nv = descriptors_view(next@);
    let mut count: usize = 0;
    let mut i: usize = 0;
    while i < prev.len()
        invariant
            i <= prev@.len(),
            0 <= offset,
            offset + prev@.len() <= all.len(),
            forall|i: int| 0 <= i < prev@.len() ==> all[offset + i] == #[trigger] prev@[i]@,
            sv == subjects_view(subjects@),
            nv == descriptors_view(next@),
            subjects_distinct(sv),
            used@.len() == subjects@.len(),
            0 <= range_cost(all, nv, sv, offset, i as int) <= *old(left),
            *left == *old(left) - range_cost(all, nv, sv, offset, i as int),
            count <= i,
            count == selected_count(all, sv, offset, i as int),
            forall|k: int| offset <= k < offset + i ==> preserved_at(all, nv, sv, k),
            forall|q: int|
                0 <= q < subjects@.len() ==> (#[trigger] used@[q] <==> exists|k: int|
                    0 <= k < offset + i && all[k].subject == subjects@[q]@),
        decreases prev@.len() - i,
    {
        let e = &prev[i];
        let ghost g = offset + i;
        assert(all[g] == e@);
        proof {
            lemma_range_cost_mono(all, nv, sv, offset, i as int + 1, prev@.len() as int);
            lemma_range_cost_mono(all, nv, sv, offset, 0, i as int);
            lemma_entry_cost_nonnegative(all, nv, sv, g);
            assert(range_cost(all, nv, sv, offset, i as int + 1) == range_cost(all, nv, sv, offset, i as int)
                + entry_cost(all, nv, sv, g));
        }
        let j = match find_descriptor(next, &e.subject) {
            Some(j) => j,
            None => {
                assert(!preserved_at(all, nv, sv, g));
                return Err(MembershipError::Refinement(RefinementProblem::MissingSuccessor));
            },
        };
        assert(nv[j as int] == next@[j as int]@);
        let p = find_subject(subjects, &e.subject);
        let selected = match p {
            Some(p) => !used[p],
            None => false,
        };
        proof {
            match p {
                Some(p) => {
                    assert(sv[p as int] == subjects@[p as int]@);
                    assert(sv.contains(all[g].subject));
                    if !selected {
                        let k = choose|k: int| 0 <= k < g && all[k].subject == subjects@[p as int]@;
                        assert(all[k].subject == all[g].subject);
                    }
                },
                None => {
                    if sv.contains(all[g].subject) {
                        let q = choose|q: int| 0 <= q < sv.len() && sv[q] == all[g].subject;
                        assert(subjects@[q]@ == sv[q]);
                    }
                },
            }
            assert(selected == selected_at(all, sv, g));
        }
        if selected {
            let p = match p {
                Some(p) => p,
                None => 0,
            };
            let ghost before = used@;
            used.set(p, true);
            let (changed, _) = match check_descriptor(left, e, &next[j]) {
                Ok(flags) => flags,
                Err(err) => {
                    proof {
                        if !(err is Limit) {
                            assert(!preserved_at(all, nv, sv, g));
                        }
                    }
                    return Err(err);
                },
            };
            if !changed {
                assert(!preserved_at(all, nv, sv, g));
                return Err(MembershipError::Refinement(RefinementProblem::NoAdditions));
            }
            count = count + 1;
            proof {
                assert forall|q: int| 0 <= q < subjects@.len() implies (#[trigger] used@[q] <==> exists|k: int|
                    0 <= k < g + 1 && all[k].subject == subjects@[q]@) by {
                    if q != p {
                        assert(used@[q] == before[q]);
                        assert(sv[q] == subjects@[q]@ && sv[p as int] == subjects@[p as int]@);
                        assert(sv[q] != sv[p as int]);
                    } else {
                        assert(all[g].subject == subjects@[q]@);
                    }
                }
            }
        } else {
            if !e.same(&next[j]) {
                assert(!preserved_at(all, nv, sv, g));
                return Err(MembershipError::ChangedDeclaration);
            }
            proof {
                assert forall|q: int| 0 <= q < subjects@.len() implies (#[trigger] used@[q] <==> exists|k: int|
                    0 <= k < g + 1 && all[k].subject == subjects@[q]@) by {
                    if all[g].subject == subjects@[q]@ {
                        assert(sv[q] == subjects@[q]@);
                        assert(sv.contains(all[g].subject));
                        if !used@[q] {
                            assert(p is Some);
                            let pp = p->0;
                            if pp != q {
                                assert(sv[pp as int] == subjects@[pp as int]@);
                                assert(sv[q] != sv[pp as int]);
                            }
                        }
                    }
                }
            }
        }
        assert(preserved_at(all, nv, sv, g));
        i = i + 1;
    }
    Ok(count)
}

/// Check that `next` preserves `prev` under the policy's selected subjects.
/// Returns how many selected definitions and slots were refined.
pub fn preserve(
    policy: &SchemaMembershipRefinement,
    prev: &SchemaCatalog,
    next: &SchemaCatalog,
    left: &mut usize,
) -> (r: Result<(usize, usize), MembershipError>)
    ensures
        r matches Ok(counts) ==> {
            let sv = subjects_view(policy.subjects@);
            let all = all_descriptors(*prev);
            &&& subjects_distinct(sv)
            &&& catalog_preserved(*prev, *next, sv)
            &&& counts.0 == selected_count(all, sv, 0, prev.definitions@.len() as int)
            &&& counts.1 == selected_count(all, sv, prev.definitions@.len() as int, prev.slots@.len() as int)
        },
        r matches Err(e) ==> e is Limit || !(subjects_distinct(subjects_view(policy.subjects@)) && catalog_preserved(
            *prev,
            *next,
            subjects_view(policy.subjects@),
        )),
        *old(left) >= preserve_cost(*prev, *next, subjects_view(policy.subjects@)) ==> (r is Ok <==> subjects_distinct(
            subjects_view(policy.subjects@),
        ) && catalog_preserved(*prev, *next, subjects_view(policy.subjects@))),
        r is Ok ==> *final(left) == *old(left) - preserve_cost(*prev, *next, subjects_view(policy.subjects@)),
        r matches Err(MembershipError::Limit) ==> *old(left) < preserve_cost(*prev, *next, subjects_view(policy.subjects@)),
        *final(left) <= *old(left),
{
    let ghost sv = subjects_view(policy.subjects@);
    let ghost all = all_descriptors(*prev);
    match check_subjects(policy) {
        Ok(()) => {},
        Err(e) => {
            proof {
                let (a, b) = choose|a: int, b: int| 0 <= a < b < policy.subjects@.len() && policy.subjects@[a]@ == policy.subjects@[b]@;
                assert(sv[a] == sv[b]);
            }
            return Err(e);
        },
    }
    assert(subjects_distinct(sv)) by {
        assert forall|a: int, b: int| 0 <= a < b < sv.len() implies sv[a] != sv[b] by {
            assert(sv[a] == policy.subjects@[a]@ && sv[b] == policy.subjects@[b]@);
        }
    }
    let subjects = &policy.subjects;
    let mut used: Vec<bool> = Vec::new();
    let mut k: usize = 0;
    while k < subjects.len()
        invariant
            k <= subjects@.len(),
            used@.len() == k,
            forall|q: int| 0 <= q < k ==> !used@[q],
        decreases subjects@.len() - k,
    {
        used.push(false);
        k = k + 1;
    }
    let ghost d = prev.definitions@.len() as int;
    assert forall|i: int| 0 <= i < prev.definitions@.len() implies all[0 + i] == #[trigger] prev.definitions@[i]@ by {
        assert(descriptors_view(prev.definitions@)[i] == prev.definitions@[i]@);
    }
    assert forall|i: int| 0 <= i < prev.slots@.len() implies all[d + i] == #[trigger] prev.slots@[i]@ by {
        assert(descriptors_view(prev.slots@)[i] == prev.slots@[i]@);
    }
    let ghost start = *left;
    let ghost c1 = range_cost(all, descriptors_view(next.definitions@), sv, 0, d);
    let ghost c2 = range_cost(all, descriptors_view(next.slots@), sv, d, prev.slots@.len() as int);
    proof {
        lemma_range_cost_mono(all, descriptors_view(next.definitions@), sv, 0, 0, d);
        lemma_range_cost_mono(all, descriptors_view(next.slots@), sv, d, 0, prev.slots@.len() as int);
        assert(subjects_view(subjects@) == sv);
    }
    let defs = match preserve_list(&prev.definitions, &next.definitions, subjects, &mut used, left, Ghost(all), Ghost(0)) {
        Ok(n) => n,
        Err(e) => {
            proof {
                if !(e is Limit) {
                    let g = choose|g: int|
                        0 <= g < 0 + prev.definitions@.len() && !preserved_at(all, descriptors_view(next.definitions@), sv, g);
                    assert(!catalog_preserved(*prev, *next, sv));
                }
            }
            return Err(e);
        },
    };
    let slots = match preserve_list(&prev.slots, &next.slots, subjects, &mut used, left, Ghost(all), Ghost(d)) {
        Ok(n) => n,
        Err(e) => {
            proof {
                if !(e is Limit) {
                    let g = choose|g: int|
                        d <= g < d + prev.slots@.len() && !preserved_at(all, descriptors_view(next.slots@), sv, g);
                    assert(!catalog_preserved(*prev, *next, sv));
                }
            }
            return Err(e);
        },
    };
    proof {
        assert(all.len() == d + prev.slots@.len());
        assert forall|p: int| 0 <= p < sv.len() implies (#[trigger] used@[p] <==> covered(all, sv[p])) by {
            assert(sv[p] == subjects@[p]@);
        }
    }
    let mut q: usize = 0;
    while q < used.len()
        invariant
            q <= used@.len() == subjects@.len() == sv.len(),
            all == all_descriptors(*prev),
            sv == subjects_view(policy.subjects@),
            *left == *old(left) - c1 - c2,
            c1 >= 0,
            c2 >= 0,
            c1 + c2 == preserve_cost(*prev, *next, sv),
            d == prev.definitions@.len() as int,
            forall|i: int| 0 <= i < d ==> preserved_at(all, descriptors_view(next.definitions@), sv, i),
            forall|i: int| d <= i < all.len() ==> preserved_at(all, descriptors_view(next.slots@), sv, i),
            forall|p: int| 0 <= p < sv.len() ==> (#[trigger] used@[p] <==> covered(all, sv[p])),
            forall|p: int| 0 <= p < q ==> used@[p],
        decreases used@.len() - q,
    {
        if !used[q] {
            proof {
                assert(!covered(all, sv[q as int]));
                assert(!catalog_preserved(*prev, *next, sv));
            }
            return Err(MembershipError::Refinement(RefinementProblem::ForeignOrAbsentSubject));
        }
        q = q + 1;
    }
    proof {
        assert forall|p: int| 0 <= p < sv.len() implies covered(all, #[trigger] sv[p]) by {
            assert(used@[p]);
        }
    }
    Ok((defs, slots))
}

/// The descriptor list a subject is looked up in.
pub open spec fn list_for(c: SchemaCatalog, s: SubjectView) -> Seq<DescriptorView> {
    match s {
        SubjectView::Definition(_) => descriptors_view(c.definitions@),
        SubjectView::Slot(_) => descriptors_view(c.slots@),
    }
}

/// A selected subject of the current schema: in its namespace, described,
/// known, and with a nonempty partial facet a refinement can extend.
pub open spec fn currently_eligible(c: SchemaCatalog, namespace: Seq<u8>, s: SubjectView) -> bool {
    &&& subject_in_namespace(s, namespace)
    &&& match lookup_from(list_for(c, s), s, 0) {
        None => false,
        Some(j) => list_for(c, s)[j].known && has_eligible(list_for(c, s)[j]),
    }
}

/// The work checking one subject's current descriptor charges.
pub open spec fn subject_cost(c: SchemaCatalog, s: SubjectView) -> int {
    match lookup_from(list_for(c, s), s, 0) {
        Some(j) => descriptor_cost(list_for(c, s)[j], list_for(c, s)[j]),
        None => 0,
    }
}

/// The work validating a policy against the current schema charges: one
/// unit per subject, then each described subject's facets.
pub open spec fn validation_cost(policy: SchemaMembershipRefinement, c: SchemaCatalog) -> int {
    policy.subjects@.len() + sum_of(subjects_view(policy.subjects@), |s: SubjectView| subject_cost(c, s))
}

/// Check a refinement policy against the current schema: its subjects are
/// distinct and each is currently eligible.
pub fn validate_current(
    policy: &SchemaMembershipRefinement,
    current: &SchemaCatalog,
    namespace: &Vec<u8>,
    left: &mut usize,
) -> (r: Result<(), MembershipError>)
    ensures
        *old(left) >= validation_cost(*policy, *current) ==> (r is Ok <==> subjects_distinct(subjects_view(policy.subjects@))
            && forall|q: int|
            0 <= q < policy.subjects@.len() ==> currently_eligible(*current, namespace@, #[trigger] policy.subjects@[q]@)),
        r is Ok ==> *final(left) == *old(left) - validation_cost(*policy, *current),
        r is Ok ==> subjects_distinct(subjects_view(policy.subjects@)) && forall|q: int|
            0 <= q < policy.subjects@.len() ==> currently_eligible(*current, namespace@, #[trigger] policy.subjects@[q]@),
        r matches Err(e) ==> e is Limit || !(subjects_distinct(subjects_view(policy.subjects@)) && forall|q: int|
            0 <= q < policy.subjects@.len() ==> currently_eligible(*current, namespace@, #[trigger] policy.subjects@[q]@)),
        r matches Err(MembershipError::Limit) ==> *old(left) < validation_cost(*policy, *current),
        *final(left) <= *old(left),
{
    let ghost sv = subjects_view(policy.subjects@);
    let ghost f = |s: SubjectView| subject_cost(*current, s);
    let ghost start = *left;
    proof {
        assert forall|x: SubjectView| #[trigger] f(x) >= 0 by {
            if let Some(j) = lookup_from(list_for(*current, x), x, 0) {
                let d = list_for(*current, x)[j];
                lemma_facets_cost_nonnegative(d, d, d.facets.len() as int);
            }
        }
        assert(sv.take(0) =~= Seq::<SubjectView>::empty());
        assert(sv.take(sv.len() as int) =~= sv);
        lemma_sum_mono(sv, f, 0, sv.len() as int);
    }
    if policy.subjects.len() > *left {
        return Err(MembershipError::Limit);
    }
    *left = *left - policy.subjects.len();
    match check_subjects(policy) {
        Ok(()) => {},
        Err(e) => {
            proof {
                let (a, b) = choose|a: int, b: int| 0 <= a < b < policy.subjects@.len() && policy.subjects@[a]@ == policy.subjects@[b]@;
                assert(sv[a] == sv[b]);
            }
            return Err(e);
        },
    }
    let subjects = &policy.subjects;
    let mut q: usize = 0;
    while q < subjects.len()
        invariant
            q <= subjects@.len(),
            subjects == &policy.subjects,
            sv == subjects_view(policy.subjects@),
            f == (|s: SubjectView| subject_cost(*current, s)),
            forall|x: SubjectView| #[trigger] f(x) >= 0,
            sv.take(sv.len() as int) == sv,
            start == *old(left),
            subjects@.len() + sum_of(sv.take(q as int), f) <= start,
            0 <= sum_of(sv.take(q as int), f),
            *left == start - subjects@.len() - sum_of(sv.take(q as int), f),
            forall|p: int| 0 <= p < q ==> currently_eligible(*current, namespace@, #[trigger] subjects@[p]@),
        decreases subjects@.len() - q,
    {
        proof {
            lemma_sum_step(sv, f, q as int);
            lemma_sum_mono(sv, f, q as int + 1, sv.len() as int);
            lemma_sum_mono(sv, f, q as int, q as int + 1);
            assert(sv[q as int] == subjects@[q as int]@);
        }
        let s = &subjects[q];
        if check_namespace(s, namespace).is_err() {
            assert(!currently_eligible(*current, namespace@, subjects@[q as int]@));
            return Err(MembershipError::Refinement(RefinementProblem::ForeignSubject));
        }
        let list = match s {
            SchemaSubject::Definition(_) => &current.definitions,
            SchemaSubject::Slot(_) => &current.slots,
        };
        assert(descriptors_view(list@) == list_for(*current, s@));
        let j = match find_descriptor(list, s) {
            Some(j) => j,
            None => {
                assert(!currently_eligible(*current, namespace@, subjects@[q as int]@));
                return Err(MembershipError::Refinement(RefinementProblem::UnknownSubject));
            },
        };
        let row = &list[j];
        assert(list_for(*current, s@)[j as int] == row@);
        assert(f(sv[q as int]) == descriptor_cost(row@, row@));
        let (_, eligible_now) = match check_descriptor(left, row, row) {
            Ok(flags) => flags,
            Err(e) => {
                proof {
                    if !(e is Limit) {
                        assert(!currently_eligible(*current, namespace@, subjects@[q as int]@));
                    }
                }
                return Err(e);
            },
        };
        if !eligible_now {
            assert(!currently_eligible(*current, namespace@, subjects@[q as int]@));
            return Err(MembershipError::Refinement(RefinementProblem::NotEligible));
        }
        q = q + 1;
    }
    proof {
        assert(sv.take(q as int) =~= sv);
        assert(subjects_distinct(sv)) by {
            assert forall|a: int, b: int| 0 <= a < b < sv.len() implies sv[a] != sv[b] by {
                assert(sv[a] == policy.subjects@[a]@ && sv[b] == policy.subjects@[b]@);
            }
        }
    }
    Ok(())
}

/// The successor descriptor of previous entry `i`.
pub open spec fn successor_of(prev: SchemaCatalog, next: SchemaCatalog, i: int) -> Option<DescriptorView> {
    let all = all_descriptors(prev);
    let list = if i < prev.definitions@.len() {
        descriptors_view(next.definitions@)
    } else {
        descriptors_view(next.slots@)
    };
    match lookup_from(list, all[i].subject, 0) {
        Some(j) => Some(list[j]),
        None => None,
    }
}

/// Across a preserved successor no previous descriptor disappears, and every
/// member of every facet survives, with the facet's closure unchanged.
pub proof fn law_preserve_keeps_members(prev: SchemaCatalog, next: SchemaCatalog, subjects: Seq<SubjectView>, i: int, f: int, m: int)
    requires
        catalog_preserved(prev, next, subjects),
        0 <= i < all_descriptors(prev).len(),
        0 <= f < all_descriptors(prev)[i].facets.len(),
        0 <= m < all_descriptors(prev)[i].facets[f].members.len(),
    ensures
        successor_of(prev, next, i) is Some,
        successor_of(prev, next, i)->0.facets[f].members.contains(all_descriptors(prev)[i].facets[f].members[m]),
        successor_of(prev, next, i)->0.facets[f].closure == all_descriptors(prev)[i].facets[f].closure,
{
    let all = all_descriptors(prev);
    let d = prev.definitions@.len() as int;
    let list = if i < d {
        descriptors_view(next.definitions@)
    } else {
        descriptors_view(next.slots@)
    };
    assert(preserved_at(all, list, subjects, i));
    let j = lookup_from(list, all[i].subject, 0)->0;
    let a = all[i].facets[f];
    let b = list[j].facets[f];
    if a != b {
        assert(refines(a, b));
        law_refinement_keeps_members(a, b, m);
    } else {
        assert(b.members[m] == a.members[m]);
    }
}

} // verus!
