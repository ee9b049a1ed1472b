//! Typed, monotonic additions to partial schema membership. A refinement may
//! only add members to a partial set: it keeps every existing member in its
//! order, never closes or changes the set's gaps and never touches a complete set.
use crate::registry::{SchemaSubject, SubjectView};
use crate::text::bytes_eq;
use vstd::prelude::*;

verus! {

/// The aspect of a subject that a schema gap leaves open.
#[derive(Clone, Copy, Debug, PartialEq, Eq, Structural)]
pub enum SchemaFacet {
    InputSchema,
    OutputSchema,
    Membership,
}

/// A recorded reason why a declared set is not known to be complete.
#[derive(Clone, Debug, PartialEq, Eq)]
pub struct SchemaGap {
    pub subject: SchemaSubject,
    pub facet: SchemaFacet,
    pub code: Vec<u8>,
}

pub struct GapView {
    pub subject: SubjectView,
    pub facet: SchemaFacet,
    pub code: Seq<u8>,
}

impl View for SchemaGap {
    type V = GapView;

    open spec fn view(&self) -> GapView {
        GapView { subject: self.subject@, facet: self.facet, code: self.code@ }
    }
}

/// Whether a declared set is known complete, or partial with its gaps.
#[derive(Clone, Debug, PartialEq, Eq)]
pub enum SchemaClosure {
    Complete,
    Partial { gaps: Vec<SchemaGap> },
}

pub enum ClosureView {
    Complete,
    Partial(Seq<GapView>),
}

impl View for SchemaClosure {
    type V = ClosureView;

    open spec fn view(&self) -> ClosureView {
        match self {
            SchemaClosure::Complete => ClosureView::Complete,
            SchemaClosure::Partial { gaps } => ClosureView::Partial(gaps@.map_values(|g: SchemaGap| g@)),
        }
    }
}

/// An ordered set of members with its closure.
#[derive(Clone, Debug, PartialEq, Eq)]
pub struct DeclaredSet {
    pub members: Vec<u64>,
    pub closure: SchemaClosure,
}

pub struct DeclaredSetView {
    pub members: Seq<u64>,
    pub closure: ClosureView,
}

impl View for DeclaredSet {
    type V = DeclaredSetView;

    open spec fn view(&self) -> DeclaredSetView {
        DeclaredSetView { members: self.members@, closure: self.closure@ }
    }
}

impl DeclaredSet {
    /// A complete set of members.
    pub fn complete(members: Vec<u64>) -> (r: DeclaredSet)
        ensures
            r@ == (DeclaredSetView { members: members@, closure: ClosureView::Complete }),
    {
        DeclaredSet { members, closure: SchemaClosure::Complete }
    }

    /// A partial set of members with the gaps that keep it open.
    pub fn partial(members: Vec<u64>, gaps: Vec<SchemaGap>) -> (r: DeclaredSet)
        ensures
            r@ == (DeclaredSetView {
                members: members@,
                closure: ClosureView::Partial(gaps@.map_values(|g: SchemaGap| g@)),
            }),
    {
        DeclaredSet { members, closure: SchemaClosure::Partial { gaps } }
    }

    pub fn duplicate(&self) -> (r: DeclaredSet)
        ensures
            r@ == self@,
    {
        let mut members: Vec<u64> = Vec::new();
        let mut k: usize = 0;
        while k < self.members.len()
            invariant
                k <= self.members@.len(),
                members@ == self.members@.take(k as int),
            decreases self.members@.len() - k,
        {
            members.push(self.members[k]);
            assert(members@ =~= self.members@.take(k + 1));
            k = k + 1;
        }
        assert(self.members@.take(k as int) =~= self.members@);
        DeclaredSet { members, closure: self.closure.duplicate() }
    }

    pub fn same(&self, other: &DeclaredSet) -> (r: bool)
        ensures
            r == (self@ == other@),
    {
        members_equal(&self.members, &other.members) && self.closure.same(&other.closure)
    }

    pub fn is_complete(&self) -> (r: bool)
        ensures
            r == (self@.closure is Complete),
    {
        match self.closure {
            SchemaClosure::Complete => true,
            _ => false,
        }
    }
}

/// Why a refinement was refused.
#[derive(Clone, Copy, Debug, PartialEq, Eq, Structural)]
pub enum RefinementProblem {
    ClosureChanged,
    NotAnAddition,
    DuplicatePreviousMember,
    DuplicateAddedMember,
    Reordered,
    Removed,
    DuplicateSubject,
    /// A selected descriptor's schema is not known on both sides.
    RequiresKnown,
    /// A selected descriptor changed outside its membership facets.
    ChangedFields,
    /// A previous descriptor has no successor.
    MissingSuccessor,
    /// A selected descriptor gained no member.
    NoAdditions,
    /// A selected subject is not a previous descriptor.
    ForeignOrAbsentSubject,
    /// A selected subject lies in another namespace.
    ForeignSubject,
    /// A selected subject is not in the current schema.
    UnknownSubject,
    /// A selected subject has no nonempty partial facet.
    NotEligible,
}

#[derive(Clone, Copy, Debug, PartialEq, Eq, Structural)]
pub enum MembershipError {
    /// The membership work budget ran out.
    Limit,
    Refinement(RefinementProblem),
    /// A descriptor that no subject selects changed.
    ChangedDeclaration,
}

pub open spec fn distinct(s: Seq<u64>) -> bool {
    forall|i: int, j: int| 0 <= i < j < s.len() ==> s[i] != s[j]
}

/// The members of `new`, in order, that already belong to `prev`.
pub open spec fn kept(new: Seq<u64>, prev: Seq<u64>, n: int) -> Seq<u64>
    decreases n,
{
    if n <= 0 {
        seq![]
    } else if prev.contains(new[n - 1]) {
        kept(new, prev, n - 1).push(new[n - 1])
    } else {
        kept(new, prev, n - 1)
    }
}

/// `new` adds members to `prev`: both are duplicate-free, `new` is longer, and
/// the members of `new` that were in `prev` are exactly `prev`, in order.
pub open spec fn adds_members(prev: Seq<u64>, new: Seq<u64>) -> bool {
    &&& new.len() > prev.len()
    &&& distinct(prev)
    &&& distinct(new)
    &&& kept(new, prev, new.len() as int) == prev
}

/// `new` is an acceptable refinement of `prev`: the same partial closure and
/// added members.
pub open spec fn refines(prev: DeclaredSetView, new: DeclaredSetView) -> bool {
    &&& prev.closure == new.closure
    &&& prev.closure is Partial
    &&& adds_members(prev.members, new.members)
}

/// A nonempty partial set, which a refinement policy may select.
pub open spec fn eligible(new: DeclaredSetView) -> bool {
    new.closure is Partial && new.members.len() > 0
}

impl SchemaGap {
    pub fn same(&self, other: &SchemaGap) -> (r: bool)
        ensures
            r == (self@ == other@),
    {
        self.subject.same(&other.subject) && self.facet == other.facet && bytes_eq(
            self.code.as_slice(),
            other.code.as_slice(),
        )
    }
}

impl SchemaGap {
    pub fn duplicate(&self) -> (r: SchemaGap)
        ensures
            r@ == self@,
    {
        SchemaGap { subject: self.subject.duplicate(), facet: self.facet, code: crate::text::copy_bytes(self.code.as_slice()) }
    }
}

impl SchemaClosure {
    pub fn duplicate(&self) -> (r: SchemaClosure)
        ensures
            r@ == self@,
    {
        match self {
            SchemaClosure::Complete => SchemaClosure::Complete,
            SchemaClosure::Partial { gaps } => {
                let mut out: Vec<SchemaGap> = Vec::new();
                let mut k: usize = 0;
                while k < gaps.len()
                    invariant
                        k <= gaps@.len(),
                        out@.len() == k,
                        forall|j: int| 0 <= j < k ==> #[trigger] out@[j]@ == gaps@[j]@,
                    decreases gaps@.len() - k,
                {
                    out.push(gaps[k].duplicate());
                    k = k + 1;
                }
                assert(out@.map_values(|g: SchemaGap| g@) =~= gaps@.map_values(|g: SchemaGap| g@));
                SchemaClosure::Partial { gaps: out }
            },
        }
    }

    pub fn same(&self, other: &SchemaClosure) -> (r: bool)
        ensures
            r == (self@ == other@),
    {
        match (self, other) {
            (SchemaClosure::Complete, SchemaClosure::Complete) => true,
            (SchemaClosure::Partial { gaps: a }, SchemaClosure::Partial { gaps: b }) => {
                if a.len() != b.len() {
                    proof {
                        assert(a@.map_values(|g: SchemaGap| g@).len() != b@.map_values(|g: SchemaGap| g@).len());
                    }
                    return false;
                }
                let ghost av = a@.map_values(|g: SchemaGap| g@);
                let ghost bv = b@.map_values(|g: SchemaGap| g@);
                assert(self@ == ClosureView::Partial(av));
                assert(other@ == ClosureView::Partial(bv));
                let mut k: usize = 0;
                while k < a.len()
                    invariant
                        k <= a@.len(),
                        a@.len() == b@.len(),
                        av == a@.map_values(|g: SchemaGap| g@),
                        bv == b@.map_values(|g: SchemaGap| g@),
                        self@ == ClosureView::Partial(av),
                        other@ == ClosureView::Partial(bv),
                        forall|j: int| 0 <= j < k ==> av[j] == bv[j],
                    decreases a@.len() - k,
                {
                    assert(av[k as int] == a@[k as int]@ && bv[k as int] == b@[k as int]@);
                    if !a[k].same(&b[k]) {
                        assert(av[k as int] != bv[k as int]);
                        return false;
                    }
                    k = k + 1;
                }
                assert(av =~= bv);
                true
            },
            _ => false,
        }
    }
}

fn members_equal(a: &Vec<u64>, b: &Vec<u64>) -> (r: bool)
    ensures
        r == (a@ == b@),
{
    if a.len() != b.len() {
        return false;
    }
    let mut k: usize = 0;
    while k < a.len()
        invariant
            k <= a@.len(),
            a@.len() == b@.len(),
            forall|j: int| 0 <= j < k ==> a@[j] == b@[j],
        decreases a@.len() - k,
    {
        if a[k] != b[k] {
            return false;
        }
        k = k + 1;
    }
    assert(a@ =~= b@);
    true
}

fn contains_member(s: &Vec<u64>, m: u64) -> (r: bool)
    ensures
        r == s@.contains(m),
{
    let mut k: usize = 0;
    while k < s.len()
        invariant
            k <= s@.len(),
            forall|j: int| 0 <= j < k ==> s@[j] != m,
        decreases s@.len() - k,
    {
        if s[k] == m {
            return true;
        }
        k = k + 1;
    }
    false
}

fn has_duplicates(s: &Vec<u64>) -> (r: bool)
    ensures
        r == !distinct(s@),
{
    let mut i: usize = 0;
    while i < s.len()
        invariant
            i <= s@.len(),
            forall|a: int, b: int| 0 <= a < b < s@.len() && a < i ==> s@[a] != s@[b],
        decreases s@.len() - i,
    {
        let mut j: usize = i + 1;
        while j < s.len()
            invariant
                i < j <= s@.len(),
                forall|a: int, b: int| 0 <= a < b < s@.len() && a < i ==> s@[a] != s@[b],
                forall|b: int| i < b < j ==> s@[i as int] != s@[b],
            decreases s@.len() - j,
        {
            if s[i] == s[j] {
                return true;
            }
            j = j + 1;
        }
        i = i + 1;
    }
    false
}

fn refuse(problem: RefinementProblem) -> (r: Result<(bool, bool), MembershipError>)
    ensures
        r == Err::<(bool, bool), MembershipError>(MembershipError::Refinement(problem)),
{
    Err(MembershipError::Refinement(problem))
}

/// Check one declared set of a selected subject against its successor and,
/// when the successor only adds members, take its members. Returns whether
/// the set changed and whether the successor is a nonempty partial set.
/// Both sets' sizes are charged before anything is compared.
#[verifier::loop_isolation(false)]
pub fn refine_set(left: &mut usize, current: &mut DeclaredSet, new: &DeclaredSet) -> (r: Result<(bool, bool), MembershipError>)
    ensures
        *old(left) < old(current)@.members.len() + new@.members.len() ==> r == Err::<(bool, bool), MembershipError>(
            MembershipError::Limit,
        ),
        *old(left) >= old(current)@.members.len() + new@.members.len() ==> *final(left) == *old(left) - old(current)@.members.len() - new@.members.len(),
        r is Ok <==> (*old(left) >= old(current)@.members.len() + new@.members.len() && (old(current)@ == new@ || refines(
            old(current)@,
            new@,
        ))),
        r matches Ok(flags) ==> {
            &&& flags.0 == (old(current)@ != new@)
            &&& flags.1 == eligible(new@)
            &&& final(current)@.members == new@.members
            &&& final(current)@.closure == old(current)@.closure
        },
        r is Err ==> final(current)@ == old(current)@,
        r matches Err(e) ==> e is Limit || e is Refinement,
        r matches Err(MembershipError::Limit) ==> *old(left) < old(current)@.members.len() + new@.members.len(),
        *final(left) <= *old(left),
{
    let ghost o = current@;
    let ghost nv = new@;
    if *left < current.members.len() {
        return Err(MembershipError::Limit);
    }
    *left = *left - current.members.len();
    if *left < new.members.len() {
        return Err(MembershipError::Limit);
    }
    *left = *left - new.members.len();
    let is_eligible = !new.is_complete() && new.members.len() > 0;
    if members_equal(&current.members, &new.members) && current.closure.same(&new.closure) {
        return Ok((false, is_eligible));
    }
    if !current.closure.same(&new.closure) || current.is_complete() {
        return refuse(RefinementProblem::ClosureChanged);
    }
    if new.members.len() <= current.members.len() {
        return refuse(RefinementProblem::NotAnAddition);
    }
    if has_duplicates(&current.members) {
        return refuse(RefinementProblem::DuplicatePreviousMember);
    }
    let mut expected: usize = 0;
    let mut i: usize = 0;
    while i < new.members.len()
        invariant
            i <= nv.members.len(),
            nv == new@,
            o == current@,
            forall|a: int, b: int| 0 <= a < b < i ==> nv.members[a] != nv.members[b],
            expected <= o.members.len(),
            kept(nv.members, o.members, i as int) == o.members.take(expected as int),
        decreases nv.members.len() - i,
    {
        let m = new.members[i];
        let mut j: usize = 0;
        while j < i
            invariant
                j <= i < nv.members.len(),
                nv == new@,
                m == nv.members[i as int],
                forall|b: int| 0 <= b < j ==> nv.members[b] != m,
            decreases i - j,
        {
            if new.members[j] == m {
                assert(!distinct(nv.members));
                return refuse(RefinementProblem::DuplicateAddedMember);
            }
            j = j + 1;
        }
        if contains_member(&current.members, m) {
            if expected >= current.members.len() || current.members[expected] != m {
                proof {
                    if distinct(nv.members) && kept(nv.members, o.members, nv.members.len() as int) == o.members {
                        lemma_kept_prefix(nv.members, o.members, i + 1, nv.members.len() as int);
                        let full = kept(nv.members, o.members, nv.members.len() as int);
                        let part = kept(nv.members, o.members, i + 1);
                        assert(part == o.members.take(expected as int).push(m));
                        assert(full.take(part.len() as int) == part);
                        if expected < o.members.len() {
                            assert(part[expected as int] == m);
                            assert(full[expected as int] == o.members[expected as int]);
                        }
                        assert(false);
                    }
                }
                return refuse(RefinementProblem::Reordered);
            }
            assert(o.members.take(expected + 1) =~= o.members.take(expected as int).push(m));
            expected = expected + 1;
        }
        i = i + 1;
    }
    if expected != current.members.len() {
        proof {
            assert(kept(nv.members, o.members, nv.members.len() as int).len() == expected);
        }
        return refuse(RefinementProblem::Removed);
    }
    assert(o.members.take(expected as int) =~= o.members);
    let mut copy: Vec<u64> = Vec::new();
    let mut k: usize = 0;
    while k < new.members.len()
        invariant
            k <= new@.members.len(),
            copy@ == new@.members.take(k as int),
        decreases new@.members.len() - k,
    {
        copy.push(new.members[k]);
        k = k + 1;
        assert(copy@ =~= new@.members.take(k as int));
    }
    assert(new@.members.take(k as int) =~= new@.members);
    current.members = copy;
    Ok((true, is_eligible))
}

/// The kept prefix of a longer prefix extends the kept prefix of a shorter one.
proof fn lemma_kept_prefix(new: Seq<u64>, prev: Seq<u64>, m: int, n: int)
    requires
        0 <= m <= n <= new.len(),
    ensures
        kept(new, prev, m).len() <= kept(new, prev, n).len(),
        kept(new, prev, n).take(kept(new, prev, m).len() as int) == kept(new, prev, m),
    decreases n,
{
    if m < n {
        lemma_kept_prefix(new, prev, m, n - 1);
        let a = kept(new, prev, m);
        let b = kept(new, prev, n - 1);
        if prev.contains(new[n - 1]) {
            assert(b.push(new[n - 1]).take(a.len() as int) =~= b.take(a.len() as int));
        }
    } else {
        assert(kept(new, prev, n).take(kept(new, prev, n).len() as int) =~= kept(new, prev, n));
    }
}


proof fn lemma_kept_members(new: Seq<u64>, prev: Seq<u64>, n: int, i: int)
    requires
        0 <= n <= new.len(),
        0 <= i < kept(new, prev, n).len(),
    ensures
        new.contains(kept(new, prev, n)[i]),
    decreases n,
{
    if n > 0 {
        if prev.contains(new[n - 1]) && i == kept(new, prev, n - 1).len() {
            assert(new[n - 1] == kept(new, prev, n)[i]);
        } else {
            lemma_kept_members(new, prev, n - 1, i);
        }
    }
}

/// A refinement keeps every existing member: added members never replace
/// removed ones.
pub proof fn law_refinement_keeps_members(prev: DeclaredSetView, new: DeclaredSetView, i: int)
    requires
        refines(prev, new),
        0 <= i < prev.members.len(),
    ensures
        new.members.contains(prev.members[i]),
        new.closure == prev.closure,
{
    lemma_kept_members(new.members, prev.members, new.members.len() as int, i);
}

/// Explicit permission to add members to partial sets of the listed subjects
/// between two schema identities.
#[derive(Debug)]
pub struct SchemaMembershipRefinement {
    pub schema_version: u32,
    pub before: Vec<u8>,
    pub after: Vec<u8>,
    pub subjects: Vec<SchemaSubject>,
}

/// Each subject of a refinement policy is listed once.
pub fn check_subjects(policy: &SchemaMembershipRefinement) -> (r: Result<(), MembershipError>)
    ensures
        r is Ok <==> forall|a: int, b: int|
            0 <= a < b < policy.subjects@.len() ==> policy.subjects@[a]@ != policy.subjects@[b]@,
        r is Err ==> r == Err::<(), MembershipError>(MembershipError::Refinement(RefinementProblem::DuplicateSubject)),
{
    let s = &policy.subjects;
    let mut i: usize = 0;
    while i < s.len()
        invariant
            i <= s@.len(),
            s == &policy.subjects,
            forall|a: int, b: int| 0 <= a < b < s@.len() && a < i ==> s@[a]@ != s@[b]@,
        decreases s@.len() - i,
    {
        let mut j: usize = i + 1;
        while j < s.len()
            invariant
                i < j <= s@.len(),
                s == &policy.subjects,
                forall|a: int, b: int| 0 <= a < b < s@.len() && a < i ==> s@[a]@ != s@[b]@,
                forall|b: int| i < b < j ==> s@[i as int]@ != s@[b]@,
            decreases s@.len() - j,
        {
            if s[i].same(&s[j]) {
                return Err(MembershipError::Refinement(RefinementProblem::DuplicateSubject));
            }
            j = j + 1;
        }
        i = i + 1;
    }
    Ok(())
}

} // verus!
