//! Release publication checks: query set names, the union of the source
//! footprints of a release's constituents, and artifact manifest lines.
use crate::gems::{lex_less, lex_lt};
use crate::provenance::{SourceFilePin, SourcePin};
use crate::recipe::{hex_encode, sha256_of};
use crate::text::{bytes_eq, copy_bytes};
use vstd::prelude::*;

verus! {

#[derive(Debug)]
pub enum OwnedReleaseError {
    Version(u32),
    InvalidLimit(&'static str),
    Limit(&'static str),
    Invalid(&'static str),
    QuerySetName,
}

/// A query set name: 1 to 64 lowercase ASCII letters, digits, hyphens or underscores.
pub open spec fn query_set_name_ok(name: Seq<u8>) -> bool {
    &&& 0 < name.len() <= 64
    &&& forall|i: int|
        0 <= i < name.len() ==> {
            let c = #[trigger] name[i];
            (0x61u8 <= c <= 0x7Au8) || (0x30u8 <= c <= 0x39u8) || c == 0x2Du8 || c == 0x5Fu8
        }
}

/// Query set names are each acceptable and pairwise distinct.
#[verifier::loop_isolation(false)]
pub fn check_query_set_names(names: &Vec<Vec<u8>>) -> (r: Result<(), OwnedReleaseError>)
    ensures
        r is Ok <==> (forall|i: int| 0 <= i < names@.len() ==> query_set_name_ok(#[trigger] names@[i]@)) && (forall|
            i: int,
            j: int,
        | 0 <= i < j < names@.len() ==> names@[i]@ != names@[j]@),
        r is Err ==> r matches Err(OwnedReleaseError::QuerySetName),
{
    let mut k: usize = 0;
    while k < names.len()
        invariant
            k <= names@.len(),
            forall|i: int| 0 <= i < k ==> query_set_name_ok(#[trigger] names@[i]@),
            forall|i: int, j: int| 0 <= i < j < k ==> names@[i]@ != names@[j]@,
        decreases names@.len() - k,
    {
        let name = &names[k];
        if name.len() == 0 || name.len() > 64 {
            return Err(OwnedReleaseError::QuerySetName);
        }
        let mut c: usize = 0;
        while c < name.len()
            invariant
                c <= name@.len(),
                forall|i: int|
                    0 <= i < c ==> {
                        let b = #[trigger] name@[i];
                        (0x61u8 <= b <= 0x7Au8) || (0x30u8 <= b <= 0x39u8) || b == 0x2Du8 || b == 0x5Fu8
                    },
            decreases name@.len() - c,
        {
            let b = name[c];
            if !((0x61u8 <= b && b <= 0x7Au8) || (0x30u8 <= b && b <= 0x39u8) || b == 0x2Du8 || b == 0x5Fu8) {
                assert(names@[k as int]@[c as int] == b);
                assert(!query_set_name_ok(names@[k as int]@));
                return Err(OwnedReleaseError::QuerySetName);
            }
            c = c + 1;
        }
        let mut j: usize = 0;
        while j < k
            invariant
                j <= k < names@.len(),
                forall|i: int| 0 <= i < j ==> names@[i]@ != names@[k as int]@,
            decreases k - j,
        {
            if bytes_eq(names[j].as_slice(), name.as_slice()) {
                assert(names@[j as int]@ == names@[k as int]@);
                return Err(OwnedReleaseError::QuerySetName);
            }
            j = j + 1;
        }
        k = k + 1;
    }
    Ok(())
}

// ---------------------------------------------------------------------------
// Source union.

pub open spec fn pin_files(p: SourcePin) -> Seq<(Seq<u8>, Seq<u8>)> {
    p.files@.map_values(|f: SourceFilePin| (f.path@, f.sha256@))
}

/// The files of the first `n` pins, in order.
pub open spec fn files_upto(pins: Seq<SourcePin>, n: int) -> Seq<(Seq<u8>, Seq<u8>)>
    decreases n,
{
    if n <= 0 {
        seq![]
    } else {
        files_upto(pins, n - 1) + pin_files(pins[n - 1])
    }
}

/// Every constituent names the root's system and revision.
pub open spec fn pins_compatible(root: SourcePin, others: Seq<SourcePin>) -> bool {
    forall|i: int| 0 <= i < others.len() ==> #[trigger] others[i].system == root.system && others[i].revision@ == root.revision@
}

/// No path is pinned with two different digests.
pub open spec fn hashes_agree(files: Seq<(Seq<u8>, Seq<u8>)>) -> bool {
    forall|i: int, j: int| 0 <= i < files.len() && 0 <= j < files.len() && #[trigger] files[i].0 == #[trigger] files[j].0 ==> files[i].1 == files[j].1
}

/// Strictly ascending by path.
pub open spec fn sorted_by_path(files: Seq<(Seq<u8>, Seq<u8>)>) -> bool {
    forall|i: int, j: int| 0 <= i < j < files.len() ==> lex_lt(#[trigger] files[i].0, #[trigger] files[j].0)
}

pub(crate) proof fn lemma_lex_lt_irreflexive(a: Seq<u8>, i: int)
    requires
        0 <= i,
    ensures
        !crate::gems::lex_lt_from(a, a, i),
    decreases a.len() - i,
{
    if i < a.len() {
        lemma_lex_lt_irreflexive(a, i + 1);
    }
}

proof fn lemma_lex_lt_transitive(a: Seq<u8>, b: Seq<u8>, c: Seq<u8>, i: int)
    requires
        0 <= i,
        i <= a.len() && i <= b.len() && i <= c.len(),
        crate::gems::lex_lt_from(a, b, i),
        crate::gems::lex_lt_from(b, c, i),
    ensures
        crate::gems::lex_lt_from(a, c, i),
    decreases a.len() - i,
{
    if i < a.len() && i < b.len() && i < c.len() && a[i] == b[i] && b[i] == c[i] {
        lemma_lex_lt_transitive(a, b, c, i + 1);
    }
}

proof fn lemma_lex_lt_total(a: Seq<u8>, b: Seq<u8>, i: int)
    requires
        0 <= i,
        i <= a.len() && i <= b.len(),
        a.subrange(i, a.len() as int) != b.subrange(i, b.len() as int),
    ensures
        crate::gems::lex_lt_from(a, b, i) || crate::gems::lex_lt_from(b, a, i),
    decreases a.len() - i,
{
    if i < a.len() && i < b.len() && a[i] == b[i] {
        assert(a.subrange(i, a.len() as int) == seq![a[i]] + a.subrange(i + 1, a.len() as int));
        assert(b.subrange(i, b.len() as int) == seq![b[i]] + b.subrange(i + 1, b.len() as int));
        lemma_lex_lt_total(a, b, i + 1);
    } else if i >= a.len() && i >= b.len() {
        assert(a.subrange(i, a.len() as int) =~= b.subrange(i, b.len() as int));
    }
}

/// Byte strings are totally and strictly ordered.
pub proof fn lemma_lex_order(a: Seq<u8>, b: Seq<u8>)
    ensures
        !lex_lt(a, a),
        a != b ==> lex_lt(a, b) || lex_lt(b, a),
{
    lemma_lex_lt_irreflexive(a, 0);
    if a != b {
        assert(a.subrange(0, a.len() as int) =~= a);
        assert(b.subrange(0, b.len() as int) =~= b);
        lemma_lex_lt_total(a, b, 0);
    }
}

pub proof fn lemma_lex_transitive(a: Seq<u8>, b: Seq<u8>, c: Seq<u8>)
    requires
        lex_lt(a, b),
        lex_lt(b, c),
    ensures
        lex_lt(a, c),
{
    lemma_lex_lt_transitive(a, b, c, 0);
}

pub open spec fn union_view(u: Seq<SourceFilePin>) -> Seq<(Seq<u8>, Seq<u8>)> {
    u.map_values(|f: SourceFilePin| (f.path@, f.sha256@))
}

/// Insert `(path, sha)` into a list sorted by path; a path already present
/// must carry the same digest.
fn insert_file(union: &mut Vec<SourceFilePin>, file: &SourceFilePin) -> (r: bool)
    requires
        sorted_by_path(union_view(old(union)@)),
    ensures
        sorted_by_path(union_view(final(union)@)),
        r <==> forall|i: int| 0 <= i < old(union)@.len() && #[trigger] union_view(old(union)@)[i].0 == file.path@ ==> union_view(old(union)@)[i].1 == file.sha256@,
        r ==> union_view(final(union)@).to_set() == union_view(old(union)@).to_set().insert((file.path@, file.sha256@)),
        !r ==> final(union)@ == old(union)@,
{
    let ghost before = union_view(union@);
    let mut k: usize = 0;
    while k < union.len() && lex_less(union[k].path.as_slice(), file.path.as_slice())
        invariant
            k <= union@.len(),
            before == union_view(union@),
            union@ == old(union)@,
            sorted_by_path(before),
            forall|q: int| 0 <= q < k ==> lex_lt(#[trigger] before[q].0, file.path@),
        decreases union@.len() - k,
    {
        k = k + 1;
    }
    proof {
        assert forall|q: int| 0 <= q < k implies #[trigger] before[q].0 != file.path@ by {
            lemma_lex_order(file.path@, file.path@);
        }
    }
    if k < union.len() && bytes_eq(union[k].path.as_slice(), file.path.as_slice()) {
        let same = bytes_eq(union[k].sha256.as_slice(), file.sha256.as_slice());
        proof {
            assert(before[k as int].0 == file.path@);
            assert forall|q: int| 0 <= q < before.len() && #[trigger] before[q].0 == file.path@ implies q == k by {
                if q < k {
                } else if q > k {
                    assert(lex_lt(before[k as int].0, before[q].0));
                    lemma_lex_order(file.path@, file.path@);
                }
            }
            if same {
                assert(union_view(union@).to_set() =~= before.to_set().insert((file.path@, file.sha256@))) by {
                    assert(before[k as int] == (file.path@, file.sha256@));
                }
            }
        }
        return same;
    }
    proof {
        if k < before.len() {
            lemma_lex_order(before[k as int].0, file.path@);
        }
        assert forall|q: int| k <= q < before.len() implies lex_lt(file.path@, #[trigger] before[q].0) by {
            if q > k {
                lemma_lex_transitive(file.path@, before[k as int].0, before[q].0);
            }
        }
    }
    let entry = SourceFilePin { path: copy_bytes(file.path.as_slice()), sha256: copy_bytes(file.sha256.as_slice()) };
    union.insert(k, entry);
    proof {
        let after = union_view(union@);
        assert(after =~= before.insert(k as int, (file.path@, file.sha256@)));
        assert forall|i: int, j: int| 0 <= i < j < after.len() implies lex_lt(#[trigger] after[i].0, #[trigger] after[j].0) by {
            if j < k {
            } else if i < k && j == k {
            } else if i < k && j > k {
                lemma_lex_transitive(before[i].0, file.path@, before[j - 1].0);
            } else if i == k {
            } else {
            }
        }
        assert(after.to_set() =~= before.to_set().insert((file.path@, file.sha256@))) by {
            assert forall|x| after.to_set().contains(x) <==> before.to_set().insert((file.path@, file.sha256@)).contains(x) by {
                if after.to_set().contains(x) {
                    let i = choose|i: int| 0 <= i < after.len() && after[i] == x;
                    if i < k {
                        assert(before[i] == x);
                    } else if i > k {
                        assert(before[i - 1] == x);
                    }
                }
                if before.to_set().contains(x) {
                    let i = choose|i: int| 0 <= i < before.len() && before[i] == x;
                    if i < k {
                        assert(after[i] == x);
                    } else {
                        assert(after[i + 1] == x);
                    }
                }
                if x == (file.path@, file.sha256@) {
                    assert(after[k as int] == x);
                }
            }
        }
    }
    true
}


proof fn lemma_push_set<A>(s: Seq<A>, x: A)
    ensures
        s.push(x).to_set() == s.to_set().insert(x),
{
    assert forall|y: A| s.push(x).to_set().contains(y) <==> s.to_set().insert(x).contains(y) by {
        if s.push(x).to_set().contains(y) {
            let i = choose|i: int| 0 <= i < s.push(x).len() && s.push(x)[i] == y;
            if i < s.len() {
                assert(s[i] == y);
            }
        }
        if s.to_set().contains(y) {
            let i = choose|i: int| 0 <= i < s.len() && s[i] == y;
            assert(s.push(x)[i] == y);
        }
        if y == x {
            assert(s.push(x)[s.len() as int] == y);
        }
    }
    assert(s.push(x).to_set() =~= s.to_set().insert(x));
}

/// Merge the files of one pin into a path-sorted union.
pub(crate) fn merge_files(
    union: &mut Vec<SourceFilePin>,
    files: &Vec<SourceFilePin>,
    Ghost(prev): Ghost<Seq<(Seq<u8>, Seq<u8>)>>,
) -> (r: bool)
    requires
        sorted_by_path(union_view(old(union)@)),
        union_view(old(union)@).to_set() == prev.to_set(),
        hashes_agree(prev),
    ensures
        r <==> hashes_agree(prev + union_view(files@)),
        r ==> sorted_by_path(union_view(final(union)@)) && union_view(final(union)@).to_set() == (prev
            + union_view(files@)).to_set(),
{
    let ghost fv = union_view(files@);
    let mut k: usize = 0;
    assert(prev + fv.take(0) =~= prev);
    while k < files.len()
        invariant
            k <= files@.len(),
            fv == union_view(files@),
            sorted_by_path(union_view(union@)),
            union_view(union@).to_set() == (prev + fv.take(k as int)).to_set(),
            hashes_agree(prev + fv.take(k as int)),
        decreases files@.len() - k,
    {
        let ghost done = prev + fv.take(k as int);
        let ghost u = union_view(union@);
        let f = &files[k];
        assert(fv[k as int] == (f.path@, f.sha256@));
        let ok = insert_file(union, f);
        assert(done + seq![fv[k as int]] =~= prev + fv.take(k + 1));
        assert(done.push(fv[k as int]) =~= prev + fv.take(k + 1));
        proof {
            lemma_push_set(done, fv[k as int]);
        }
        if !ok {
            proof {
                let i = choose|i: int| 0 <= i < u.len() && #[trigger] u[i].0 == f.path@ && u[i].1 != f.sha256@;
                assert(u.to_set().contains(u[i]));
                assert(done.to_set().contains(u[i]));
                let j = choose|j: int| 0 <= j < done.len() && done[j] == u[i];
                let all = prev + fv;
                assert(all[j] == done[j]);
                assert(all[prev.len() + k] == fv[k as int]);
                let t = prev.len() + k;
                assert(all[j].0 == all[t].0 && all[j].1 != all[t].1);
                assert(!hashes_agree(all));
            }
            return false;
        }
        proof {
            let next = done.push(fv[k as int]);
            assert forall|a: int, b: int| 0 <= a < next.len() && 0 <= b < next.len() && #[trigger] next[a].0 == #[trigger] next[b].0 implies next[a].1 == next[b].1 by {
                if a < done.len() && b < done.len() {
                    assert(next[a] == done[a] && next[b] == done[b]);
                } else if a < done.len() {
                    assert(u.to_set().contains(done[a])) by {
                        assert(done.to_set().contains(done[a]));
                    }
                    let i = choose|i: int| 0 <= i < u.len() && u[i] == done[a];
                    assert(u[i].0 == f.path@);
                } else if b < done.len() {
                    assert(u.to_set().contains(done[b])) by {
                        assert(done.to_set().contains(done[b]));
                    }
                    let i = choose|i: int| 0 <= i < u.len() && u[i] == done[b];
                    assert(u[i].0 == f.path@);
                }
            }
        }
        k = k + 1;
    }
    assert(fv.take(k as int) =~= fv);
    true
}

/// Merge the source footprints of a release's constituents: each must name
/// the root's system and revision, and a path pinned more than once must
/// carry one digest. The union lists each path once, ascending.
pub fn source_union(root: &SourcePin, others: &Vec<SourcePin>) -> (r: Result<SourcePin, OwnedReleaseError>)
    ensures
        r is Ok <==> pins_compatible(*root, others@) && hashes_agree(
            pin_files(*root) + files_upto(others@, others@.len() as int),
        ),
        r matches Ok(u) ==> {
            &&& u.system == root.system
            &&& u.revision@ == root.revision@
            &&& sorted_by_path(pin_files(u))
            &&& pin_files(u).to_set() == (pin_files(*root) + files_upto(others@, others@.len() as int)).to_set()
        },
        r is Err ==> r matches Err(OwnedReleaseError::Invalid(_)),
{
    let mut i: usize = 0;
    while i < others.len()
        invariant
            i <= others@.len(),
            forall|q: int| 0 <= q < i ==> #[trigger] others@[q].system == root.system && others@[q].revision@ == root.revision@,
        decreases others@.len() - i,
    {
        if others[i].system != root.system || !bytes_eq(others[i].revision.as_slice(), root.revision.as_slice()) {
            return Err(OwnedReleaseError::Invalid("constituent source identity differs"));
        }
        i = i + 1;
    }
    let mut union: Vec<SourceFilePin> = Vec::new();
    proof {
        assert(union_view(union@) =~= seq![]);
        assert(Seq::<(Seq<u8>, Seq<u8>)>::empty().to_set() =~= Set::empty());
        assert(union_view(union@).to_set() =~= Set::empty());
    }
    let ghost empty: Seq<(Seq<u8>, Seq<u8>)> = seq![];
    assert(union_view(root.files@) == pin_files(*root));
    if !merge_files(&mut union, &root.files, Ghost(empty)) {
        proof {
            assert(empty + pin_files(*root) =~= pin_files(*root));
            lemma_agree_prefix(pin_files(*root), files_upto(others@, others@.len() as int));
        }
        return Err(OwnedReleaseError::Invalid("constituent source file hash differs"));
    }
    assert(empty + pin_files(*root) =~= pin_files(*root));
    let mut k: usize = 0;
    while k < others.len()
        invariant
            k <= others@.len(),
            pins_compatible(*root, others@),
            sorted_by_path(union_view(union@)),
            union_view(union@).to_set() == (pin_files(*root) + files_upto(others@, k as int)).to_set(),
            hashes_agree(pin_files(*root) + files_upto(others@, k as int)),
        decreases others@.len() - k,
    {
        let ghost done = pin_files(*root) + files_upto(others@, k as int);
        assert(union_view(others@[k as int].files@) == pin_files(others@[k as int]));
        assert(done + pin_files(others@[k as int]) =~= pin_files(*root) + files_upto(others@, k + 1));
        if !merge_files(&mut union, &others[k].files, Ghost(done)) {
            proof {
                lemma_files_upto_prefix(others@, k + 1, others@.len() as int);
                let rest = files_upto(others@, others@.len() as int).subrange(
                    files_upto(others@, k + 1).len() as int,
                    files_upto(others@, others@.len() as int).len() as int,
                );
                assert(pin_files(*root) + files_upto(others@, others@.len() as int) =~= (pin_files(*root)
                    + files_upto(others@, k + 1)) + rest);
                lemma_agree_prefix(pin_files(*root) + files_upto(others@, k + 1), rest);
            }
            return Err(OwnedReleaseError::Invalid("constituent source file hash differs"));
        }
        k = k + 1;
    }
    let u = SourcePin { system: root.system, revision: copy_bytes(root.revision.as_slice()), files: union };
    assert(pin_files(u) == union_view(u.files@));
    Ok(u)
}

proof fn lemma_agree_prefix(a: Seq<(Seq<u8>, Seq<u8>)>, b: Seq<(Seq<u8>, Seq<u8>)>)
    requires
        !hashes_agree(a),
    ensures
        !hashes_agree(a + b),
{
    let (i, j) = choose|i: int, j: int| 0 <= i < a.len() && 0 <= j < a.len() && #[trigger] a[i].0 == #[trigger] a[j].0 && a[i].1 != a[j].1;
    assert((a + b)[i] == a[i] && (a + b)[j] == a[j]);
}

proof fn lemma_files_upto_prefix(pins: Seq<SourcePin>, m: int, n: int)
    requires
        0 <= m <= n <= pins.len(),
    ensures
        files_upto(pins, m).len() <= files_upto(pins, n).len(),
        files_upto(pins, n).subrange(0, files_upto(pins, m).len() as int) == files_upto(pins, m),
    decreases n,
{
    if m < n {
        lemma_files_upto_prefix(pins, m, n - 1);
        let a = files_upto(pins, n - 1);
        assert((a + pin_files(pins[n - 1])).subrange(0, files_upto(pins, m).len() as int) =~= a.subrange(
            0,
            files_upto(pins, m).len() as int,
        ));
    } else {
        assert(files_upto(pins, n).subrange(0, files_upto(pins, n).len() as int) =~= files_upto(pins, n));
    }
}

/// A manifest line for one release artifact.
#[derive(Debug)]
pub struct OwnedReleaseArtifactManifest {
    pub file: Vec<u8>,
    pub bytes: usize,
    pub sha256: Vec<u8>,
}

/// Describe a release artifact: its name, size and lowercase hex SHA-256 digest.
pub fn describe_release_artifact(name: &[u8], bytes: &[u8]) -> (r: OwnedReleaseArtifactManifest)
    ensures
        r.file@ == name@,
        r.bytes == bytes@.len(),
        r.sha256@ == hex_encode(sha256_of(bytes@)),
{
    let digest = crate::recipe::sha256_digest(bytes);
    OwnedReleaseArtifactManifest {
        file: copy_bytes(name),
        bytes: bytes.len(),
        sha256: crate::recipe::hex_lower(digest.as_slice()),
    }
}


/// Every name of 1 to 64 bytes, each a lowercase ASCII letter `a`..=`z`, a
/// digit, a hyphen or an underscore, is an acceptable query set name, and an
/// acceptable name has no other byte.
pub proof fn law_query_set_name_alphabet(name: Seq<u8>)
    ensures
        query_set_name_ok(name) <==> {
            &&& 1 <= name.len() <= 64
            &&& forall|i: int|
                0 <= i < name.len() ==> {
                    let c = #[trigger] name[i];
                    ||| 97 <= c && c <= 122
                    ||| 48 <= c && c <= 57
                    ||| c == 45
                    ||| c == 95
                }
        },
{
}

} // verus!
