//! Which nodes of a tree a manifest lists, and building the manifest from
//! what was read of them.
use vstd::prelude::*;
use vstd::string::StringSliceAdditionalSpecFns;
use crate::codec::{b64_bytes, b64_text, lemma_path_round_trip};
use crate::entry::{entry_fails, entry_of, link_display, path_text, EntryView, ManifestEntry, NodeInfo};
use crate::error::ManifestError;
use crate::manifest::{key_order, key_views, lemma_order_independent, manifest_text, sort_by_key};
use vstd::relations::sorted_by;

verus! {

broadcast use vstd::seq_lib::group_to_multiset_ensures;

/// Name of the manifest file, written into the tracked directory.
pub const TRACKING_FILENAME: &'static str = "filesync_tracking.txt";

/// The bytes of the manifest's file name.
pub open spec fn tracking_name() -> Seq<u8> {
    TRACKING_FILENAME.spec_bytes()
}

/// Length of `q` without its trailing slashes.
pub open spec fn trimmed_len(q: Seq<u8>) -> nat
    decreases q.len(),
{
    if q.len() > 0 && q.last() == 47 {
        trimmed_len(q.drop_last())
    } else {
        q.len()
    }
}

/// Relative path `p` lies within prefix `q`, component by component (an
/// empty prefix holds everything; trailing slashes of `q` do not count).
pub open spec fn under(p: Seq<u8>, q: Seq<u8>) -> bool {
    let k = trimmed_len(q) as int;
    ||| k == 0
    ||| p == q.take(k)
    ||| (k < p.len() && p.take(k) == q.take(k) && p[k] == 47)
}

/// The manifest lists the node at `rel`: not the root, not the manifest
/// file itself, and within an allowed prefix where prefixes are given.
pub open spec fn listed(rel: Seq<u8>, prefixes: Option<Seq<Seq<u8>>>) -> bool {
    &&& rel.len() > 0
    &&& rel != tracking_name()
    &&& match prefixes {
        None => true,
        Some(qs) => in_some_prefix(rel, qs),
    }
}

/// `rel` lies within one of the prefixes.
pub open spec fn in_some_prefix(rel: Seq<u8>, qs: Seq<Seq<u8>>) -> bool {
    exists|i: int| 0 <= i < qs.len() && under(rel, #[trigger] qs[i])
}

/// `rel` lies within one of the prefixes, or on the way to one.
pub open spec fn toward_some_prefix(rel: Seq<u8>, qs: Seq<Seq<u8>>) -> bool {
    exists|i: int|
        0 <= i < qs.len() && (under(rel, #[trigger] qs[i]) || under(
            qs[i].take(trimmed_len(qs[i]) as int),
            rel,
        ))
}

/// The walk goes into the directory at `rel`: the root, a directory within
/// an allowed prefix, or one on the way to an allowed prefix.
pub open spec fn descend(rel: Seq<u8>, prefixes: Option<Seq<Seq<u8>>>) -> bool {
    match prefixes {
        None => true,
        Some(qs) => rel.len() == 0 || toward_some_prefix(rel, qs),
    }
}

pub open spec fn byte_views(qs: Seq<Vec<u8>>) -> Seq<Seq<u8>> {
    qs.map_values(|q: Vec<u8>| q@)
}

pub open spec fn prefix_views(prefixes: Option<Vec<Vec<u8>>>) -> Option<Seq<Seq<u8>>> {
    match prefixes {
        Some(qs) => Some(byte_views(qs@)),
        None => None,
    }
}

/// A node as the walk found it: its relative path (raw bytes) and what was
/// read of it.
#[derive(Clone, Debug)]
pub struct FoundNode {
    pub rel: Vec<u8>,
    pub info: NodeInfo,
}

/// The entry that a found node gives.
pub open spec fn found_entry(f: FoundNode) -> EntryView {
    entry_of(path_text(f.rel@), b64_text(f.rel@), &f.info, link_display(&f.info))
}

/// The entries of the listed nodes, in the order found.
pub open spec fn listed_entries(found: Seq<FoundNode>, prefixes: Option<Seq<Seq<u8>>>) -> Seq<
    EntryView,
>
    decreases found.len(),
{
    if found.len() == 0 {
        seq![]
    } else {
        let rest = listed_entries(found.drop_last(), prefixes);
        if listed(found.last().rel@, prefixes) {
            rest.push(found_entry(found.last()))
        } else {
            rest
        }
    }
}

/// A listed node that makes no entry (see `entry_fails`).
pub open spec fn unreadable(f: FoundNode, prefixes: Option<Seq<Seq<u8>>>) -> bool {
    listed(f.rel@, prefixes) && entry_fails(path_text(f.rel@), &f.info, link_display(&f.info))
}

fn bytes_eq(a: &[u8], b: &[u8]) -> (r: bool)
    ensures
        r == (a@ == b@),
{
    if a.len() != b.len() {
        return false;
    }
    let mut j: usize = 0;
    while j < a.len()
        invariant
            a@.len() == b@.len(),
            j <= a@.len(),
            a@.take(j as int) == b@.take(j as int),
        decreases a@.len() - j,
    {
        if a[j] != b[j] {
            return false;
        }
        assert(a@.take(j + 1) =~= a@.take(j as int).push(a@[j as int]));
        assert(b@.take(j + 1) =~= b@.take(j as int).push(b@[j as int]));
        j = j + 1;
    }
    assert(a@.take(j as int) =~= a@);
    assert(b@.take(j as int) =~= b@);
    true
}

fn trimmed_length(q: &[u8]) -> (r: usize)
    ensures
        r == trimmed_len(q@),
{
    let mut k: usize = q.len();
    assert(q@.take(k as int) =~= q@);
    while k > 0 && q[k - 1] == 47
        invariant
            k <= q@.len(),
            trimmed_len(q@.take(k as int)) == trimmed_len(q@),
        decreases k,
    {
        assert(q@.take(k as int).drop_last() =~= q@.take(k - 1));
        k = k - 1;
    }
    k
}

/// Whether relative path `p` lies within prefix `q`.
pub fn is_under(p: &[u8], q: &[u8]) -> (r: bool)
    ensures
        r == under(p@, q@),
{
    let k = trimmed_length(q);
    proof {
        lemma_trimmed_len_bound(q@);
    }
    if k == 0 {
        return true;
    }
    if p.len() < k {
        return false;
    }
    let mut j: usize = 0;
    while j < k
        invariant
            k == trimmed_len(q@),
            0 < k <= p@.len(),
            k <= q@.len(),
            j <= k,
            p@.take(j as int) == q@.take(j as int),
        decreases k - j,
    {
        if p[j] != q[j] {
            assert(p@.take(k as int)[j as int] != q@.take(k as int)[j as int]);
            assert(p@.len() == k ==> p@[j as int] != q@.take(k as int)[j as int]);
            assert(p@.take(k as int) != q@.take(k as int));
            assert(p@ != q@.take(k as int));
            return false;
        }
        assert(p@.take(j + 1) =~= p@.take(j as int).push(p@[j as int]));
        assert(q@.take(j + 1) =~= q@.take(j as int).push(q@[j as int]));
        j = j + 1;
    }
    if p.len() == k {
        assert(p@ =~= p@.take(k as int));
        true
    } else {
        p[k] == 47
    }
}

proof fn lemma_trimmed_len_bound(q: Seq<u8>)
    ensures
        trimmed_len(q) <= q.len(),
        forall|j: int| trimmed_len(q) <= j < q.len() ==> #[trigger] q[j] == 47,
    decreases q.len(),
{
    if q.len() > 0 && q.last() == 47 {
        lemma_trimmed_len_bound(q.drop_last());
        assert forall|j: int| trimmed_len(q) <= j < q.len() implies #[trigger] q[j] == 47 by {
            if j < q.len() - 1 {
                assert(q[j] == q.drop_last()[j]);
            }
        }
    }
}

/// Whether the manifest lists the node at `rel`.
pub fn is_listed(rel: &[u8], prefixes: &Option<Vec<Vec<u8>>>) -> (r: bool)
    ensures
        r == listed(rel@, prefix_views(*prefixes)),
{
    if rel.len() == 0 || bytes_eq(rel, TRACKING_FILENAME.as_bytes()) {
        return false;
    }
    match prefixes {
        None => true,
        Some(qs) => {
            let ghost qv = byte_views(qs@);
            let mut i: usize = 0;
            while i < qs.len()
                invariant
                    i <= qs@.len(),
                    qv == byte_views(qs@),
                    prefix_views(*prefixes) == Some(qv),
                    rel@.len() > 0,
                    rel@ != tracking_name(),
                    forall|j: int| 0 <= j < i ==> !under(rel@, #[trigger] qv[j]),
                decreases qs@.len() - i,
            {
                if is_under(rel, qs[i].as_slice()) {
                    assert(qv.len() == qs@.len());
                    assert(qv[i as int] == qs@[i as int]@);
                    assert(under(rel@, qv[i as int]));
                    assert(in_some_prefix(rel@, qv));
                    return true;
                }
                i = i + 1;
            }
            false
        },
    }
}

/// Whether the walk goes into the directory at `rel`.
pub fn should_descend(rel: &[u8], prefixes: &Option<Vec<Vec<u8>>>) -> (r: bool)
    ensures
        r == descend(rel@, prefix_views(*prefixes)),
{
    match prefixes {
        None => true,
        Some(qs) => {
            if rel.len() == 0 {
                return true;
            }
            let ghost qv = byte_views(qs@);
            let mut i: usize = 0;
            while i < qs.len()
                invariant
                    i <= qs@.len(),
                    rel@.len() > 0,
                    qv == byte_views(qs@),
                    prefix_views(*prefixes) == Some(qv),
                    forall|j: int|
                        0 <= j < i ==> !(under(rel@, #[trigger] qv[j]) || under(
                            qv[j].take(trimmed_len(qv[j]) as int),
                            rel@,
                        )),
                decreases qs@.len() - i,
            {
                let q = qs[i].as_slice();
                let k = trimmed_length(q);
                proof {
                    lemma_trimmed_len_bound(q@);
                }
                let head = slice_prefix(q, k);
                if is_under(rel, q) || is_under(head.as_slice(), rel) {
                    assert(qv.len() == qs@.len());
                    assert(qv[i as int] == q@);
                    assert(toward_some_prefix(rel@, qv));
                    return true;
                }
                i = i + 1;
            }
            false
        },
    }
}

fn slice_prefix(q: &[u8], k: usize) -> (r: Vec<u8>)
    requires
        k <= q@.len(),
    ensures
        r@ == q@.take(k as int),
{
    let mut out: Vec<u8> = Vec::new();
    let mut j: usize = 0;
    while j < k
        invariant
            j <= k,
            k <= q@.len(),
            out@ == q@.take(j as int),
        decreases k - j,
    {
        out.push(q[j]);
        assert(q@.take(j + 1) =~= q@.take(j as int).push(q@[j as int]));
        j = j + 1;
    }
    out
}

/// Builds the manifest of a walked tree from the nodes found: the listed
/// ones become entries, sorted by key. Fails where a listed node makes no
/// entry (its symlink target or modification time could not be read).
pub fn build_manifest(found: Vec<FoundNode>, prefixes: &Option<Vec<Vec<u8>>>) -> (r: Result<
    Vec<ManifestEntry>,
    ManifestError,
>)
    requires
        forall|i: int| 0 <= i < found@.len() ==> (#[trigger] found@[i]).rel@.len() <= usize::MAX
            / 2,
    ensures
        r is Err <==> exists|i: int|
            0 <= i < found@.len() && unreadable(#[trigger] found@[i], prefix_views(*prefixes)),
        r is Err ==> r == Err::<Vec<ManifestEntry>, ManifestError>(
            ManifestError::MetadataUnavailable,
        ),
        r matches Ok(v) ==> sorted_by(key_views(v@), key_order()) && key_views(v@).to_multiset()
            == listed_entries(found@, prefix_views(*prefixes)).to_multiset(),
{
    let ghost pv = prefix_views(*prefixes);
    let mut out: Vec<ManifestEntry> = Vec::new();
    let mut i: usize = 0;
    while i < found.len()
        invariant
            i <= found@.len(),
            pv == prefix_views(*prefixes),
            forall|j: int| 0 <= j < found@.len() ==> (#[trigger] found@[j]).rel@.len() <= usize::MAX
                / 2,
            key_views(out@) == listed_entries(found@.take(i as int), pv),
            forall|j: int| 0 <= j < i ==> !unreadable(#[trigger] found@[j], pv),
        decreases found@.len() - i,
    {
        let node = &found[i];
        proof {
            assert(found@.take(i + 1).drop_last() =~= found@.take(i as int));
            assert(found@.take(i + 1).last() == found@[i as int]);
        }
        if is_listed(node.rel.as_slice(), prefixes) {
            match ManifestEntry::from_rel_path(node.rel.as_slice(), &node.info) {
                Ok(e) => {
                    let ghost o0 = key_views(out@);
                    out.push(e);
                    proof {
                        assert(key_views(out@) =~= o0.push(e@));
                    }
                },
                Err(_) => {
                    proof {
                        assert(unreadable(found@[i as int], pv));
                    }
                    return Err(ManifestError::MetadataUnavailable);
                },
            }
        }
        i = i + 1;
    }
    proof {
        assert(found@.take(i as int) =~= found@);
    }
    sort_by_key(&mut out);
    Ok(out)
}

/// No entry of a manifest is the manifest file itself or the root: each
/// entry's stored path decodes to a non-empty path other than the
/// manifest's file name.
pub proof fn lemma_never_lists_itself(found: Seq<FoundNode>, prefixes: Option<Seq<Seq<u8>>>)
    ensures
        forall|x: EntryView| #[trigger]
            listed_entries(found, prefixes).contains(x) ==> (b64_bytes(x.record.path_b64) matches Some(
                raw,
            ) && raw.len() > 0 && raw != tracking_name()),
    decreases found.len(),
{
    if found.len() > 0 {
        lemma_never_lists_itself(found.drop_last(), prefixes);
        let rest = listed_entries(found.drop_last(), prefixes);
        assert forall|x: EntryView| #[trigger]
            listed_entries(found, prefixes).contains(x) implies (b64_bytes(
            x.record.path_b64,
        ) matches Some(raw) && raw.len() > 0 && raw != tracking_name()) by {
            if listed(found.last().rel@, prefixes) {
                let all = rest.push(found_entry(found.last()));
                let i = choose|i: int| 0 <= i < all.len() && all[i] == x;
                if i < rest.len() {
                    assert(rest.contains(x));
                } else {
                    lemma_path_round_trip(found.last().rel@);
                }
            }
        }
    }
}

proof fn lemma_listed_remove(s: Seq<FoundNode>, j: int, prefixes: Option<Seq<Seq<u8>>>)
    requires
        0 <= j < s.len(),
    ensures
        listed_entries(s, prefixes).to_multiset() == if listed(s[j].rel@, prefixes) {
            listed_entries(s.remove(j), prefixes).to_multiset().insert(found_entry(s[j]))
        } else {
            listed_entries(s.remove(j), prefixes).to_multiset()
        },
    decreases s.len(),
{
    if j == s.len() - 1 {
        assert(s.remove(j) =~= s.drop_last());
    } else {
        let d = s.drop_last();
        lemma_listed_remove(d, j, prefixes);
        assert(s.remove(j).drop_last() =~= d.remove(j));
        assert(s.remove(j).last() == s.last());
        assert(d[j] == s[j]);
    }
}

proof fn lemma_listed_permutation(a: Seq<FoundNode>, b: Seq<FoundNode>, prefixes: Option<Seq<Seq<u8>>>)
    requires
        a.to_multiset() == b.to_multiset(),
    ensures
        listed_entries(a, prefixes).to_multiset() == listed_entries(b, prefixes).to_multiset(),
    decreases a.len(),
{
    if a.len() == 0 {
        assert(b.to_multiset().len() == 0);
        assert(b.len() == 0);
    } else {
        let x = a.last();
        assert(a.to_multiset().contains(x));
        assert(b.to_multiset().contains(x));
        let j = choose|j: int| 0 <= j < b.len() && b[j] == x;
        assert(a.drop_last().to_multiset() == a.to_multiset().remove(x)) by {
            assert(a =~= a.drop_last().push(x));
        }
        assert(b.remove(j).to_multiset() == b.to_multiset().remove(x));
        lemma_listed_permutation(a.drop_last(), b.remove(j), prefixes);
        lemma_listed_remove(b, j, prefixes);
    }
}

/// Building the manifest of the same nodes, found in any order, gives the
/// same text.
pub proof fn lemma_walk_order_independent(
    a: Seq<FoundNode>,
    b: Seq<FoundNode>,
    prefixes: Option<Seq<Seq<u8>>>,
    built_a: Seq<EntryView>,
    built_b: Seq<EntryView>,
)
    requires
        a.to_multiset() == b.to_multiset(),
        built_a.to_multiset() == listed_entries(a, prefixes).to_multiset(),
        built_b.to_multiset() == listed_entries(b, prefixes).to_multiset(),
    ensures
        manifest_text(built_a) == manifest_text(built_b),
{
    lemma_listed_permutation(a, b, prefixes);
    lemma_order_independent(built_a, built_b);
}

/// Two prefixes that a path lies within: one lies within the other.
proof fn lemma_nested_prefixes(r: Seq<u8>, p: Seq<u8>, q: Seq<u8>)
    requires
        under(r, p),
        under(r, q),
    ensures
        under(p, q) || under(q.take(trimmed_len(q) as int), p),
{
    lemma_trimmed_len_bound(p);
    lemma_trimmed_len_bound(q);
    let kp = trimmed_len(p) as int;
    let kq = trimmed_len(q) as int;
    let qq = q.take(kq);
    if kq == 0 || kp == 0 {
        if kp == 0 {
            assert(under(qq, p));
        }
    } else {
        assert(r.take(kp) == p.take(kp));
        assert(r.take(kq) == q.take(kq));
        if kp <= kq {
            assert(qq.take(kp) =~= r.take(kp));
            if kp == kq {
                assert(qq =~= p.take(kp));
                if p.len() == kp {
                    assert(p =~= p.take(kp));
                    assert(p == qq);
                } else {
                    assert(p[kp] == 47);
                    assert(p.take(kq) =~= qq);
                }
                assert(under(p, q));
            } else {
                assert(r != p.take(kp));
                assert(r[kp] == 47);
                assert(qq[kp] == r[kp]);
                assert(trimmed_len(p) == kp);
                assert(under(qq, p));
            }
        } else {
            assert(r != q.take(kq));
            assert(r[kq] == 47);
            assert(p.take(kq) =~= r.take(kq));
            assert(p.take(kp)[kq] == p[kq]);
            assert(r.take(kp)[kq] == r[kq]);
            assert(p[kq] == r[kq]);
            assert(under(p, q));
        }
    }
}

/// Pruning during the walk loses nothing: below a directory that the walk
/// does not go into, no node is listed.
pub proof fn lemma_pruning_is_safe(p: Seq<u8>, r: Seq<u8>, prefixes: Option<Seq<Seq<u8>>>)
    requires
        !descend(p, prefixes),
        under(r, p),
    ensures
        !listed(r, prefixes),
{
    if listed(r, prefixes) {
        let qs = prefixes->Some_0;
        let i = choose|i: int| 0 <= i < qs.len() && under(r, #[trigger] qs[i]);
        lemma_nested_prefixes(r, p, qs[i]);
        assert(toward_some_prefix(p, qs));
    }
}

} // verus!
