//! The caller-scoped catalogs of branches, bundles and Apps: their content-addressed identities
//! (a ref is the first 16 bytes of the content ref of a tagged, NUL-separated preimage, so
//! identical content always yields the identical ref; the preimages are built here, the hash
//! belongs to the content store), how a branch's files are kept and advanced, how item lists
//! are stored as JSON and read back, and the decisions of a branch's version history.
use vstd::prelude::*;
use vstd::string::*;
use vstd::utf8::*;

use crate::console::json_string;
use crate::consolidate::json_quote;
use crate::control::{json_parse, parse_json, Json};
use crate::rail::{decode_ref, held, held_in};
use crate::text::{
    hex_lower, hex_lower_spec, hex_to_32, lemma_seq_lt_asymmetric, lemma_seq_lt_irreflexive, lemma_seq_lt_total,
    lemma_seq_lt_transitive, push_str, seq_lt, str_eq, str_less,
};

verus! {

broadcast use vstd::seq_lib::group_to_multiset_ensures;

/// One file of a branch: its path and the content ref of its body.
#[derive(Debug, Clone, PartialEq, Eq)]
pub struct BranchItem {
    pub path: String,
    pub content_ref: [u8; 32],
}

/// One item of a context bundle.
#[derive(Debug, Clone, PartialEq, Eq)]
pub struct BundleItem {
    pub name: String,
    pub content_ref: [u8; 32],
    pub media_type: String,
}

/// The UTF-8 bytes of a string.
pub open spec fn utf8(s: Seq<char>) -> Seq<u8> {
    encode_utf8(s)
}

fn push_bytes(out: &mut Vec<u8>, bytes: &[u8])
    ensures
        final(out)@ == old(out)@ + bytes@,
{
    let mut i: usize = 0;
    let ghost start = out@;
    while i < bytes.len()
        invariant
            i <= bytes.len(),
            out@ == start + bytes@.take(i as int),
        decreases bytes.len() - i,
    {
        out.push(bytes[i]);
        assert(bytes@.take(i + 1) == bytes@.take(i as int).push(bytes@[i as int]));
        i = i + 1;
    }
    assert(bytes@.take(bytes.len() as int) == bytes@);
}

fn push_str_bytes(out: &mut Vec<u8>, s: &str)
    ensures
        final(out)@ == old(out)@ + utf8(s@),
{
    push_bytes(out, s.as_bytes());
}

// ----- branches -------------------------------------------------------------------------------

/// `"kx-branch\0"`.
pub open spec fn branch_tag() -> Seq<u8> {
    seq![107u8, 120, 45, 98, 114, 97, 110, 99, 104, 0]
}

/// The items' part of a branch preimage: each path, a NUL, then its 32-byte ref.
pub open spec fn branch_items_bytes(items: Seq<BranchItem>) -> Seq<u8>
    decreases items.len(),
{
    if items.len() == 0 {
        Seq::empty()
    } else {
        branch_items_bytes(items.drop_last()) + utf8(items.last().path@) + seq![0u8] + items.last().content_ref@
    }
}

/// `"kx-branch\0" ‖ handle ‖ 0 ‖ parent ‖ 0 ‖ (path ‖ 0 ‖ ref)*`.
pub open spec fn branch_preimage_spec(handle: Seq<char>, parent: Seq<char>, items: Seq<BranchItem>) -> Seq<u8> {
    branch_tag() + utf8(handle) + seq![0u8] + utf8(parent) + seq![0u8] + branch_items_bytes(items)
}

/// The preimage of a branch's ref over its (path-sorted) items.
pub fn branch_ref_preimage(handle: &str, parent: &str, items: &[BranchItem]) -> (r: Vec<u8>)
    ensures
        r@ == branch_preimage_spec(handle@, parent@, items@),
{
    let mut out: Vec<u8> = vec![107u8, 120, 45, 98, 114, 97, 110, 99, 104, 0];
    push_str_bytes(&mut out, handle);
    out.push(0);
    push_str_bytes(&mut out, parent);
    out.push(0);
    let ghost head = out@;
    assert(head == branch_tag() + utf8(handle@) + seq![0u8] + utf8(parent@) + seq![0u8]);
    let mut i: usize = 0;
    assert(items@.take(0) == Seq::<BranchItem>::empty());
    assert(head + branch_items_bytes(Seq::<BranchItem>::empty()) == head);
    while i < items.len()
        invariant
            i <= items.len(),
            out@ == head + branch_items_bytes(items@.take(i as int)),
        decreases items.len() - i,
    {
        let ghost before = out@;
        push_str_bytes(&mut out, items[i].path.as_str());
        out.push(0);
        push_bytes(&mut out, &items[i].content_ref);
        proof {
            let t = items@.take(i + 1);
            assert(t.drop_last() == items@.take(i as int));
            assert(t.last() == items@[i as int]);
            assert(out@ =~= head + branch_items_bytes(t));
        }
        i = i + 1;
    }
    assert(items@.take(items.len() as int) == items@);
    out
}

// ----- bundles --------------------------------------------------------------------------------

/// `"kx-bundle\0"`.
pub open spec fn bundle_tag() -> Seq<u8> {
    seq![107u8, 120, 45, 98, 117, 110, 100, 108, 101, 0]
}

/// The items' part of a bundle preimage, in author order: name, NUL, ref, media type, NUL.
pub open spec fn bundle_items_bytes(items: Seq<BundleItem>) -> Seq<u8>
    decreases items.len(),
{
    if items.len() == 0 {
        Seq::empty()
    } else {
        let it = items.last();
        bundle_items_bytes(items.drop_last()) + utf8(it.name@) + seq![0u8] + it.content_ref@ + utf8(it.media_type@) + seq![0u8]
    }
}

/// `"kx-bundle\0" ‖ handle ‖ 0 ‖ (name ‖ 0 ‖ ref ‖ media_type ‖ 0)*`.
pub open spec fn bundle_preimage_spec(handle: Seq<char>, items: Seq<BundleItem>) -> Seq<u8> {
    bundle_tag() + utf8(handle) + seq![0u8] + bundle_items_bytes(items)
}

/// The preimage of a bundle's ref over its items in author order.
pub fn bundle_ref_preimage(handle: &str, items: &[BundleItem]) -> (r: Vec<u8>)
    ensures
        r@ == bundle_preimage_spec(handle@, items@),
{
    let mut out: Vec<u8> = vec![107u8, 120, 45, 98, 117, 110, 100, 108, 101, 0];
    push_str_bytes(&mut out, handle);
    out.push(0);
    let ghost head = out@;
    assert(head == bundle_tag() + utf8(handle@) + seq![0u8]);
    let mut i: usize = 0;
    assert(items@.take(0) == Seq::<BundleItem>::empty());
    assert(head + bundle_items_bytes(Seq::<BundleItem>::empty()) == head);
    while i < items.len()
        invariant
            i <= items.len(),
            out@ == head + bundle_items_bytes(items@.take(i as int)),
        decreases items.len() - i,
    {
        push_str_bytes(&mut out, items[i].name.as_str());
        out.push(0);
        push_bytes(&mut out, &items[i].content_ref);
        push_str_bytes(&mut out, items[i].media_type.as_str());
        out.push(0);
        proof {
            let t = items@.take(i + 1);
            assert(t.drop_last() == items@.take(i as int));
            assert(t.last() == items@[i as int]);
            assert(out@ =~= head + bundle_items_bytes(t));
        }
        i = i + 1;
    }
    assert(items@.take(items.len() as int) == items@);
    out
}

// ----- apps -----------------------------------------------------------------------------------

/// `"kx-app\0" ‖ handle ‖ 0 ‖ canonical envelope`.
pub open spec fn app_preimage_spec(handle: Seq<char>, canonical: Seq<u8>) -> Seq<u8> {
    seq![107u8, 120, 45, 97, 112, 112, 0] + utf8(handle) + seq![0u8] + canonical
}

/// The preimage of an App's ref over its canonical envelope bytes.
pub fn app_ref_preimage(handle: &str, canonical: &[u8]) -> (r: Vec<u8>)
    ensures
        r@ == app_preimage_spec(handle@, canonical@),
{
    let mut out: Vec<u8> = vec![107u8, 120, 45, 97, 112, 112, 0];
    push_str_bytes(&mut out, handle);
    out.push(0);
    push_bytes(&mut out, canonical);
    out
}

/// A catalog ref: the first 16 bytes of the preimage's content ref.
pub fn short_ref(digest: &[u8; 32]) -> (r: [u8; 16])
    ensures
        r@ == digest@.take(16),
{
    let mut id = [0u8; 16];
    let mut i: usize = 0;
    while i < 16
        invariant
            i <= 16,
            id@.len() == 16,
            forall|j: int| 0 <= j < i ==> id@[j] == digest@[j],
        decreases 16 - i,
    {
        id[i] = digest[i];
        i = i + 1;
    }
    assert(id@ =~= digest@.take(16));
    id
}

// ----- the canonical item order ---------------------------------------------------------------

/// Where a stable insertion puts `x`: before the first item whose path is greater.
pub open spec fn upper_pos(s: Seq<BranchItem>, x: BranchItem) -> int
    decreases s.len(),
{
    if s.len() == 0 {
        0
    } else if seq_lt(x.path@, s[0].path@) {
        0
    } else {
        1 + upper_pos(s.drop_first(), x)
    }
}

/// The items sorted by path, items with equal paths keeping their input order.
pub open spec fn path_sorted(items: Seq<BranchItem>) -> Seq<BranchItem>
    decreases items.len(),
{
    if items.len() == 0 {
        Seq::empty()
    } else {
        let s = path_sorted(items.drop_last());
        s.insert(upper_pos(s, items.last()), items.last())
    }
}

/// Paths ascending (ties allowed).
pub open spec fn paths_ascending(s: Seq<BranchItem>) -> bool {
    forall|i: int, j: int| 0 <= i < j < s.len() ==> !seq_lt(#[trigger] s[j].path@, #[trigger] s[i].path@)
}

proof fn lemma_upper_pos(s: Seq<BranchItem>, x: BranchItem)
    requires
        paths_ascending(s),
    ensures
        0 <= upper_pos(s, x) <= s.len(),
        forall|k: int| 0 <= k < upper_pos(s, x) ==> !seq_lt(x.path@, #[trigger] s[k].path@),
        forall|k: int| upper_pos(s, x) <= k < s.len() ==> seq_lt(x.path@, #[trigger] s[k].path@),
    decreases s.len(),
{
    if s.len() > 0 && !seq_lt(x.path@, s[0].path@) {
        let t = s.drop_first();
        assert(paths_ascending(t)) by {
            assert forall|i: int, j: int| 0 <= i < j < t.len() implies !seq_lt(#[trigger] t[j].path@, #[trigger] t[i].path@) by {
                assert(t[i] == s[i + 1] && t[j] == s[j + 1]);
            }
        }
        lemma_upper_pos(t, x);
        assert forall|k: int| 0 <= k < upper_pos(s, x) implies !seq_lt(x.path@, #[trigger] s[k].path@) by {
            if k > 0 {
                assert(s[k] == t[k - 1]);
            }
        }
        assert forall|k: int| upper_pos(s, x) <= k < s.len() implies seq_lt(x.path@, #[trigger] s[k].path@) by {
            assert(s[k] == t[k - 1]);
        }
    } else if s.len() > 0 {
        assert forall|k: int| 0 <= k < s.len() implies seq_lt(x.path@, #[trigger] s[k].path@) by {
            if k > 0 {
                assert(!seq_lt(s[k].path@, s[0].path@));
                lemma_seq_lt_total(s[0].path@, s[k].path@);
                if seq_lt(s[0].path@, s[k].path@) {
                    lemma_seq_lt_transitive(x.path@, s[0].path@, s[k].path@);
                }
            }
        }
    }
}

proof fn lemma_insert_keeps_ascending(s: Seq<BranchItem>, x: BranchItem)
    requires
        paths_ascending(s),
    ensures
        paths_ascending(s.insert(upper_pos(s, x), x)),
{
    lemma_upper_pos(s, x);
    let p = upper_pos(s, x);
    let n = s.insert(p, x);
    assert forall|i: int, j: int| 0 <= i < j < n.len() implies !seq_lt(#[trigger] n[j].path@, #[trigger] n[i].path@) by {
        if j < p {
            assert(n[i] == s[i] && n[j] == s[j]);
        } else if j == p {
            assert(n[i] == s[i] && n[j] == x);
        } else if i < p {
            assert(n[i] == s[i] && n[j] == s[j - 1]);
            if seq_lt(s[j - 1].path@, s[i].path@) {
                lemma_seq_lt_transitive(x.path@, s[j - 1].path@, s[i].path@);
            }
        } else if i == p {
            assert(n[i] == x && n[j] == s[j - 1]);
            if seq_lt(s[j - 1].path@, x.path@) {
                lemma_seq_lt_transitive(x.path@, s[j - 1].path@, x.path@);
                lemma_seq_lt_irreflexive(x.path@);
            }
        } else {
            assert(n[i] == s[i - 1] && n[j] == s[j - 1]);
        }
    }
}

/// The canonical order is a reordering of the items with the paths ascending.
pub proof fn law_path_sorted_is_an_ascending_permutation(items: Seq<BranchItem>)
    ensures
        paths_ascending(path_sorted(items)),
        path_sorted(items).to_multiset() == items.to_multiset(),
    decreases items.len(),
{
    broadcast use vstd::seq_lib::to_multiset_insert, vstd::seq_lib::to_multiset_build;
    if items.len() > 0 {
        let t = items.drop_last();
        law_path_sorted_is_an_ascending_permutation(t);
        let s = path_sorted(t);
        lemma_upper_pos(s, items.last());
        lemma_insert_keeps_ascending(s, items.last());
        assert(items == t.push(items.last()));
    }
}

/// No two items share a path.
pub open spec fn distinct_paths(s: Seq<BranchItem>) -> bool {
    forall|i: int, j: int| 0 <= i < j < s.len() ==> (#[trigger] s[i]).path@ != (#[trigger] s[j]).path@
}

/// Paths strictly ascending.
pub open spec fn paths_strictly_ascending(s: Seq<BranchItem>) -> bool {
    forall|i: int, j: int| 0 <= i < j < s.len() ==> seq_lt(#[trigger] s[i].path@, #[trigger] s[j].path@)
}

proof fn lemma_path_sorted_members(items: Seq<BranchItem>)
    ensures
        forall|x: BranchItem| path_sorted(items).contains(x) <==> items.contains(x),
        path_sorted(items).len() == items.len(),
    decreases items.len(),
{
    if items.len() > 0 {
        let t = items.drop_last();
        lemma_path_sorted_members(t);
        let s = path_sorted(t);
        law_path_sorted_is_an_ascending_permutation(t);
        lemma_upper_pos(s, items.last());
        let p = upper_pos(s, items.last());
        let n = s.insert(p, items.last());
        assert forall|x: BranchItem| n.contains(x) <==> items.contains(x) by {
            if n.contains(x) {
                let k = choose|k: int| 0 <= k < n.len() && n[k] == x;
                if k < p {
                    assert(s[k] == x);
                    assert(s.contains(x));
                    assert(t.contains(x));
                    let q = choose|q: int| 0 <= q < t.len() && t[q] == x;
                    assert(t[q] == items[q]);
                } else if k == p {
                    assert(items[items.len() - 1] == x);
                } else {
                    assert(s[k - 1] == x);
                    assert(s.contains(x));
                    assert(t.contains(x));
                    let q = choose|q: int| 0 <= q < t.len() && t[q] == x;
                    assert(t[q] == items[q]);
                }
            }
            if items.contains(x) {
                let q = choose|q: int| 0 <= q < items.len() && items[q] == x;
                if q == items.len() - 1 {
                    assert(n[p] == x);
                } else {
                    assert(t[q] == x);
                    assert(t.contains(x));
                    assert(s.contains(x));
                    let k = choose|k: int| 0 <= k < s.len() && s[k] == x;
                    if k < p { assert(n[k] == x); } else { assert(n[k + 1] == x); }
                }
            }
        }
    }
}

proof fn lemma_path_sorted_distinct(items: Seq<BranchItem>)
    requires
        distinct_paths(items),
    ensures
        distinct_paths(path_sorted(items)),
        paths_strictly_ascending(path_sorted(items)),
    decreases items.len(),
{
    law_path_sorted_is_an_ascending_permutation(items);
    if items.len() > 0 {
        let t = items.drop_last();
        assert(distinct_paths(t)) by {
            assert forall|i: int, j: int| 0 <= i < j < t.len() implies (#[trigger] t[i]).path@ != (#[trigger] t[j]).path@ by {
                assert(t[i] == items[i] && t[j] == items[j]);
            }
        }
        lemma_path_sorted_distinct(t);
        lemma_path_sorted_members(t);
        law_path_sorted_is_an_ascending_permutation(t);
        let s = path_sorted(t);
        let x = items.last();
        let p = upper_pos(s, x);
        lemma_upper_pos(s, x);
        let n = s.insert(p, x);
        assert forall|k: int| 0 <= k < s.len() implies (#[trigger] s[k]).path@ != x.path@ by {
            assert(s.contains(s[k]));
            assert(t.contains(s[k]));
            let q = choose|q: int| 0 <= q < t.len() && t[q] == s[k];
            assert(t[q] == items[q]);
            assert(items[q].path@ != items[items.len() - 1].path@);
        }
        assert forall|i: int, j: int| 0 <= i < j < n.len() implies (#[trigger] n[i]).path@ != (#[trigger] n[j]).path@ by {
            if j < p {
                assert(n[i] == s[i] && n[j] == s[j]);
            } else if j == p {
                assert(n[i] == s[i] && n[j] == x);
            } else if i < p {
                assert(n[i] == s[i] && n[j] == s[j - 1]);
            } else if i == p {
                assert(n[i] == x && n[j] == s[j - 1]);
            } else {
                assert(n[i] == s[i - 1] && n[j] == s[j - 1]);
            }
        }
    }
    let r = path_sorted(items);
    assert forall|i: int, j: int| 0 <= i < j < r.len() implies seq_lt(#[trigger] r[i].path@, #[trigger] r[j].path@) by {
        assert(!seq_lt(r[j].path@, r[i].path@));
        lemma_seq_lt_total(r[i].path@, r[j].path@);
    }
}

proof fn lemma_strictly_ascending_unique(a: Seq<BranchItem>, b: Seq<BranchItem>)
    requires
        paths_strictly_ascending(a),
        paths_strictly_ascending(b),
        forall|x: BranchItem| a.contains(x) <==> b.contains(x),
    ensures
        a == b,
    decreases a.len(),
{
    if a.len() == 0 {
        if b.len() > 0 {
            assert(b.contains(b[0]));
        }
        assert(a =~= b);
    } else {
        assert(a.contains(a[0]));
        let j = choose|j: int| 0 <= j < b.len() && b[j] == a[0];
        assert(b.contains(b[0]));
        let i = choose|i: int| 0 <= i < a.len() && a[i] == b[0];
        if j > 0 && i > 0 {
            assert(seq_lt(b[0].path@, b[j].path@));
            assert(seq_lt(a[0].path@, a[i].path@));
            lemma_seq_lt_transitive(a[0].path@, b[0].path@, a[0].path@);
            lemma_seq_lt_irreflexive(a[0].path@);
        }
        assert(a[0] == b[0]);
        let a1 = a.drop_first();
        let b1 = b.drop_first();
        assert forall|x: BranchItem| a1.contains(x) <==> b1.contains(x) by {
            if a1.contains(x) {
                let p = choose|p: int| 0 <= p < a1.len() && a1[p] == x;
                assert(a[p + 1] == x);
                assert(seq_lt(a[0].path@, a[p + 1].path@));
                assert(a.contains(x));
                let q = choose|q: int| 0 <= q < b.len() && b[q] == x;
                if q == 0 {
                    lemma_seq_lt_irreflexive(x.path@);
                }
                assert(b1[q - 1] == x);
            }
            if b1.contains(x) {
                let p = choose|p: int| 0 <= p < b1.len() && b1[p] == x;
                assert(b[p + 1] == x);
                assert(seq_lt(b[0].path@, b[p + 1].path@));
                assert(b.contains(x));
                let q = choose|q: int| 0 <= q < a.len() && a[q] == x;
                if q == 0 {
                    lemma_seq_lt_irreflexive(x.path@);
                }
                assert(a1[q - 1] == x);
            }
        }
        assert(paths_strictly_ascending(a1)) by {
            assert forall|p: int, q: int| 0 <= p < q < a1.len() implies seq_lt(#[trigger] a1[p].path@, #[trigger] a1[q].path@) by {
                assert(a1[p] == a[p + 1] && a1[q] == a[q + 1]);
            }
        }
        assert(paths_strictly_ascending(b1)) by {
            assert forall|p: int, q: int| 0 <= p < q < b1.len() implies seq_lt(#[trigger] b1[p].path@, #[trigger] b1[q].path@) by {
                assert(b1[p] == b[p + 1] && b1[q] == b[q + 1]);
            }
        }
        lemma_strictly_ascending_unique(a1, b1);
        assert(a =~= b) by {
            assert forall|p: int| 0 <= p < a.len() implies a[p] == b[p] by {
                if p > 0 {
                    assert(a[p] == a1[p - 1] && b[p] == b1[p - 1]);
                }
            }
        }
    }
}

/// The canonical order does not depend on the order items arrive in: two lists holding the
/// same items, each with distinct paths, sort to the same sequence (so a branch manifest rebuilt
/// in another order has the same preimage, and a project rail the same selection).
pub proof fn law_path_sorted_ignores_input_order(a: Seq<BranchItem>, b: Seq<BranchItem>)
    requires
        distinct_paths(a),
        distinct_paths(b),
        forall|x: BranchItem| a.contains(x) <==> b.contains(x),
    ensures
        path_sorted(a) == path_sorted(b),
{
    lemma_path_sorted_distinct(a);
    lemma_path_sorted_distinct(b);
    lemma_path_sorted_members(a);
    lemma_path_sorted_members(b);
    assert forall|x: BranchItem| path_sorted(a).contains(x) <==> path_sorted(b).contains(x) by {
        assert(path_sorted(a).contains(x) == a.contains(x));
        assert(path_sorted(b).contains(x) == b.contains(x));
    }
    lemma_strictly_ascending_unique(path_sorted(a), path_sorted(b));
}

/// Sorts a manifest's items into the canonical path order (stable for equal paths).
pub fn sort_items(items: &mut Vec<BranchItem>)
    ensures
        final(items)@ == path_sorted(old(items)@),
{
    let mut rest: Vec<BranchItem> = Vec::new();
    std::mem::swap(&mut rest, items);
    let ghost src = rest@;
    let n = rest.len();
    let mut out: Vec<BranchItem> = Vec::new();
    let mut i: usize = 0;
    assert(path_sorted(src.take(0)) == Seq::<BranchItem>::empty());
    while i < n
        invariant
            i <= n,
            n == src.len(),
            rest@ == src.skip(i as int),
            out@ == path_sorted(src.take(i as int)),
            paths_ascending(out@),
        decreases n - i,
    {
        let x = rest.remove(0);
        assert(x == src[i as int]);
        assert(rest@ == src.skip(i + 1));
        let ghost s = out@;
        proof { lemma_upper_pos(s, x); }
        let mut p: usize = 0;
        while p < out.len()
            invariant
                p <= out.len(),
                out@ == s,
                paths_ascending(s),
                forall|k: int| 0 <= k < p ==> !seq_lt(x.path@, #[trigger] s[k].path@),
            ensures
                p <= out.len(),
                out@ == s,
                forall|k: int| 0 <= k < p ==> !seq_lt(x.path@, #[trigger] s[k].path@),
                p < out.len() ==> seq_lt(x.path@, s[p as int].path@),
            decreases out.len() - p,
        {
            if str_less(x.path.as_str(), out[p].path.as_str()) {
                break;
            }
            p = p + 1;
        }
        proof {
            lemma_upper_pos(s, x);
            let u = upper_pos(s, x);
            if p < out.len() {
                assert(seq_lt(x.path@, s[p as int].path@));
            }
            if (p as int) < u {
                assert(!seq_lt(x.path@, s[p as int].path@));
            }
            if (p as int) > u {
                assert(seq_lt(x.path@, s[u].path@));
            }
            lemma_insert_keeps_ascending(s, x);
            let t = src.take(i + 1);
            assert(t.drop_last() == src.take(i as int));
            assert(t.last() == x);
        }
        out.insert(p, x);
        i = i + 1;
    }
    assert(src.take(n as int) == src);
    *items = out;
}

// ----- re-pointing a path ---------------------------------------------------------------------

/// The branch's files as a map from path to ref (a later item for a path overrides).
pub open spec fn item_map(items: Seq<BranchItem>) -> Map<Seq<char>, Seq<u8>>
    decreases items.len(),
{
    if items.len() == 0 {
        Map::empty()
    } else {
        item_map(items.drop_last()).insert(items.last().path@, items.last().content_ref@)
    }
}

/// The map a strictly ascending item list denotes, as its items.
pub open spec fn denotes(s: Seq<BranchItem>, m: Map<Seq<char>, Seq<u8>>) -> bool {
    &&& paths_strictly_ascending(s)
    &&& forall|p: Seq<char>| #[trigger] m.contains_key(p) <==> exists|i: int| 0 <= i < s.len() && s[i].path@ == p
    &&& forall|i: int| 0 <= i < s.len() ==> m[(#[trigger] s[i]).path@] == s[i].content_ref@
}

fn copy_ref(r: &[u8; 32]) -> (o: [u8; 32])
    ensures
        o == *r,
{
    *r
}

/// Sets `path` to `content_ref` in a strictly ascending list (replacing its item, or inserting
/// one in order).
fn upsert_item(items: &mut Vec<BranchItem>, path: &str, content_ref: [u8; 32])
    requires
        paths_strictly_ascending(old(items)@),
    ensures
        paths_strictly_ascending(final(items)@),
        forall|m: Map<Seq<char>, Seq<u8>>| denotes(old(items)@, m) ==> denotes(final(items)@, m.insert(path@, content_ref@)),
{
    let ghost s = items@;
    let mut i: usize = 0;
    while i < items.len()
        invariant
            i <= items.len(),
            items@ == s,
            paths_strictly_ascending(s),
            forall|k: int| 0 <= k < i ==> seq_lt(#[trigger] s[k].path@, path@),
        ensures
            i <= items.len(),
            items@ == s,
            forall|k: int| 0 <= k < i ==> seq_lt(#[trigger] s[k].path@, path@),
            i < items.len() ==> !seq_lt(s[i as int].path@, path@),
        decreases items.len() - i,
    {
        if !str_less(items[i].path.as_str(), path) {
            break;
        }
        i = i + 1;
    }
    let ghost i0 = i as int;
    if i < items.len() && crate::text::str_eq(items[i].path.as_str(), path) {
        let mut it = items.remove(i);
        it.content_ref = content_ref;
        items.insert(i, it);
        proof {
            let n = items@;
            assert forall|a: int, b: int| 0 <= a < b < n.len() implies seq_lt(#[trigger] n[a].path@, #[trigger] n[b].path@) by {
                assert(n[a].path@ == s[a].path@ && n[b].path@ == s[b].path@);
            }
            assert forall|m: Map<Seq<char>, Seq<u8>>| denotes(s, m) implies denotes(n, m.insert(path@, content_ref@)) by {
                let m2 = m.insert(path@, content_ref@);
                assert forall|p: Seq<char>| #[trigger] m2.contains_key(p) <==> exists|k: int| 0 <= k < n.len() && n[k].path@ == p by {
                    if m2.contains_key(p) && p != path@ {
                        let k = choose|k: int| 0 <= k < s.len() && s[k].path@ == p;
                        assert(n[k].path@ == p);
                    }
                    if p == path@ {
                        assert(n[i0].path@ == p);
                    }
                    if exists|k: int| 0 <= k < n.len() && n[k].path@ == p {
                        let k = choose|k: int| 0 <= k < n.len() && n[k].path@ == p;
                        assert(s[k].path@ == p);
                    }
                }
                assert forall|k: int| 0 <= k < n.len() implies m2[(#[trigger] n[k]).path@] == n[k].content_ref@ by {
                    if k != i0 {
                        assert(n[k] == s[k]);
                        assert(s[k].path@ != path@) by {
                            if k < i0 { lemma_seq_lt_irreflexive(path@); } else {
                                assert(seq_lt(s[i0].path@, s[k].path@));
                                lemma_seq_lt_irreflexive(path@);
                            }
                        }
                    }
                }
            }
        }
    } else {
        proof {
            if i < items.len() {
                lemma_seq_lt_total(s[i0].path@, path@);
            }
        }
        let it = BranchItem { path: String::from_str(path), content_ref: copy_ref(&content_ref) };
        items.insert(i, it);
        proof {
            let n = items@;
            assert forall|k: int| i0 <= k < s.len() implies seq_lt(path@, #[trigger] s[k].path@) by {
                if k > i0 {
                    lemma_seq_lt_transitive(path@, s[i0].path@, s[k].path@);
                }
            }
            assert forall|a: int, b: int| 0 <= a < b < n.len() implies seq_lt(#[trigger] n[a].path@, #[trigger] n[b].path@) by {
                if b < i0 {
                    assert(n[a] == s[a] && n[b] == s[b]);
                } else if b == i0 {
                    assert(n[a] == s[a]);
                } else if a < i0 {
                    assert(n[a] == s[a] && n[b] == s[b - 1]);
                    lemma_seq_lt_transitive(s[a].path@, path@, s[b - 1].path@);
                } else if a == i0 {
                    assert(n[b] == s[b - 1]);
                } else {
                    assert(n[a] == s[a - 1] && n[b] == s[b - 1]);
                }
            }
            assert forall|m: Map<Seq<char>, Seq<u8>>| denotes(s, m) implies denotes(n, m.insert(path@, content_ref@)) by {
                let m2 = m.insert(path@, content_ref@);
                assert forall|p: Seq<char>| #[trigger] m2.contains_key(p) <==> exists|k: int| 0 <= k < n.len() && n[k].path@ == p by {
                    if m2.contains_key(p) && p != path@ {
                        let k = choose|k: int| 0 <= k < s.len() && s[k].path@ == p;
                        if k < i0 { assert(n[k].path@ == p); } else { assert(n[k + 1].path@ == p); }
                    }
                    if p == path@ {
                        assert(n[i0].path@ == p);
                    }
                    if exists|k: int| 0 <= k < n.len() && n[k].path@ == p {
                        let k = choose|k: int| 0 <= k < n.len() && n[k].path@ == p;
                        if k < i0 { assert(s[k].path@ == p); } else if k > i0 { assert(s[k - 1].path@ == p); }
                    }
                }
                assert forall|k: int| 0 <= k < n.len() implies m2[(#[trigger] n[k]).path@] == n[k].content_ref@ by {
                    if k < i0 {
                        assert(n[k] == s[k]);
                        lemma_seq_lt_irreflexive(path@);
                    } else if k > i0 {
                        assert(n[k] == s[k - 1]);
                        lemma_seq_lt_irreflexive(path@);
                    }
                }
            }
        }
    }
}

proof fn lemma_ascending_denotes_its_map(s: Seq<BranchItem>)
    requires
        paths_strictly_ascending(s),
    ensures
        denotes(s, item_map(s)),
    decreases s.len(),
{
    if s.len() > 0 {
        let d = s.drop_last();
        assert(paths_strictly_ascending(d)) by {
            assert forall|a: int, b: int| 0 <= a < b < d.len() implies seq_lt(#[trigger] d[a].path@, #[trigger] d[b].path@) by {
                assert(d[a] == s[a] && d[b] == s[b]);
            }
        }
        lemma_ascending_denotes_its_map(d);
        let m = item_map(s);
        let last = s.last();
        assert forall|p: Seq<char>| #[trigger] m.contains_key(p) <==> exists|i: int| 0 <= i < s.len() && s[i].path@ == p by {
            if m.contains_key(p) && p != last.path@ {
                let k = choose|k: int| 0 <= k < d.len() && d[k].path@ == p;
                assert(s[k].path@ == p);
            }
            if p == last.path@ {
                assert(s[s.len() - 1].path@ == p);
            }
            if exists|i: int| 0 <= i < s.len() && s[i].path@ == p {
                let i = choose|i: int| 0 <= i < s.len() && s[i].path@ == p;
                if i < s.len() - 1 {
                    assert(d[i].path@ == p);
                }
            }
        }
        assert forall|i: int| 0 <= i < s.len() implies m[(#[trigger] s[i]).path@] == s[i].content_ref@ by {
            if i < s.len() - 1 {
                assert(s[i] == d[i]);
                assert(seq_lt(s[i].path@, s[s.len() - 1].path@));
                lemma_seq_lt_irreflexive(last.path@);
            }
        }
    }
}

proof fn lemma_denotes_without_last(s: Seq<BranchItem>, m: Map<Seq<char>, Seq<u8>>)
    requires
        denotes(s, m),
        s.len() > 0,
    ensures
        denotes(s.drop_last(), m.remove(s.last().path@)),
{
    let d = s.drop_last();
    let lp = s.last().path@;
    let m2 = m.remove(lp);
    assert forall|a: int, b: int| 0 <= a < b < d.len() implies seq_lt(#[trigger] d[a].path@, #[trigger] d[b].path@) by {
        assert(d[a] == s[a] && d[b] == s[b]);
    }
    assert forall|p: Seq<char>| #[trigger] m2.contains_key(p) <==> exists|i: int| 0 <= i < d.len() && d[i].path@ == p by {
        if m2.contains_key(p) {
            assert(m.contains_key(p));
            let i = choose|i: int| 0 <= i < s.len() && s[i].path@ == p;
            assert(i != s.len() - 1);
            assert(d[i].path@ == p);
        }
        if exists|i: int| 0 <= i < d.len() && d[i].path@ == p {
            let i = choose|i: int| 0 <= i < d.len() && d[i].path@ == p;
            assert(s[i].path@ == p);
            assert(m.contains_key(s[i].path@));
            assert(seq_lt(s[i].path@, s[s.len() - 1].path@));
            lemma_seq_lt_irreflexive(p);
        }
    }
    assert forall|i: int| 0 <= i < d.len() implies m2[(#[trigger] d[i]).path@] == d[i].content_ref@ by {
        assert(d[i] == s[i]);
        assert(seq_lt(s[i].path@, s[s.len() - 1].path@));
        lemma_seq_lt_irreflexive(lp);
        assert(m[s[i].path@] == s[i].content_ref@);
    }
}

/// Two strictly ascending lists that denote the same map hold the same items.
proof fn lemma_denotes_unique(s: Seq<BranchItem>, t: Seq<BranchItem>, m: Map<Seq<char>, Seq<u8>>)
    requires
        denotes(s, m),
        denotes(t, m),
    ensures
        s.map_values(|it: BranchItem| branch_item_view(it)) == t.map_values(|it: BranchItem| branch_item_view(it)),
    decreases s.len(),
{
    if s.len() == 0 {
        if t.len() > 0 {
            assert(m.contains_key(t[0].path@));
        }
        assert(s.map_values(|it: BranchItem| branch_item_view(it)) =~= t.map_values(|it: BranchItem| branch_item_view(it)));
    } else {
        assert(m.contains_key(s[0].path@));
        assert(t.len() > 0);
        let ps = s.last().path@;
        let pt = t.last().path@;
        assert(m.contains_key(ps)) by { assert(s[s.len() - 1].path@ == ps); }
        assert(m.contains_key(pt)) by { assert(t[t.len() - 1].path@ == pt); }
        let j = choose|j: int| 0 <= j < t.len() && t[j].path@ == ps;
        let k = choose|k: int| 0 <= k < s.len() && s[k].path@ == pt;
        if ps != pt {
            assert(j < t.len() - 1);
            assert(seq_lt(t[j].path@, t[t.len() - 1].path@));
            assert(k < s.len() - 1);
            assert(seq_lt(s[k].path@, s[s.len() - 1].path@));
            lemma_seq_lt_asymmetric(ps, pt);
        }
        assert(s.last().content_ref@ == m[ps]) by { assert(s[s.len() - 1] == s.last()); }
        assert(t.last().content_ref@ == m[pt]) by { assert(t[t.len() - 1] == t.last()); }
        lemma_denotes_without_last(s, m);
        lemma_denotes_without_last(t, m);
        lemma_denotes_unique(s.drop_last(), t.drop_last(), m.remove(ps));
        let vs = s.map_values(|it: BranchItem| branch_item_view(it));
        let vt = t.map_values(|it: BranchItem| branch_item_view(it));
        assert(vs =~= s.drop_last().map_values(|it: BranchItem| branch_item_view(it)).push(branch_item_view(s.last())));
        assert(vt =~= t.drop_last().map_values(|it: BranchItem| branch_item_view(it)).push(branch_item_view(t.last())));
    }
}

/// Re-pointing a path at the ref it already has is a no-op: the advanced branch holds the very
/// items it held, so its ref dedups.
pub proof fn law_repointing_to_the_current_ref_is_a_noop(base: Seq<BranchItem>, path: Seq<char>, r: Seq<u8>, out: Seq<BranchItem>)
    requires
        paths_strictly_ascending(base),
        item_map(base).contains_key(path),
        item_map(base)[path] == r,
        denotes(out, item_map(base).insert(path, r)),
    ensures
        out.map_values(|it: BranchItem| branch_item_view(it)) == base.map_values(|it: BranchItem| branch_item_view(it)),
{
    lemma_ascending_denotes_its_map(base);
    assert(item_map(base).insert(path, r) =~= item_map(base));
    lemma_denotes_unique(out, base, item_map(base));
}

/// Advancing is idempotent: advancing the advanced branch again with the same path and ref
/// gives the same items.
pub proof fn law_advance_is_idempotent(base: Seq<BranchItem>, path: Seq<char>, r: Seq<u8>, once: Seq<BranchItem>, twice: Seq<BranchItem>)
    requires
        denotes(once, item_map(base).insert(path, r)),
        denotes(twice, item_map(once).insert(path, r)),
    ensures
        twice.map_values(|it: BranchItem| branch_item_view(it)) == once.map_values(|it: BranchItem| branch_item_view(it)),
{
    let m = item_map(base).insert(path, r);
    lemma_ascending_denotes_its_map(once);
    assert(item_map(once) =~= m) by {
        assert forall|p: Seq<char>| #[trigger] item_map(once).contains_key(p) implies item_map(once)[p] == m[p] by {
            let i = choose|i: int| 0 <= i < once.len() && once[i].path@ == p;
            assert(item_map(once)[once[i].path@] == once[i].content_ref@);
            assert(m[once[i].path@] == once[i].content_ref@);
        }
    }
    law_repointing_to_the_current_ref_is_a_noop(once, path, r, twice);
}

/// A branch's files after re-pointing (or adding) `path` at `content_ref`: one item per path,
/// in path order, the last listing of a path winning — re-pointing a path at its current ref
/// gives the same files (so the branch's ref dedups).
pub fn advance_items(base: &[BranchItem], path: &str, content_ref: [u8; 32]) -> (r: Vec<BranchItem>)
    ensures
        denotes(r@, item_map(base@).insert(path@, content_ref@)),
{
    let mut out: Vec<BranchItem> = Vec::new();
    let mut i: usize = 0;
    proof {
        assert(denotes(out@, item_map(base@.take(0)))) by {
            assert(base@.take(0) == Seq::<BranchItem>::empty());
        }
    }
    while i < base.len()
        invariant
            i <= base.len(),
            denotes(out@, item_map(base@.take(i as int))),
        decreases base.len() - i,
    {
        upsert_item(&mut out, base[i].path.as_str(), base[i].content_ref);
        proof {
            let t = base@.take(i + 1);
            assert(t.drop_last() == base@.take(i as int));
            assert(t.last() == base@[i as int]);
        }
        i = i + 1;
    }
    assert(base@.take(base.len() as int) == base@);
    upsert_item(&mut out, path, content_ref);
    out
}

/// A stored catalog ref as 16 bytes: its first 16 (zero-padded when shorter).
pub fn stored_ref16(bytes: &[u8]) -> (r: [u8; 16])
    ensures
        forall|i: int| 0 <= i < 16 ==> r@[i] == (if i < bytes@.len() { bytes@[i] } else { 0u8 }),
{
    let mut id = [0u8; 16];
    let n = if bytes.len() < 16 { bytes.len() } else { 16 };
    let mut i: usize = 0;
    while i < n
        invariant
            i <= n,
            n <= 16,
            n <= bytes.len(),
            n == (if bytes.len() < 16 { bytes.len() } else { 16 }),
            id@.len() == 16,
            forall|j: int| 0 <= j < i ==> id@[j] == bytes@[j],
            forall|j: int| i <= j < 16 ==> id@[j] == 0u8,
        decreases n - i,
    {
        id[i] = bytes[i];
        i = i + 1;
    }
    id
}

/// Whether a branch mutation records history, and whether a pre-history row first seeds its
/// current state as a baseline: a mutation that leaves the ref unchanged records nothing; one
/// that changes a row with no history yet seeds the baseline first.
pub fn history_plan(existing_ref: Option<&[u8]>, new_ref: &[u8; 16], history_empty: bool) -> (r: (bool, bool))
    ensures
        r.0 == !(match existing_ref { Some(e) => e@ == new_ref@, None => false }),
        r.1 == (r.0 && existing_ref is Some && history_empty),
{
    let dedup = match existing_ref {
        Some(e) => {
            if e.len() != 16 {
                false
            } else {
                let mut same = true;
                let mut i: usize = 0;
                while i < 16
                    invariant
                        i <= 16,
                        e@.len() == 16,
                        same <==> forall|j: int| 0 <= j < i ==> e@[j] == new_ref@[j],
                    decreases 16 - i,
                {
                    if e[i] != new_ref[i] {
                        same = false;
                    }
                    i = i + 1;
                }
                proof {
                    if same { assert(e@ =~= new_ref@); }
                }
                same
            }
        },
        None => false,
    };
    let records = !dedup;
    (records, records && existing_ref.is_some() && history_empty)
}

// ----- stored item lists ----------------------------------------------------------------------

/// One stored branch item: `{"path":..,"ref":..}`, the ref as 64 lowercase hex digits.
pub open spec fn branch_row_json(it: BranchItem) -> Seq<char> {
    "{\"path\":"@ + json_string(it.path@) + ",\"ref\":"@ + json_string(hex_lower_spec(it.content_ref@)) + "}"@
}

pub open spec fn branch_rows_json(items: Seq<BranchItem>) -> Seq<char>
    decreases items.len(),
{
    if items.len() == 0 {
        Seq::empty()
    } else if items.len() == 1 {
        branch_row_json(items[0])
    } else {
        branch_rows_json(items.drop_last()) + ","@ + branch_row_json(items.last())
    }
}

/// The stored JSON of a branch's items, in their order (compact, as `serde_json` writes it).
pub open spec fn branch_items_json(items: Seq<BranchItem>) -> Seq<char> {
    "["@ + branch_rows_json(items) + "]"@
}

/// The stored JSON of a branch's items.
pub fn branch_items_to_json(items: &[BranchItem]) -> (r: String)
    ensures
        r@ == branch_items_json(items@),
{
    let mut s = String::from_str("[");
    proof { reveal_strlit("["); }
    let ghost head = s@;
    let mut i: usize = 0;
    while i < items.len()
        invariant
            i <= items.len(),
            head == "["@,
            s@ == head + branch_rows_json(items@.take(i as int)),
        decreases items.len() - i,
    {
        if i > 0 {
            push_str(&mut s, ",");
        }
        push_str(&mut s, "{\"path\":");
        let p = json_quote(items[i].path.as_str());
        push_str(&mut s, p.as_str());
        push_str(&mut s, ",\"ref\":");
        let h = hex_lower(&items[i].content_ref);
        let q = json_quote(h.as_str());
        push_str(&mut s, q.as_str());
        push_str(&mut s, "}");
        proof {
            let t1 = items@.take(i + 1);
            assert(t1.drop_last() == items@.take(i as int));
            assert(t1.last() == items@[i as int]);
            if i == 0 {
                assert(items@.take(0).len() == 0);
            }
            assert(s@ =~= head + branch_rows_json(t1));
        }
        i = i + 1;
    }
    assert(items@.take(items.len() as int) == items@);
    push_str(&mut s, "]");
    s
}

/// One stored bundle item: `{"name":..,"ref":..,"media":..}`.
pub open spec fn bundle_row_json(it: BundleItem) -> Seq<char> {
    "{\"name\":"@ + json_string(it.name@) + ",\"ref\":"@ + json_string(hex_lower_spec(it.content_ref@))
        + ",\"media\":"@ + json_string(it.media_type@) + "}"@
}

pub open spec fn bundle_rows_json(items: Seq<BundleItem>) -> Seq<char>
    decreases items.len(),
{
    if items.len() == 0 {
        Seq::empty()
    } else if items.len() == 1 {
        bundle_row_json(items[0])
    } else {
        bundle_rows_json(items.drop_last()) + ","@ + bundle_row_json(items.last())
    }
}

/// The stored JSON of a bundle's items, in author order.
pub open spec fn bundle_items_json(items: Seq<BundleItem>) -> Seq<char> {
    "["@ + bundle_rows_json(items) + "]"@
}

/// The stored JSON of a bundle's items.
pub fn bundle_items_to_json(items: &[BundleItem]) -> (r: String)
    ensures
        r@ == bundle_items_json(items@),
{
    let mut s = String::from_str("[");
    proof { reveal_strlit("["); }
    let ghost head = s@;
    let mut i: usize = 0;
    while i < items.len()
        invariant
            i <= items.len(),
            head == "["@,
            s@ == head + bundle_rows_json(items@.take(i as int)),
        decreases items.len() - i,
    {
        if i > 0 {
            push_str(&mut s, ",");
        }
        push_str(&mut s, "{\"name\":");
        let n = json_quote(items[i].name.as_str());
        push_str(&mut s, n.as_str());
        push_str(&mut s, ",\"ref\":");
        let h = hex_lower(&items[i].content_ref);
        let q = json_quote(h.as_str());
        push_str(&mut s, q.as_str());
        push_str(&mut s, ",\"media\":");
        let m = json_quote(items[i].media_type.as_str());
        push_str(&mut s, m.as_str());
        push_str(&mut s, "}");
        proof {
            let t1 = items@.take(i + 1);
            assert(t1.drop_last() == items@.take(i as int));
            assert(t1.last() == items@[i as int]);
            if i == 0 {
                assert(items@.take(0).len() == 0);
            }
            assert(s@ =~= head + bundle_rows_json(t1));
        }
        i = i + 1;
    }
    assert(items@.take(items.len() as int) == items@);
    push_str(&mut s, "]");
    s
}

/// The value of the first entry named `key`.
pub open spec fn field(es: Seq<(String, Json)>, key: Seq<char>) -> Option<Json>
    decreases es.len(),
{
    if es.len() == 0 {
        None
    } else if es[0].0@ == key {
        Some(es[0].1)
    } else {
        field(es.drop_first(), key)
    }
}

pub open spec fn str_value(j: Option<Json>) -> Option<Seq<char>> {
    match j {
        Some(Json::Str(s)) => Some(s@),
        _ => None,
    }
}

/// A stored row read as a record of the string fields `keys`: from an object, each field by
/// name (other entries ignored), or from an array of exactly those values in order; `None`
/// when a field is missing or not a string.
pub open spec fn row_fields(j: Json, keys: Seq<Seq<char>>) -> Option<Seq<Seq<char>>> {
    match j {
        Json::Object(es) => if forall|k: int| 0 <= k < keys.len() ==> (#[trigger] str_value(field(es@, keys[k]))) is Some {
            Some(Seq::new(keys.len(), |k: int| str_value(field(es@, keys[k]))->0))
        } else {
            None
        },
        Json::Array(xs) => if xs@.len() == keys.len() && forall|k: int| 0 <= k < keys.len() ==> (#[trigger] str_value(Some(xs@[k]))) is Some {
            Some(Seq::new(keys.len(), |k: int| str_value(Some(xs@[k]))->0))
        } else {
            None
        },
        _ => None,
    }
}

/// A stored list of rows: an array whose every element reads as a row of `keys`.
pub open spec fn stored_rows(j: Json, keys: Seq<Seq<char>>) -> Option<Seq<Seq<Seq<char>>>> {
    match j {
        Json::Array(xs) => if forall|i: int| 0 <= i < xs@.len() ==> (#[trigger] row_fields(xs@[i], keys)) is Some {
            Some(Seq::new(xs@.len(), |i: int| row_fields(xs@[i], keys)->0))
        } else {
            None
        },
        _ => None,
    }
}

fn field_str(es: &Vec<(String, Json)>, key: &str) -> (r: Option<String>)
    ensures
        match r {
            Some(s) => str_value(field(es@, key@)) == Some(s@),
            None => str_value(field(es@, key@)) is None,
        },
{
    let mut i: usize = 0;
    assert(es@.skip(0) == es@);
    while i < es.len()
        invariant
            i <= es.len(),
            field(es@, key@) == field(es@.skip(i as int), key@),
        decreases es.len() - i,
    {
        assert(es@.skip(i as int)[0] == es@[i as int]);
        assert(es@.skip(i as int).drop_first() == es@.skip(i + 1));
        if str_eq(es[i].0.as_str(), key) {
            return match &es[i].1 {
                Json::Str(s) => Some(s.clone()),
                _ => None,
            };
        }
        i = i + 1;
    }
    None
}

fn read_row(j: &Json, keys: &[&str]) -> (r: Option<Vec<String>>)
    ensures
        match r {
            Some(v) => row_fields(*j, keys@.map_values(|k: &str| k@)) == Some(v@.map_values(|s: String| s@))
                && v@.len() == keys@.len(),
            None => row_fields(*j, keys@.map_values(|k: &str| k@)) is None,
        },
{
    let ghost ks = keys@.map_values(|k: &str| k@);
    let mut out: Vec<String> = Vec::new();
    match j {
        Json::Object(es) => {
            let mut k: usize = 0;
            while k < keys.len()
                invariant
                    k <= keys.len(),
                    ks == keys@.map_values(|k: &str| k@),
                    *j == Json::Object(*es),
                    out@.len() == k,
                    forall|x: int| 0 <= x < k ==> str_value(field(es@, ks[x])) == Some(#[trigger] out@[x]@),
                decreases keys.len() - k,
            {
                proof { assert(ks[k as int] == keys@[k as int]@); }
                match field_str(es, keys[k]) {
                    Some(v) => out.push(v),
                    None => {
                        proof {
                            assert(k < ks.len());
                            assert(!(str_value(field(es@, ks[k as int])) is Some));
                        }
                        return None;
                    },
                }
                k = k + 1;
            }
            proof {
                assert forall|x: int| 0 <= x < ks.len() implies (#[trigger] str_value(field(es@, ks[x]))) is Some by {
                    assert(str_value(field(es@, ks[x])) == Some(out@[x]@));
                }
                assert(out@.map_values(|s: String| s@) =~= Seq::new(ks.len(), |x: int| str_value(field(es@, ks[x]))->0));
            }
            Some(out)
        },
        Json::Array(xs) => {
            if xs.len() != keys.len() {
                return None;
            }
            let mut k: usize = 0;
            while k < xs.len()
                invariant
                    k <= xs.len(),
                    xs.len() == keys.len(),
                    ks == keys@.map_values(|k: &str| k@),
                    *j == Json::Array(*xs),
                    out@.len() == k,
                    forall|x: int| 0 <= x < k ==> str_value(Some(xs@[x])) == Some(#[trigger] out@[x]@),
                decreases xs.len() - k,
            {
                match &xs[k] {
                    Json::Str(v) => out.push(v.clone()),
                    _ => {
                        proof { assert(!(str_value(Some(xs@[k as int])) is Some)); }
                        return None;
                    },
                }
                k = k + 1;
            }
            proof {
                assert forall|x: int| 0 <= x < ks.len() implies (#[trigger] str_value(Some(xs@[x]))) is Some by {
                    assert(str_value(Some(xs@[x])) == Some(out@[x]@));
                }
                assert(out@.map_values(|s: String| s@) =~= Seq::new(ks.len(), |x: int| str_value(Some(xs@[x]))->0));
            }
            Some(out)
        },
        _ => None,
    }
}

fn read_rows(j: &Json, keys: &[&str]) -> (r: Option<Vec<Vec<String>>>)
    ensures
        match r {
            Some(v) => stored_rows(*j, keys@.map_values(|k: &str| k@))
                == Some(v@.map_values(|row: Vec<String>| row@.map_values(|s: String| s@)))
                && forall|i: int| 0 <= i < v@.len() ==> (#[trigger] v@[i])@.len() == keys@.len(),
            None => stored_rows(*j, keys@.map_values(|k: &str| k@)) is None,
        },
{
    let ghost ks = keys@.map_values(|k: &str| k@);
    match j {
        Json::Array(xs) => {
            let mut out: Vec<Vec<String>> = Vec::new();
            let mut i: usize = 0;
            while i < xs.len()
                invariant
                    i <= xs.len(),
                    ks == keys@.map_values(|k: &str| k@),
                    *j == Json::Array(*xs),
                    out@.len() == i,
                    forall|x: int| 0 <= x < i ==> row_fields(xs@[x], ks) == Some((#[trigger] out@[x])@.map_values(|s: String| s@)),
                    forall|x: int| 0 <= x < i ==> (#[trigger] out@[x])@.len() == keys@.len(),
                decreases xs.len() - i,
            {
                match read_row(&xs[i], keys) {
                    Some(row) => out.push(row),
                    None => {
                        proof { assert(!(row_fields(xs@[i as int], ks) is Some)); }
                        return None;
                    },
                }
                i = i + 1;
            }
            proof {
                assert forall|x: int| 0 <= x < xs@.len() implies (#[trigger] row_fields(xs@[x], ks)) is Some by {
                    assert(row_fields(xs@[x], ks) == Some(out@[x]@.map_values(|s: String| s@)));
                }
                assert(out@.map_values(|row: Vec<String>| row@.map_values(|s: String| s@))
                    =~= Seq::new(xs@.len(), |x: int| row_fields(xs@[x], ks)->0));
            }
            Some(out)
        },
        _ => None,
    }
}

/// The branch items kept from stored rows `[path, ref]`: a row whose ref is not 64 hex digits
/// is dropped.
pub open spec fn kept_branch_items(rows: Seq<Seq<Seq<char>>>) -> Seq<(Seq<char>, Seq<u8>)>
    decreases rows.len(),
{
    if rows.len() == 0 {
        Seq::empty()
    } else {
        let rest = kept_branch_items(rows.drop_last());
        match decode_ref(rows.last()[1]) {
            Some(r) => rest.push((rows.last()[0], r)),
            None => rest,
        }
    }
}

/// The branch items stored as `text`, as (path, ref): none when `text` is not such a list.
pub open spec fn stored_branch_items(text: Seq<char>) -> Seq<(Seq<char>, Seq<u8>)> {
    match json_parse(text) {
        Ok(j) => match stored_rows(j, seq!["path"@, "ref"@]) {
            Some(rows) => kept_branch_items(rows),
            None => Seq::empty(),
        },
        Err(_) => Seq::empty(),
    }
}

pub open spec fn branch_item_view(it: BranchItem) -> (Seq<char>, Seq<u8>) {
    (it.path@, it.content_ref@)
}

/// A branch's stored items read back: unreadable JSON reads as no items, and an item whose ref
/// is not 64 hex digits is skipped.
pub fn branch_items_from_json(text: &str) -> (r: Vec<BranchItem>)
    ensures
        r@.map_values(|it: BranchItem| branch_item_view(it)) == stored_branch_items(text@),
{
    let mut out: Vec<BranchItem> = Vec::new();
    let j = match parse_json(text) {
        Ok(j) => j,
        Err(_) => {
            assert(out@.map_values(|it: BranchItem| branch_item_view(it)) =~= Seq::empty());
            return out;
        },
    };
    let keys: Vec<&str> = vec!["path", "ref"];
    assert(keys@.map_values(|k: &str| k@) =~= seq!["path"@, "ref"@]);
    let rows = match read_rows(&j, keys.as_slice()) {
        Some(rows) => rows,
        None => {
            assert(out@.map_values(|it: BranchItem| branch_item_view(it)) =~= Seq::empty());
            return out;
        },
    };
    let ghost rv = rows@.map_values(|row: Vec<String>| row@.map_values(|s: String| s@));
    let mut i: usize = 0;
    while i < rows.len()
        invariant
            i <= rows.len(),
            rv == rows@.map_values(|row: Vec<String>| row@.map_values(|s: String| s@)),
            forall|x: int| 0 <= x < rows@.len() ==> (#[trigger] rows@[x])@.len() == 2,
            out@.map_values(|it: BranchItem| branch_item_view(it)) == kept_branch_items(rv.take(i as int)),
        decreases rows.len() - i,
    {
        let row = &rows[i];
        let ghost before = out@;
        match hex_to_32(row[1].as_str()) {
            Some(r) => {
                out.push(BranchItem { path: row[0].clone(), content_ref: r });
            },
            None => {},
        }
        proof {
            let t1 = rv.take(i + 1);
            assert(t1.drop_last() =~= rv.take(i as int));
            assert(t1.last() == rv[i as int]);
            assert(rv[i as int][1] == row@[1]@);
            assert(rv[i as int][0] == row@[0]@);
            assert(out@.map_values(|it: BranchItem| branch_item_view(it)) =~= kept_branch_items(t1));
        }
        i = i + 1;
    }
    assert(rv.take(rows.len() as int) =~= rv);
    out
}

/// The bundle items kept from stored rows `[name, ref, media]`: a row whose ref is not 64 hex
/// digits is dropped.
pub open spec fn kept_bundle_items(rows: Seq<Seq<Seq<char>>>) -> Seq<(Seq<char>, Seq<u8>, Seq<char>)>
    decreases rows.len(),
{
    if rows.len() == 0 {
        Seq::empty()
    } else {
        let rest = kept_bundle_items(rows.drop_last());
        match decode_ref(rows.last()[1]) {
            Some(r) => rest.push((rows.last()[0], r, rows.last()[2])),
            None => rest,
        }
    }
}

/// The bundle items stored as `text`, as (name, ref, media type): none when `text` is not such
/// a list.
pub open spec fn stored_bundle_items(text: Seq<char>) -> Seq<(Seq<char>, Seq<u8>, Seq<char>)> {
    match json_parse(text) {
        Ok(j) => match stored_rows(j, seq!["name"@, "ref"@, "media"@]) {
            Some(rows) => kept_bundle_items(rows),
            None => Seq::empty(),
        },
        Err(_) => Seq::empty(),
    }
}

pub open spec fn bundle_item_view(it: BundleItem) -> (Seq<char>, Seq<u8>, Seq<char>) {
    (it.name@, it.content_ref@, it.media_type@)
}

/// A bundle's stored items read back, in author order: unreadable JSON reads as no items, and
/// an item whose ref is not 64 hex digits is skipped.
pub fn bundle_items_from_json(text: &str) -> (r: Vec<BundleItem>)
    ensures
        r@.map_values(|it: BundleItem| bundle_item_view(it)) == stored_bundle_items(text@),
{
    let mut out: Vec<BundleItem> = Vec::new();
    let j = match parse_json(text) {
        Ok(j) => j,
        Err(_) => {
            assert(out@.map_values(|it: BundleItem| bundle_item_view(it)) =~= Seq::empty());
            return out;
        },
    };
    let keys: Vec<&str> = vec!["name", "ref", "media"];
    assert(keys@.map_values(|k: &str| k@) =~= seq!["name"@, "ref"@, "media"@]);
    let rows = match read_rows(&j, keys.as_slice()) {
        Some(rows) => rows,
        None => {
            assert(out@.map_values(|it: BundleItem| bundle_item_view(it)) =~= Seq::empty());
            return out;
        },
    };
    let ghost rv = rows@.map_values(|row: Vec<String>| row@.map_values(|s: String| s@));
    let mut i: usize = 0;
    while i < rows.len()
        invariant
            i <= rows.len(),
            rv == rows@.map_values(|row: Vec<String>| row@.map_values(|s: String| s@)),
            forall|x: int| 0 <= x < rows@.len() ==> (#[trigger] rows@[x])@.len() == 3,
            out@.map_values(|it: BundleItem| bundle_item_view(it)) == kept_bundle_items(rv.take(i as int)),
        decreases rows.len() - i,
    {
        let row = &rows[i];
        match hex_to_32(row[1].as_str()) {
            Some(r) => {
                out.push(BundleItem { name: row[0].clone(), content_ref: r, media_type: row[2].clone() });
            },
            None => {},
        }
        proof {
            let t1 = rv.take(i + 1);
            assert(t1.drop_last() =~= rv.take(i as int));
            assert(t1.last() == rv[i as int]);
            assert(rv[i as int][0] == row@[0]@);
            assert(rv[i as int][1] == row@[1]@);
            assert(rv[i as int][2] == row@[2]@);
            assert(out@.map_values(|it: BundleItem| bundle_item_view(it)) =~= kept_bundle_items(t1));
        }
        i = i + 1;
    }
    assert(rv.take(rows.len() as int) =~= rv);
    out
}

// ----- branch history -------------------------------------------------------------------------

/// The highest version a branch's history drops after recording version `next`, keeping the
/// newest `history_max` versions.
pub fn history_prune_floor(next: i64, history_max: usize) -> (r: i64)
    requires
        next >= 0,
    ensures
        r == next - (if history_max <= i64::MAX { history_max as int } else { i64::MAX as int }),
{
    let keep: i64 = if (history_max as u64) <= 9223372036854775807u64 { history_max as i64 } else { 9223372036854775807i64 };
    next - keep
}

/// The version a history append reports (`u32::MAX` past it).
pub fn recorded_version(next: i64) -> (r: u32)
    ensures
        r == (if 0 <= next <= u32::MAX { next as u32 } else { u32::MAX }),
{
    if 0 <= next && next <= 4294967295i64 { next as u32 } else { 4294967295u32 }
}

/// The bounds of a history page: versions below the cursor (all of them without one), and
/// one row more than the page to learn whether more follow.
pub fn versions_query_bounds(limit: usize, after_version: Option<u32>) -> (r: (i64, i64))
    ensures
        r.0 == (match after_version { Some(v) => v as int, None => u32::MAX as int }),
        r.1 == (if limit + 1 <= i64::MAX { (limit + 1) as i64 } else { i64::MAX }),
{
    let ceiling: i64 = match after_version {
        Some(v) => v as i64,
        None => 4294967295i64,
    };
    let l: u64 = limit as u64;
    let fetch: i64 = if l < 9223372036854775807u64 { (l + 1) as i64 } else { 9223372036854775807i64 };
    (ceiling, fetch)
}

/// A page of a branch's history from the over-fetched `rows` (newest first): `None` when the
/// first page is empty (no history, or not the caller's branch); otherwise at most `limit`
/// rows and whether more follow. A cursor past the oldest version gives an empty page.
pub fn versions_page<T>(rows: Vec<T>, limit: usize, after_version: Option<u32>) -> (r: Option<(Vec<T>, bool)>)
    ensures
        r is None <==> (rows@.len() == 0 && after_version is None),
        r matches Some(p) ==> p.1 == (rows@.len() > limit)
            && p.0@ == (if rows@.len() > limit { rows@.take(limit as int) } else { rows@ }),
{
    if rows.len() == 0 && after_version.is_none() {
        return None;
    }
    let has_more = rows.len() > limit;
    let mut rows = rows;
    if has_more {
        rows.truncate(limit);
    }
    Some((rows, has_more))
}

/// The item count a history row reports: its stored items (0 past `u32::MAX`).
pub fn version_item_count(items_json: &str) -> (r: u32)
    ensures
        r == (if stored_branch_items(items_json@).len() <= u32::MAX { stored_branch_items(items_json@).len() as u32 } else { 0 }),
{
    let items = branch_items_from_json(items_json);
    proof {
        assert(items@.map_values(|it: BranchItem| branch_item_view(it)).len() == items@.len());
    }
    if items.len() <= 4294967295usize { items.len() as u32 } else { 0 }
}

/// Why a recorded version cannot be restored.
pub open spec fn unrestorable() -> Seq<char> {
    "a recorded item no longer resolves in the content store; this version cannot be restored"@
}

/// The parent and description a restore records: the current row's (a restore re-points
/// items, it does not re-fork), or the historical row's when the branch was deleted. Refused
/// when any recorded item's body is no longer held (`present` lists the refs the store holds).
pub fn restore_target(
    items: &[BranchItem],
    present: &[[u8; 32]],
    current: Option<(String, String)>,
    recorded: (String, String),
) -> (r: Result<(String, String), String>)
    ensures
        match r {
            Ok(t) => (forall|i: int| 0 <= i < items@.len() ==> held(present@, (#[trigger] items@[i]).content_ref@))
                && (t.0@, t.1@) == (match current { Some(c) => (c.0@, c.1@), None => (recorded.0@, recorded.1@) }),
            Err(e) => e@ == unrestorable() && exists|i: int| 0 <= i < items@.len() && !held(present@, (#[trigger] items@[i]).content_ref@),
        },
{
    let mut i: usize = 0;
    while i < items.len()
        invariant
            i <= items.len(),
            forall|j: int| 0 <= j < i ==> held(present@, (#[trigger] items@[j]).content_ref@),
        decreases items.len() - i,
    {
        if !held_in(present, &items[i].content_ref) {
            proof { assert(!held(present@, items@[i as int].content_ref@)); }
            return Err(String::from_str("a recorded item no longer resolves in the content store; this version cannot be restored"));
        }
        i = i + 1;
    }
    match current {
        Some(c) => Ok(c),
        None => Ok(recorded),
    }
}

} // verus!
