use vstd::prelude::*;

use crate::keys::{lex_lt, key_lt, lemma_lex_lt_irrefl, lemma_lex_lt_connex, lemma_lex_lt_trans};

verus! {

/// Whether a page carries payload offsets (leaf) or child offsets (branch).
#[derive(Clone, Copy, PartialEq, Eq, Structural, Debug)]
pub enum NodeKind {
    Leaf,
    Branch,
}

/// A B+Tree page: sorted keys paired index-for-index with optional
/// 64-bit offsets.  In a leaf an absent value is a tombstone; in a
/// branch every value is expected to hold a child offset.
#[derive(Debug)]
pub struct Node {
    pub keys: Vec<Vec<u8>>,
    pub values: Vec<Option<u64>>,
    pub order: usize,
    pub is_root: bool,
    pub kind: NodeKind,
}

/// The keys are strictly increasing: sorted and duplicate-free.
pub open spec fn sorted_strict(ks: Seq<Seq<u8>>) -> bool {
    forall|i: int, j: int| 0 <= i < j < ks.len() ==> lex_lt(ks[i], ks[j])
}

pub open spec fn has_key(ks: Seq<Seq<u8>>, k: Seq<u8>) -> bool {
    exists|i: int| 0 <= i < ks.len() && ks[i] == k
}

/// The value paired with the first occurrence of `k`, or `None` when
/// `k` is absent.  A present key whose paired value is `None` (a
/// tombstone) and an absent key collapse to the same result.
pub open spec fn kv_lookup(ks: Seq<Seq<u8>>, vs: Seq<Option<u64>>, k: Seq<u8>) -> Option<u64>
    decreases ks.len(),
{
    if ks.len() == 0 || vs.len() == 0 {
        None
    } else if ks[0] == k {
        vs[0]
    } else {
        kv_lookup(ks.drop_first(), vs.drop_first(), k)
    }
}

pub open spec fn spec_max_children(order: int, is_root: bool, kind: NodeKind) -> int {
    if kind == NodeKind::Leaf {
        order - 1
    } else {
        order
    }
}

pub open spec fn spec_min_children(order: int, is_root: bool, kind: NodeKind) -> int {
    if is_root {
        if kind == NodeKind::Leaf {
            0
        } else {
            2
        }
    } else {
        if kind == NodeKind::Leaf {
            order / 2 - 1
        } else {
            order / 2
        }
    }
}

pub proof fn lemma_kv_lookup_at(ks: Seq<Seq<u8>>, vs: Seq<Option<u64>>, k: Seq<u8>, i: int)
    requires
        ks.len() == vs.len(),
        0 <= i < ks.len(),
        ks[i] == k,
        forall|j: int| 0 <= j < i ==> ks[j] != k,
    ensures
        kv_lookup(ks, vs, k) == vs[i],
    decreases i,
{
    if i > 0 {
        lemma_kv_lookup_at(ks.drop_first(), vs.drop_first(), k, i - 1);
    }
}

pub proof fn lemma_kv_lookup_absent(ks: Seq<Seq<u8>>, vs: Seq<Option<u64>>, k: Seq<u8>)
    requires
        !has_key(ks, k),
    ensures
        kv_lookup(ks, vs, k) is None,
    decreases ks.len(),
{
    if ks.len() > 0 && vs.len() > 0 {
        assert(ks[0] != k);
        assert(!has_key(ks.drop_first(), k)) by {
            if has_key(ks.drop_first(), k) {
                let j = choose|j: int| 0 <= j < ks.drop_first().len() && ks.drop_first()[j] == k;
                assert(ks[j + 1] == k);
            }
        }
        lemma_kv_lookup_absent(ks.drop_first(), vs.drop_first(), k);
    }
}

/// In a strictly sorted sequence no key occurs twice.
pub proof fn lemma_sorted_unique(ks: Seq<Seq<u8>>, i: int, j: int)
    requires
        sorted_strict(ks),
        0 <= i < j < ks.len(),
    ensures
        ks[i] != ks[j],
{
    if ks[i] == ks[j] {
        lemma_lex_lt_irrefl(ks[i]);
    }
}

/// Looking a key up in a sorted sequence lands on the position that holds it.
pub proof fn lemma_lookup_at_sorted(ks: Seq<Seq<u8>>, vs: Seq<Option<u64>>, k: Seq<u8>, i: int)
    requires
        sorted_strict(ks),
        ks.len() == vs.len(),
        0 <= i < ks.len(),
        ks[i] == k,
    ensures
        kv_lookup(ks, vs, k) == vs[i],
{
    assert forall|j: int| 0 <= j < i implies ks[j] != k by {
        lemma_sorted_unique(ks, j, i);
    }
    lemma_kv_lookup_at(ks, vs, k, i);
}

/// Inserting a key between its neighbours keeps the keys sorted.
pub proof fn lemma_sorted_insert(ks: Seq<Seq<u8>>, k: Seq<u8>, pos: int)
    requires
        sorted_strict(ks),
        0 <= pos <= ks.len(),
        forall|j: int| 0 <= j < pos ==> lex_lt(ks[j], k),
        forall|j: int| pos <= j < ks.len() ==> lex_lt(k, ks[j]),
    ensures
        sorted_strict(ks.insert(pos, k)),
{
    ks.insert_ensures(pos, k);
    let ks1 = ks.insert(pos, k);
    assert forall|i: int, j: int| 0 <= i < j < ks1.len() implies lex_lt(ks1[i], ks1[j]) by {
        if i == pos {
            assert(ks1[j] == ks[j - 1]);
        } else if j == pos {
            assert(ks1[i] == ks[i]);
        } else {
            let i0: int = if i < pos { i } else { i - 1 };
            let j0: int = if j < pos { j } else { j - 1 };
            assert(ks1[i] == ks[i0]);
            assert(ks1[j] == ks[j0]);
            assert(0 <= i0 < j0 < ks.len());
        }
    }
}

/// A key other than the inserted one looks up to what it did before.
pub proof fn lemma_lookup_insert_other(
    ks: Seq<Seq<u8>>,
    vs: Seq<Option<u64>>,
    k: Seq<u8>,
    v: Option<u64>,
    pos: int,
    k2: Seq<u8>,
)
    requires
        sorted_strict(ks),
        ks.len() == vs.len(),
        0 <= pos <= ks.len(),
        forall|j: int| 0 <= j < pos ==> lex_lt(ks[j], k),
        forall|j: int| pos <= j < ks.len() ==> lex_lt(k, ks[j]),
        k2 != k,
    ensures
        kv_lookup(ks.insert(pos, k), vs.insert(pos, v), k2) == kv_lookup(ks, vs, k2),
{
    ks.insert_ensures(pos, k);
    vs.insert_ensures(pos, v);
    lemma_sorted_insert(ks, k, pos);
    let ks1 = ks.insert(pos, k);
    let vs1 = vs.insert(pos, v);
    if has_key(ks, k2) {
        let i = choose|i: int| 0 <= i < ks.len() && ks[i] == k2;
        lemma_lookup_at_sorted(ks, vs, k2, i);
        let i1: int = if i < pos { i } else { i + 1 };
        assert(ks1[i1] == k2);
        assert(vs1[i1] == vs[i]);
        lemma_lookup_at_sorted(ks1, vs1, k2, i1);
    } else {
        assert(!has_key(ks1, k2)) by {
            if has_key(ks1, k2) {
                let i1 = choose|i1: int| 0 <= i1 < ks1.len() && ks1[i1] == k2;
                assert(i1 != pos);
                let i0: int = if i1 < pos { i1 } else { i1 - 1 };
                assert(ks[i0] == k2);
            }
        }
        lemma_kv_lookup_absent(ks, vs, k2);
        lemma_kv_lookup_absent(ks1, vs1, k2);
    }
}

/// Overwriting the value at one position leaves every other key's
/// lookup unchanged.
pub proof fn lemma_lookup_update_other(
    ks: Seq<Seq<u8>>,
    vs: Seq<Option<u64>>,
    pos: int,
    v: Option<u64>,
    k2: Seq<u8>,
)
    requires
        sorted_strict(ks),
        ks.len() == vs.len(),
        0 <= pos < ks.len(),
        k2 != ks[pos],
    ensures
        kv_lookup(ks, vs.update(pos, v), k2) == kv_lookup(ks, vs, k2),
{
    if has_key(ks, k2) {
        let i = choose|i: int| 0 <= i < ks.len() && ks[i] == k2;
        lemma_lookup_at_sorted(ks, vs, k2, i);
        lemma_lookup_at_sorted(ks, vs.update(pos, v), k2, i);
    } else {
        lemma_kv_lookup_absent(ks, vs, k2);
        lemma_kv_lookup_absent(ks, vs.update(pos, v), k2);
    }
}

/// Everything an upsert guarantees: the page (together with the split
/// sibling, when one is returned) holds the new pair, every other
/// key's lookup is unchanged, the keys stay strictly sorted, and a
/// split happens exactly when the key count reaches the maximum
/// fan-out.
pub open spec fn upsert_post(pre: Node, k: Seq<u8>, v: Option<u64>, post: Node, r: Option<
    Node,
>) -> bool {
    &&& post.well_formed()
    &&& post.order == pre.order
    &&& post.kind == pre.kind
    &&& post.is_root == pre.is_root
    &&& ({
        let nk = match r {
            None => post.keys_view(),
            Some(o) => post.keys_view() + o.keys_view(),
        };
        let nv = match r {
            None => post.vals_view(),
            Some(o) => post.vals_view() + o.vals_view(),
        };
        &&& sorted_strict(nk)
        &&& nk.len() == nv.len()
        &&& kv_lookup(nk, nv, k) == v
        &&& forall|k2: Seq<u8>| k2 != k ==> kv_lookup(nk, nv, k2) == pre.spec_get(k2)
        &&& has_key(pre.keys_view(), k) ==> nk == pre.keys_view()
        &&& !has_key(pre.keys_view(), k) ==> nk.len() == pre.keys_view().len() + 1
        &&& forall|j: int| 0 <= j < nk.len() ==> nk[j] == k || pre.keys_view().contains(nk[j])
    })
    &&& match r {
        None => post.wf(),
        Some(o) => {
            &&& post.keys@.len() + o.keys@.len() == pre.spec_max()
            &&& post.wf()
            &&& o.wf()
            &&& o.order == pre.order
            &&& o.kind == pre.kind
            &&& !o.is_root
            &&& o.keys@.len() >= 1
            &&& post.keys@.len() >= 1
        },
    }
    &&& (r is Some <==> !has_key(pre.keys_view(), k) && pre.keys_view().len() + 1
        == pre.spec_max())
}

/// Law: after an upsert stores `v` under `k`, looking `k` up in the
/// resulting page (or in the pair of pages, after a split) yields
/// exactly `v` — so a lookup right after an insert returns the value
/// inserted, and right after a tombstone returns an absent result —
/// while every other key reads as it did before.
pub proof fn lemma_get_after_upsert(
    pre: Node,
    k: Seq<u8>,
    v: Option<u64>,
    post: Node,
    r: Option<Node>,
)
    requires
        upsert_post(pre, k, v, post, r),
    ensures
        r is None ==> post.spec_get(k) == v,
        r is None ==> forall|k2: Seq<u8>| k2 != k ==> post.spec_get(k2) == pre.spec_get(k2),
        r matches Some(o) ==> kv_lookup(
            post.keys_view() + o.keys_view(),
            post.vals_view() + o.vals_view(),
            k,
        ) == v,
{
}

/// Law: whatever an upsert does, the keys of the resulting page (or
/// pages) stay strictly sorted, hence duplicate-free.
pub proof fn lemma_upsert_keeps_keys_sorted(
    pre: Node,
    k: Seq<u8>,
    v: Option<u64>,
    post: Node,
    r: Option<Node>,
)
    requires
        upsert_post(pre, k, v, post, r),
    ensures
        ({
            let nk = match r {
                None => post.keys_view(),
                Some(o) => post.keys_view() + o.keys_view(),
            };
            &&& sorted_strict(nk)
            &&& forall|i: int, j: int| 0 <= i < j < nk.len() ==> nk[i] != nk[j]
        }),
{
    let nk = match r {
        None => post.keys_view(),
        Some(o) => post.keys_view() + o.keys_view(),
    };
    assert forall|i: int, j: int| 0 <= i < j < nk.len() implies nk[i] != nk[j] by {
        lemma_sorted_unique(nk, i, j);
    }
}

/// Law: an insert of a fresh key that brings a page to its maximum
/// fan-out triggers exactly one split, and both resulting pages stay
/// below the maximum.
pub proof fn lemma_split_on_full(
    pre: Node,
    k: Seq<u8>,
    v: Option<u64>,
    post: Node,
    r: Option<Node>,
)
    requires
        upsert_post(pre, k, v, post, r),
        !has_key(pre.keys_view(), k),
        pre.keys_view().len() + 1 == pre.spec_max(),
    ensures
        r is Some,
        post.keys@.len() < pre.spec_max(),
        r matches Some(o) ==> o.keys@.len() < pre.spec_max() && post.keys@.len()
            + o.keys@.len() == pre.spec_max(),
{
    let o = r->0;
    assert(post.keys@.len() < post.spec_max());
    assert(o.keys@.len() < o.spec_max());
}

impl Node {
    /// The sequence of keys as mathematical byte strings.
    pub open spec fn keys_view(self) -> Seq<Seq<u8>> {
        self.keys@.map_values(|k: Vec<u8>| k@)
    }

    pub open spec fn vals_view(self) -> Seq<Option<u64>> {
        self.values@
    }

    /// Structural invariant: a sane order, index-aligned keys and
    /// values, and strictly sorted keys.
    pub open spec fn well_formed(self) -> bool {
        &&& self.order > 2
        &&& self.keys@.len() == self.values@.len()
        &&& sorted_strict(self.keys_view())
    }

    pub open spec fn spec_max(self) -> int {
        spec_max_children(self.order as int, self.is_root, self.kind)
    }

    pub open spec fn spec_min(self) -> int {
        spec_min_children(self.order as int, self.is_root, self.kind)
    }

    /// Occupancy invariant: a node never reaches its maximum fan-out,
    /// because hitting the maximum triggers an immediate split.
    pub open spec fn within_bounds(self) -> bool {
        self.keys@.len() < self.spec_max()
    }

    pub open spec fn wf(self) -> bool {
        self.well_formed() && self.within_bounds()
    }

    pub open spec fn spec_get(self, k: Seq<u8>) -> Option<u64> {
        kv_lookup(self.keys_view(), self.vals_view(), k)
    }

    /// Builds an empty page.
    pub fn new(order: usize, kind: NodeKind, is_root: bool) -> (r: Node)
        requires
            order > 2,
        ensures
            r.wf(),
            r.keys@.len() == 0,
            r.order == order,
            r.kind == kind,
            r.is_root == is_root,
    {
        Node { keys: Vec::new(), values: Vec::new(), order, is_root, kind }
    }

    pub fn is_leaf(&self) -> (r: bool)
        ensures
            r == (self.kind == NodeKind::Leaf),
    {
        self.kind == NodeKind::Leaf
    }

    pub fn is_branch(&self) -> (r: bool)
        ensures
            r == (self.kind == NodeKind::Branch),
    {
        self.kind == NodeKind::Branch
    }

    pub fn is_root(&self) -> (r: bool)
        ensures
            r == self.is_root,
    {
        self.is_root
    }

    /// The least number of children the node's role allows.
    pub fn min_children(&self) -> (r: usize)
        requires
            self.order > 2,
        ensures
            self.is_root && self.kind == NodeKind::Leaf ==> r == 0,
            self.is_root && self.kind == NodeKind::Branch ==> r == 2,
            !self.is_root && self.kind == NodeKind::Leaf ==> r == self.order as int / 2 - 1,
            !self.is_root && self.kind == NodeKind::Branch ==> r == self.order as int / 2,
            r == self.spec_min(),
    {
        match (self.is_root, self.kind == NodeKind::Leaf) {
            (true, true) => 0,
            (true, false) => 2,
            (false, true) => self.order / 2 - 1,
            (false, false) => self.order / 2,
        }
    }

    /// The greatest number of children the node's role allows.
    pub fn max_children(&self) -> (r: usize)
        requires
            self.order > 2,
        ensures
            self.kind == NodeKind::Leaf ==> r == self.order - 1,
            self.kind == NodeKind::Branch ==> r == self.order,
            r == self.spec_max(),
    {
        match (self.is_root, self.kind == NodeKind::Leaf) {
            (true, true) => self.order - 1,
            (true, false) => self.order,
            (false, true) => self.order - 1,
            (false, false) => self.order,
        }
    }

    pub fn len(&self) -> (r: usize)
        ensures
            r == self.keys@.len(),
    {
        self.keys.len()
    }

    /// Binary search: where `key` sits, or where it would be inserted.
    pub(crate) fn search(&self, key: &Vec<u8>) -> (r: (bool, usize))
        requires
            self.well_formed(),
        ensures
            r.1 <= self.keys@.len(),
            forall|j: int| 0 <= j < r.1 ==> lex_lt(self.keys_view()[j], key@),
            r.0 ==> r.1 < self.keys@.len() && self.keys_view()[r.1 as int] == key@,
            !r.0 ==> forall|j: int| r.1 <= j < self.keys@.len()
                ==> lex_lt(key@, self.keys_view()[j]),
    {
        let ghost kv = self.keys_view();
        let mut lo: usize = 0;
        let mut hi: usize = self.keys.len();
        while lo < hi
            invariant
                lo <= hi <= self.keys@.len(),
                self.well_formed(),
                kv == self.keys_view(),
                forall|j: int| 0 <= j < lo ==> lex_lt(kv[j], key@),
                forall|j: int| hi <= j < kv.len() ==> lex_lt(key@, kv[j]),
            decreases hi - lo,
        {
            let mid = lo + (hi - lo) / 2;
            if key_lt(&self.keys[mid], key) {
                assert forall|j: int| 0 <= j < mid + 1 implies lex_lt(kv[j], key@) by {
                    if j < mid {
                        lemma_lex_lt_trans(kv[j], kv[mid as int], key@);
                    }
                }
                lo = mid + 1;
            } else if key_lt(key, &self.keys[mid]) {
                assert forall|j: int| mid <= j < kv.len() implies lex_lt(key@, kv[j]) by {
                    if j > mid {
                        lemma_lex_lt_trans(key@, kv[mid as int], kv[j]);
                    }
                }
                hi = mid;
            } else {
                proof {
                    lemma_lex_lt_connex(kv[mid as int], key@);
                }
                return (true, mid);
            }
        }
        (false, lo)
    }

    /// Exact-match lookup among this page's keys.
    pub fn get(&self, key: &Vec<u8>) -> (r: Option<u64>)
        requires
            self.well_formed(),
        ensures
            r == self.spec_get(key@),
    {
        let (found, pos) = self.search(key);
        if found {
            proof {
                lemma_lookup_at_sorted(self.keys_view(), self.vals_view(), key@, pos as int);
            }
            self.values[pos]
        } else {
            proof {
                assert(!has_key(self.keys_view(), key@)) by {
                    if has_key(self.keys_view(), key@) {
                        let i = choose|i: int| 0 <= i < self.keys_view().len()
                            && self.keys_view()[i] == key@;
                        lemma_lex_lt_irrefl(key@);
                    }
                }
                lemma_kv_lookup_absent(self.keys_view(), self.vals_view(), key@);
            }
            None
        }
    }

    /// Partitions the page at the midpoint: this page keeps the lower
    /// half, the returned sibling takes the upper half, same order and
    /// kind, never a root.  The sibling's first key is the separator
    /// the parent must learn about.
    pub fn split(&mut self) -> (r: Node)
        requires
            old(self).well_formed(),
            old(self).keys@.len() >= 2,
        ensures
            final(self).well_formed(),
            r.well_formed(),
            final(self).order == old(self).order,
            final(self).kind == old(self).kind,
            final(self).is_root == old(self).is_root,
            r.order == old(self).order,
            r.kind == old(self).kind,
            !r.is_root,
            final(self).keys@.len() == old(self).keys@.len() as int / 2,
            r.keys@.len() == old(self).keys@.len() - old(self).keys@.len() as int / 2,
            final(self).keys_view()
                == old(self).keys_view().subrange(0, old(self).keys@.len() as int / 2),
            r.keys_view() == old(self).keys_view().subrange(
                old(self).keys@.len() as int / 2,
                old(self).keys@.len() as int,
            ),
            final(self).vals_view()
                == old(self).vals_view().subrange(0, old(self).keys@.len() as int / 2),
            r.vals_view() == old(self).vals_view().subrange(
                old(self).keys@.len() as int / 2,
                old(self).keys@.len() as int,
            ),
    {
        let mid = self.keys.len() / 2;
        let r_keys = self.keys.split_off(mid);
        let r_vals = self.values.split_off(mid);
        let r = Node {
            keys: r_keys,
            values: r_vals,
            order: self.order,
            is_root: false,
            kind: self.kind,
        };
        proof {
            assert(self.keys_view()
                =~= old(self).keys_view().subrange(0, old(self).keys@.len() as int / 2));
            assert(r.keys_view() =~= old(self).keys_view().subrange(
                old(self).keys@.len() as int / 2,
                old(self).keys@.len() as int,
            ));
        }
        r
    }

    /// Upserts `key`: overwrites the paired value when the key is
    /// present, otherwise inserts the pair at its sorted position; a
    /// present pair with an absent value is a tombstone.  When the key
    /// count thereby reaches the page's maximum fan-out, the page is
    /// split and the upper half is returned.
    pub fn insert_option_directly(&mut self, key: &Vec<u8>, value: Option<u64>) -> (r: Option<
        Node,
    >)
        requires
            old(self).wf(),
        ensures
            upsert_post(*old(self), key@, value, *final(self), r),
    {
        let ghost ks0 = self.keys_view();
        let ghost vs0 = self.vals_view();
        let (found, pos) = self.search(key);
        if found {
            self.values[pos] = value;
            proof {
                assert(self.keys_view() =~= ks0);
                lemma_lookup_at_sorted(ks0, self.vals_view(), key@, pos as int);
                assert forall|k2: Seq<u8>| k2 != key@ implies kv_lookup(
                    self.keys_view(),
                    self.vals_view(),
                    k2,
                ) == kv_lookup(ks0, vs0, k2) by {
                    lemma_lookup_update_other(ks0, vs0, pos as int, value, k2);
                }
            }
        } else {
            self.keys.insert(pos, crate::keys::clone_key(key));
            self.values.insert(pos, value);
            proof {
                assert(self.keys_view() =~= ks0.insert(pos as int, key@));
                ks0.insert_ensures(pos as int, key@);
                vs0.insert_ensures(pos as int, value);
                lemma_sorted_insert(ks0, key@, pos as int);
                lemma_lookup_at_sorted(self.keys_view(), self.vals_view(), key@, pos as int);
                assert forall|k2: Seq<u8>| k2 != key@ implies kv_lookup(
                    self.keys_view(),
                    self.vals_view(),
                    k2,
                ) == kv_lookup(ks0, vs0, k2) by {
                    lemma_lookup_insert_other(ks0, vs0, key@, value, pos as int, k2);
                }
                assert forall|j: int| 0 <= j < self.keys_view().len() implies self.keys_view()[j]
                    == key@ || ks0.contains(self.keys_view()[j]) by {
                    if j != pos {
                        let j0: int = if j < pos { j } else { j - 1 };
                        assert(self.keys_view()[j] == ks0[j0]);
                    }
                }
                if has_key(ks0, key@) {
                    let i = choose|i: int| 0 <= i < ks0.len() && ks0[i] == key@;
                    lemma_lex_lt_irrefl(key@);
                }
            }
        }
        let ghost nk = self.keys_view();
        let ghost nv = self.vals_view();
        if self.keys.len() == self.max_children() {
            let other = self.split();
            proof {
                assert(nk =~= self.keys_view() + other.keys_view());
                assert(nv =~= self.vals_view() + other.vals_view());
            }
            Some(other)
        } else {
            None
        }
    }

    /// Drops the entry at position `i`; the remaining keys stay
    /// sorted.
    pub(crate) fn remove_entry(&mut self, i: usize)
        requires
            old(self).well_formed(),
            i < old(self).keys@.len(),
        ensures
            final(self).well_formed(),
            final(self).order == old(self).order,
            final(self).kind == old(self).kind,
            final(self).is_root == old(self).is_root,
            final(self).keys_view() == old(self).keys_view().remove(i as int),
            final(self).vals_view() == old(self).vals_view().remove(i as int),
            final(self).keys@.len() == old(self).keys@.len() - 1,
    {
        let ghost ks0 = self.keys_view();
        self.keys.remove(i);
        self.values.remove(i);
        proof {
            assert(self.keys_view() =~= ks0.remove(i as int));
            ks0.remove_ensures(i as int);
            let ks1 = ks0.remove(i as int);
            assert forall|a: int, b: int| 0 <= a < b < ks1.len() implies lex_lt(
                ks1[a],
                ks1[b],
            ) by {
                let a0: int = if a < i { a } else { a + 1 };
                let b0: int = if b < i { b } else { b + 1 };
                assert(ks1[a] == ks0[a0]);
                assert(ks1[b] == ks0[b0]);
            }
        }
    }

    /// Upserts a live value offset for `key`.
    pub fn insert(&mut self, key: &Vec<u8>, value: u64) -> (r: Option<Node>)
        requires
            old(self).wf(),
        ensures
            upsert_post(*old(self), key@, Some(value), *final(self), r),
    {
        self.insert_option_directly(key, Some(value))
    }

    /// Writes a tombstone for `key`: the key stays, its value becomes
    /// absent.  Tombstoning a key that was never inserted is accepted.
    pub fn delete(&mut self, key: &Vec<u8>) -> (r: Option<Node>)
        requires
            old(self).wf(),
        ensures
            upsert_post(*old(self), key@, None, *final(self), r),
    {
        self.insert_option_directly(key, None)
    }
}

} // verus!
