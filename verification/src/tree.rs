use vstd::prelude::*;

use crate::keys::{lex_lt, clone_key, lemma_lex_lt_irrefl, lemma_lex_lt_trans};
use crate::node::{Node, NodeKind, kv_lookup, sorted_strict, upsert_post, has_key,
    spec_max_children};
use crate::codec::{spec_dec, spec_enc, model_of, lemma_model_wf, lemma_codec_round_trip,
    NodeModel};
use crate::log::Log;

verus! {

/// Why a tree operation failed: the store had no record at an offset
/// the tree follows, or the record's bytes did not decode to a page.
#[derive(Clone, Copy, PartialEq, Eq, Structural, Debug)]
pub enum TreeError {
    Read,
    Decode,
}

/// The marker key under which the index appends node records.
pub fn node_record_key() -> (r: Vec<u8>)
    ensures
        r@ =~= seq![43u8, 110u8, 111u8, 100u8, 101u8],
{
    let mut r: Vec<u8> = Vec::new();
    r.push(43);
    r.push(110);
    r.push(111);
    r.push(100);
    r.push(101);
    r
}

/// The marker key under which a root pointer record may be kept.
pub fn root_record_key() -> (r: Vec<u8>)
    ensures
        r@ =~= seq![43u8, 114u8, 111u8, 111u8, 116u8],
{
    let mut r: Vec<u8> = Vec::new();
    r.push(43);
    r.push(114);
    r.push(111);
    r.push(111);
    r.push(116);
    r
}

/// The index of the child to descend into: the position of the last
/// key at or below the search key, or the first child when every key
/// lies above it.
pub open spec fn child_index(ks: Seq<Seq<u8>>, q: Seq<u8>) -> int
    decreases ks.len(),
{
    if ks.len() <= 1 {
        0
    } else if lex_lt(q, ks[1]) {
        0
    } else {
        1 + child_index(ks.drop_first(), q)
    }
}

/// Pins `child_index` down: it is the position `c` whose key is at or
/// below the search key while the next key, if any, lies above it.
pub proof fn lemma_child_index_char(ks: Seq<Seq<u8>>, q: Seq<u8>, c: int)
    requires
        sorted_strict(ks),
        0 <= c < ks.len(),
        c > 0 ==> !lex_lt(q, ks[c]),
        c + 1 < ks.len() ==> lex_lt(q, ks[c + 1]),
    ensures
        child_index(ks, q) == c,
    decreases ks.len(),
{
    if c == 0 {
    } else {
        assert(!lex_lt(q, ks[1])) by {
            if lex_lt(q, ks[1]) {
                if c == 1 {
                } else {
                    lemma_lex_lt_trans(q, ks[1], ks[c]);
                }
            }
        }
        assert(ks.drop_first().len() == ks.len() - 1);
        assert forall|i: int, j: int| 0 <= i < j < ks.drop_first().len() implies lex_lt(
            #[trigger] ks.drop_first()[i],
            #[trigger] ks.drop_first()[j],
        ) by {
            assert(ks.drop_first()[i] == ks[i + 1]);
            assert(ks.drop_first()[j] == ks[j + 1]);
        }
        assert(ks.drop_first()[c - 1] == ks[c]);
        if c < ks.len() - 1 {
            assert(ks.drop_first()[c] == ks[c + 1]);
        }
        lemma_child_index_char(ks.drop_first(), q, c - 1);
    }
}

/// The leaf the descent from `pos` reaches for `key`, or nothing when
/// the walk runs off the log, fails to decode, or does not strictly
/// descend toward smaller offsets.
pub open spec fn spec_find_leaf(log: Seq<(Seq<u8>, Seq<u8>)>, pos: int, key: Seq<u8>) -> Option<
    NodeModel,
>
    decreases pos,
{
    if pos < 0 || pos >= log.len() {
        None
    } else {
        match spec_dec(log[pos].1) {
            None => None,
            Some(m) => {
                if m.kind == NodeKind::Leaf {
                    Some(m)
                } else if m.keys.len() == 0 {
                    None
                } else {
                    match m.vals[child_index(m.keys, key)] {
                        None => None,
                        Some(child) => if child < pos {
                            spec_find_leaf(log, child as int, key)
                        } else {
                            None
                        },
                    }
                }
            },
        }
    }
}

/// What `get` returns: the outer option is `None` on a malformed
/// tree, the inner option is the stored offset or an absent result.
pub open spec fn spec_tree_get(
    log: Seq<(Seq<u8>, Seq<u8>)>,
    root: Option<u64>,
    key: Seq<u8>,
) -> Option<Option<u64>> {
    match root {
        None => Some(None),
        Some(p) => match spec_find_leaf(log, p as int, key) {
            None => None,
            Some(m) => Some(kv_lookup(m.keys, m.vals, key)),
        },
    }
}

/// The index handle: the fan-out its nodes use and the offset of the
/// current root record, absent while the index is empty.
pub struct BPlusTree {
    pub order: usize,
    pub root_position: Option<u64>,
}

impl BPlusTree {
    pub open spec fn wf(self) -> bool {
        self.order > 2
    }

    pub fn new(order: usize, root_position: Option<u64>) -> (r: BPlusTree)
        requires
            order > 2,
        ensures
            r.order == order,
            r.root_position == root_position,
            r.wf(),
    {
        BPlusTree { order, root_position }
    }

    /// Descends from the root to the leaf that governs `key`,
    /// collecting each branch page visited together with the child
    /// position followed out of it.
    fn find_leaf(&self, log: &Log, key: &Vec<u8>) -> (r: Result<
        (Option<Node>, Vec<(Node, usize)>),
        TreeError,
    >)
        ensures
            match r {
                Ok(t) => {
                    &&& match t.0 {
                        Some(leaf) => {
                            &&& self.root_position is Some
                            &&& leaf.wf()
                            &&& leaf.kind == NodeKind::Leaf
                            &&& spec_find_leaf(
                                log.view_seq(),
                                self.root_position->0 as int,
                                key@,
                            ) == Some(model_of(leaf))
                        },
                        None => self.root_position is None && t.1@.len() == 0,
                    }
                    &&& forall|i: int| 0 <= i < t.1@.len() ==> {
                        &&& (#[trigger] t.1@[i]).0.wf()
                        &&& t.1@[i].0.kind == NodeKind::Branch
                        &&& t.1@[i].1 < t.1@[i].0.keys@.len()
                    }
                    &&& (self.root_position matches Some(p) && spec_dec(
                        log.view_seq()[p as int].1,
                    ) matches Some(m) && m.kind == NodeKind::Leaf) ==> t.1@.len() == 0
                },
                Err(_) => self.root_position is Some && spec_find_leaf(
                    log.view_seq(),
                    self.root_position->0 as int,
                    key@,
                ) is None,
            },
    {
        let mut history: Vec<(Node, usize)> = Vec::new();
        let root: u64 = match self.root_position {
            None => {
                return Ok((None, history));
            },
            Some(p) => p,
        };
        let mut cur: u64 = root;
        loop
            invariant
                self.root_position == Some(root),
                cur <= root,
                cur == root ==> history@.len() == 0,
                cur != root ==> (spec_dec(log.view_seq()[root as int].1) matches Some(m)
                    && m.kind == NodeKind::Branch),
                spec_find_leaf(log.view_seq(), root as int, key@) == spec_find_leaf(
                    log.view_seq(),
                    cur as int,
                    key@,
                ),
                forall|i: int| 0 <= i < history@.len() ==> {
                    &&& (#[trigger] history@[i]).0.wf()
                    &&& history@[i].0.kind == NodeKind::Branch
                    &&& history@[i].1 < history@[i].0.keys@.len()
                },
            decreases cur,
        {
            let rec = match log.read_at(cur) {
                Ok(rec) => rec,
                Err(_) => {
                    return Err(TreeError::Read);
                },
            };
            let node = match Node::from_bytes(&rec.value) {
                Ok(n) => n,
                Err(_) => {
                    return Err(TreeError::Decode);
                },
            };
            proof {
                assert(log.view_seq()[cur as int].1 == rec.value@);
            }
            if node.is_leaf() {
                return Ok((Some(node), history));
            }
            if node.len() == 0 {
                return Err(TreeError::Decode);
            }
            let (found, pos) = node.search(key);
            let ci: usize = if found {
                pos
            } else if pos == 0 {
                0
            } else {
                pos - 1
            };
            proof {
                let ks = node.keys_view();
                if found {
                    assert(!lex_lt(key@, ks[pos as int])) by {
                        lemma_lex_lt_irrefl(key@);
                    }
                    if pos + 1 < ks.len() {
                        assert(lex_lt(ks[pos as int], ks[pos as int + 1]));
                        assert(lex_lt(key@, ks[pos as int + 1]));
                    }
                    lemma_child_index_char(ks, key@, pos as int);
                } else if pos == 0 {
                    lemma_child_index_char(ks, key@, 0);
                } else {
                    assert(lex_lt(ks[pos - 1], key@));
                    assert(!lex_lt(key@, ks[pos - 1])) by {
                        if lex_lt(key@, ks[pos - 1]) {
                            lemma_lex_lt_trans(key@, ks[pos - 1], key@);
                            lemma_lex_lt_irrefl(key@);
                        }
                    }
                    lemma_child_index_char(ks, key@, pos - 1);
                }
                assert(ci as int == child_index(model_of(node).keys, key@));
            }
            let child: u64 = match node.values[ci] {
                Some(c) => c,
                None => {
                    return Err(TreeError::Decode);
                },
            };
            if child >= cur {
                return Err(TreeError::Decode);
            }
            history.push((node, ci));
            cur = child;
        }
    }

    /// Looks `key` up: descends to the governing leaf and reads the
    /// paired offset there; an empty index yields an absent result.
    pub fn get(&self, log: &Log, key: &Vec<u8>) -> (r: Result<Option<u64>, TreeError>)
        ensures
            match r {
                Ok(v) => spec_tree_get(log.view_seq(), self.root_position, key@) == Some(v),
                Err(_) => spec_tree_get(log.view_seq(), self.root_position, key@) is None,
            },
    {
        match self.find_leaf(log, key) {
            Err(e) => Err(e),
            Ok((maybe_leaf, _history)) => match maybe_leaf {
                Some(leaf) => Ok(leaf.get(key)),
                None => Ok(None),
            },
        }
    }

    /// Upserts through the whole path: mutates the governing leaf,
    /// re-appends every touched page at a fresh offset, propagates
    /// split separators upward, grows a new root when the old one
    /// splits, and only then moves the root pointer.
    fn insert_option_directly(&mut self, log: &mut Log, key: &Vec<u8>, value: Option<u64>) -> (r:
        Result<(), TreeError>)
        requires
            old(self).wf(),
        ensures
            final(self).wf(),
            final(self).order == old(self).order,
            old(log).view_seq().is_prefix_of(final(log).view_seq()),
            r is Ok ==> final(self).root_position == Some(
                (final(log).view_seq().len() - 1) as u64,
            ) && final(log).view_seq().len() > old(log).view_seq().len(),
            r is Err ==> *final(self) == *old(self) && final(log).view_seq() == old(
                log,
            ).view_seq(),
            r is Ok <==> old(self).root_position is None || spec_find_leaf(
                old(log).view_seq(),
                old(self).root_position->0 as int,
                key@,
            ) is Some,
            old(self).root_position is None && r is Ok ==> spec_tree_get(
                final(log).view_seq(),
                final(self).root_position,
                key@,
            ) == Some(value),
            (old(self).root_position matches Some(p) && spec_dec(
                old(log).view_seq()[p as int].1,
            ) matches Some(m) && m.kind == NodeKind::Leaf && r is Ok && (has_key(
                m.keys,
                key@,
            ) || m.keys.len() + 1 < spec_max_children(m.order, m.is_root, m.kind)))
                ==> spec_tree_get(
                final(log).view_seq(),
                final(self).root_position,
                key@,
            ) == Some(value),
    {
        proof {
            lemma_prefix_refl(log.view_seq());
        }
        let (maybe_leaf, mut history) = match self.find_leaf(log, key) {
            Err(e) => {
                return Err(e);
            },
            Ok(t) => t,
        };
        let ghost was_empty = self.root_position is None;
        let mut node = match maybe_leaf {
            Some(n) => n,
            None => Node::new(self.order, NodeKind::Leaf, true),
        };
        let ghost leaf_pre = node;
        let ghost hist_empty = history@.len() == 0;
        proof {
            if !was_empty {
                assert(spec_find_leaf(
                    old(log).view_seq(),
                    old(self).root_position->0 as int,
                    key@,
                ) == Some(model_of(leaf_pre)));
            }
        }
        let mut sep: Option<(Vec<u8>, u64)> = None;
        match node.insert_option_directly(key, value) {
            None => {
                proof {
                    if crate::node::has_key(leaf_pre.keys_view(), key@) {
                        let w = choose|w: int| 0 <= w < leaf_pre.keys_view().len()
                            && leaf_pre.keys_view()[w] == key@;
                    }
                    assert(node.keys@.len() >= 1);
                }
            },
            Some(sib) => {
                proof {
                    if was_empty {
                        assert(false);
                    }
                }
                let sib_bytes = sib.to_bytes();
                let sib_pos = log.end_offset();
                let sep_key = clone_key(&sib.keys[0]);
                let ghost pre = log.view_seq();
                log.append(node_record_key(), sib_bytes);
                proof {
                    lemma_prefix_push(old(log).view_seq(), pre, log.view_seq().last());
                }
                sep = Some((sep_key, sib_pos));
            },
        }
        while history.len() > 0
            invariant
                node.well_formed(),
                forall|i: int| 0 <= i < history@.len() ==> {
                    &&& (#[trigger] history@[i]).0.wf()
                    &&& history@[i].0.kind == NodeKind::Branch
                    &&& history@[i].1 < history@[i].0.keys@.len()
                },
                old(log).view_seq().is_prefix_of(log.view_seq()),
                *self == *old(self),
                self.wf(),
                node.keys@.len() >= 1,
                was_empty == (old(self).root_position is None),
                was_empty ==> history@.len() == 0 && sep is None && node.kind
                    == NodeKind::Leaf && upsert_post(leaf_pre, key@, value, node, None),
                hist_empty ==> history@.len() == 0,
                hist_empty && sep is None ==> node.kind == NodeKind::Leaf && upsert_post(
                    leaf_pre,
                    key@,
                    value,
                    node,
                    None,
                ),
                hist_empty && sep is Some ==> !has_key(leaf_pre.keys_view(), key@)
                    && leaf_pre.keys_view().len() + 1 == leaf_pre.spec_max(),
            decreases history@.len(),
        {
            let node_bytes = node.to_bytes();
            let node_pos = log.end_offset();
            let ghost pre = log.view_seq();
            log.append(node_record_key(), node_bytes);
            proof {
                lemma_prefix_push(old(log).view_seq(), pre, log.view_seq().last());
            }
            let (mut parent, ci) = match history.pop() {
                Some(p) => p,
                None => {
                    proof {
                        assert(false);
                    }
                    return Err(TreeError::Decode);
                },
            };
            // replace the stale separator for the child with the
            // child's current first key, pointing at the fresh copy
            parent.remove_entry(ci);
            let ghost parent_pre = parent;
            let node_first = clone_key(&node.keys[0]);
            let repoint = parent.insert(&node_first, node_pos);
            proof {
                assert(repoint is None);
                if crate::node::has_key(parent_pre.keys_view(), node_first@) {
                    let w = choose|w: int| 0 <= w < parent_pre.keys_view().len()
                        && parent_pre.keys_view()[w] == node_first@;
                }
                assert(parent.keys@.len() >= 1);
            }
            sep = match sep {
                None => None,
                Some((sk, so)) => {
                    let ghost parent_mid = parent;
                    match parent.insert(&sk, so) {
                    None => {
                        proof {
                            if crate::node::has_key(parent_mid.keys_view(), sk@) {
                                let w = choose|w: int| 0 <= w < parent_mid.keys_view().len()
                                    && parent_mid.keys_view()[w] == sk@;
                            }
                            assert(parent.keys@.len() >= 1);
                        }
                        None
                    },
                    Some(psib) => {
                        let psib_bytes = psib.to_bytes();
                        let psib_pos = log.end_offset();
                        let sep_key = clone_key(&psib.keys[0]);
                        let ghost pre = log.view_seq();
                        log.append(node_record_key(), psib_bytes);
                        proof {
                            lemma_prefix_push(old(log).view_seq(), pre, log.view_seq().last());
                        }
                        Some((sep_key, psib_pos))
                    },
                }},
            };
            node = parent;
        }
        match sep {
            None => {
                let node_bytes = node.to_bytes();
                let node_pos = log.end_offset();
                let ghost pre = log.view_seq();
                log.append(node_record_key(), node_bytes);
                proof {
                    lemma_prefix_push(old(log).view_seq(), pre, log.view_seq().last());
                }
                self.root_position = Some(node_pos);
                proof {
                    if hist_empty {
                        lemma_model_wf(node);
                        lemma_codec_round_trip(model_of(node));
                        assert(log.view_seq()[node_pos as int].1 == spec_enc(model_of(node)));
                        assert(spec_find_leaf(log.view_seq(), node_pos as int, key@)
                            == Some(model_of(node)));
                        assert(kv_lookup(model_of(node).keys, model_of(node).vals, key@)
                            == value);
                    }
                }
            },
            Some((sk, so)) => {
                node.is_root = false;
                let node_bytes = node.to_bytes();
                let node_pos = log.end_offset();
                let node_first = clone_key(&node.keys[0]);
                let ghost pre1 = log.view_seq();
                log.append(node_record_key(), node_bytes);
                proof {
                    lemma_prefix_push(old(log).view_seq(), pre1, log.view_seq().last());
                }
                let mut new_root = Node::new(self.order, NodeKind::Branch, true);
                let _ = new_root.insert(&node_first, node_pos);
                let _ = new_root.insert(&sk, so);
                let root_bytes = new_root.to_bytes();
                let root_pos = log.end_offset();
                let ghost pre2 = log.view_seq();
                log.append(node_record_key(), root_bytes);
                proof {
                    lemma_prefix_push(old(log).view_seq(), pre2, log.view_seq().last());
                }
                self.root_position = Some(root_pos);
                proof {
                    match old(self).root_position {
                        None => {},
                        Some(p) => match spec_dec(old(log).view_seq()[p as int].1) {
                            None => {},
                            Some(m) => {
                                if m.kind == NodeKind::Leaf && (has_key(m.keys, key@)
                                    || m.keys.len() + 1 < spec_max_children(
                                    m.order,
                                    m.is_root,
                                    m.kind,
                                )) {
                                    assert(hist_empty);
                                    assert(spec_find_leaf(old(log).view_seq(), p as int, key@)
                                        == Some(m));
                                    assert(m == model_of(leaf_pre));
                                    assert(false);
                                }
                            },
                        },
                    }
                }
            },
        }
        Ok(())
    }

    /// Upserts a live value offset for `key` along the root-to-leaf
    /// path, copy-on-write.
    pub fn insert(&mut self, log: &mut Log, key: &Vec<u8>, value: u64) -> (r: Result<
        (),
        TreeError,
    >)
        requires
            old(self).wf(),
        ensures
            final(self).wf(),
            final(self).order == old(self).order,
            old(log).view_seq().is_prefix_of(final(log).view_seq()),
            r is Ok ==> final(self).root_position is Some,
            r is Err ==> *final(self) == *old(self) && final(log).view_seq() == old(
                log,
            ).view_seq(),
            r is Ok <==> old(self).root_position is None || spec_find_leaf(
                old(log).view_seq(),
                old(self).root_position->0 as int,
                key@,
            ) is Some,
            old(self).root_position is None && r is Ok ==> spec_tree_get(
                final(log).view_seq(),
                final(self).root_position,
                key@,
            ) == Some(Some(value)),
            (old(self).root_position matches Some(p) && spec_dec(
                old(log).view_seq()[p as int].1,
            ) matches Some(m) && m.kind == NodeKind::Leaf && r is Ok && (has_key(
                m.keys,
                key@,
            ) || m.keys.len() + 1 < spec_max_children(m.order, m.is_root, m.kind)))
                ==> spec_tree_get(
                final(log).view_seq(),
                final(self).root_position,
                key@,
            ) == Some(Some(value)),
    {
        self.insert_option_directly(log, key, Some(value))
    }

    /// Tombstones `key`: the leaf keeps the key with an absent value;
    /// deleting a key never inserted is accepted and never an error
    /// beyond what reading the path can raise.
    pub fn delete(&mut self, log: &mut Log, key: &Vec<u8>) -> (r: Result<(), TreeError>)
        requires
            old(self).wf(),
        ensures
            final(self).wf(),
            final(self).order == old(self).order,
            old(log).view_seq().is_prefix_of(final(log).view_seq()),
            r is Ok ==> final(self).root_position is Some,
            r is Err ==> *final(self) == *old(self) && final(log).view_seq() == old(
                log,
            ).view_seq(),
            r is Ok <==> old(self).root_position is None || spec_find_leaf(
                old(log).view_seq(),
                old(self).root_position->0 as int,
                key@,
            ) is Some,
            old(self).root_position is None && r is Ok ==> spec_tree_get(
                final(log).view_seq(),
                final(self).root_position,
                key@,
            ) == Some(None::<u64>),
            (old(self).root_position matches Some(p) && spec_dec(
                old(log).view_seq()[p as int].1,
            ) matches Some(m) && m.kind == NodeKind::Leaf && r is Ok && (has_key(
                m.keys,
                key@,
            ) || m.keys.len() + 1 < spec_max_children(m.order, m.is_root, m.kind)))
                ==> spec_tree_get(
                final(log).view_seq(),
                final(self).root_position,
                key@,
            ) == Some(None::<u64>),
    {
        self.insert_option_directly(log, key, None)
    }
}

pub proof fn lemma_prefix_refl(s: Seq<(Seq<u8>, Seq<u8>)>)
    ensures
        s.is_prefix_of(s),
{
    assert(s =~= s.subrange(0, s.len() as int));
}

/// Appending on the right keeps every earlier record in place.
pub proof fn lemma_prefix_push(a: Seq<(Seq<u8>, Seq<u8>)>, b: Seq<(Seq<u8>, Seq<u8>)>, x: (
    Seq<u8>,
    Seq<u8>,
))
    requires
        a.is_prefix_of(b),
    ensures
        a.is_prefix_of(b.push(x)),
{
    assert(a =~= b.push(x).subrange(0, a.len() as int));
}

} // verus!
