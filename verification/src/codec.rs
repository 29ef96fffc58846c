use vstd::prelude::*;

use crate::keys::{lex_lt, key_lt, lemma_lex_lt_trans};
use crate::node::{Node, NodeKind, sorted_strict, spec_max_children};

verus! {

/// The bytes do not hold a well-formed page.
#[derive(Clone, Copy, PartialEq, Eq, Structural, Debug)]
pub struct DecodeError;

/// The mathematical content of a page, as the binary form carries it.
pub ghost struct NodeModel {
    pub keys: Seq<Seq<u8>>,
    pub vals: Seq<Option<u64>>,
    pub order: int,
    pub is_root: bool,
    pub kind: NodeKind,
}

impl NodeModel {
    pub open spec fn wf(self) -> bool {
        &&& 2 < self.order <= usize::MAX
        &&& self.keys.len() == self.vals.len()
        &&& self.keys.len() <= usize::MAX
        &&& sorted_strict(self.keys)
        &&& self.keys.len() < spec_max_children(self.order, self.is_root, self.kind)
        &&& forall|i: int| 0 <= i < self.keys.len() ==> #[trigger] self.keys[i].len()
            <= usize::MAX
    }
}

pub open spec fn model_of(n: Node) -> NodeModel {
    NodeModel {
        keys: n.keys_view(),
        vals: n.vals_view(),
        order: n.order as int,
        is_root: n.is_root,
        kind: n.kind,
    }
}

pub open spec fn byte_keys_view(ks: Seq<Vec<u8>>) -> Seq<Seq<u8>> {
    ks.map_values(|k: Vec<u8>| k@)
}

/// The number a little-endian byte string denotes.
pub open spec fn u64_of_le(s: Seq<u8>) -> nat
    decreases s.len(),
{
    if s.len() == 0 {
        0
    } else {
        s[0] as nat + 256 * u64_of_le(s.drop_first())
    }
}

/// `n` little-endian bytes of `x`.
pub open spec fn le_bytes_of(x: nat, n: nat) -> Seq<u8>
    decreases n,
{
    if n == 0 {
        Seq::empty()
    } else {
        seq![(x % 256) as u8] + le_bytes_of(x / 256, (n - 1) as nat)
    }
}

pub open spec fn pow256(n: nat) -> nat
    decreases n,
{
    if n == 0 {
        1
    } else {
        256 * pow256((n - 1) as nat)
    }
}

pub proof fn lemma_pow256_8()
    ensures
        pow256(8) == 0x1_0000_0000_0000_0000,
{
    reveal_with_fuel(pow256, 9);
}

pub proof fn lemma_le_bytes_len(x: nat, n: nat)
    ensures
        le_bytes_of(x, n).len() == n,
    decreases n,
{
    if n > 0 {
        lemma_le_bytes_len(x / 256, (n - 1) as nat);
    }
}

pub proof fn lemma_u64_of_le_bound(s: Seq<u8>)
    ensures
        u64_of_le(s) < pow256(s.len() as nat),
    decreases s.len(),
{
    if s.len() == 0 {
    } else {
        lemma_u64_of_le_bound(s.drop_first());
        let p = pow256((s.len() - 1) as nat);
        assert(u64_of_le(s.drop_first()) <= p - 1);
        assert(256 * u64_of_le(s.drop_first()) <= 256 * (p - 1)) by (nonlinear_arith)
            requires
                u64_of_le(s.drop_first()) <= p - 1,
        ;
    }
}

/// Reading back the little-endian bytes of `x` yields `x`.
pub proof fn lemma_le_round_trip(x: nat, n: nat)
    requires
        x < pow256(n),
    ensures
        u64_of_le(le_bytes_of(x, n)) == x,
    decreases n,
{
    if n == 0 {
    } else {
        let s = le_bytes_of(x, n);
        assert(s.drop_first() =~= le_bytes_of(x / 256, (n - 1) as nat));
        assert(x / 256 < pow256((n - 1) as nat)) by (nonlinear_arith)
            requires
                x < pow256(n),
                pow256(n) == 256 * pow256((n - 1) as nat),
        ;
        lemma_le_round_trip(x / 256, (n - 1) as nat);
    }
}

/// Reads the eight-byte little-endian number at `pos`.
fn read_u64_le(b: &Vec<u8>, pos: usize) -> (r: u64)
    requires
        pos + 8 <= b.len(),
    ensures
        r as nat == u64_of_le(b@.subrange(pos as int, pos as int + 8)),
{
    proof {
        lemma_pow256_8();
    }
    let mut r: u64 = 0;
    let mut i: usize = 8;
    while i > 0
        invariant
            i <= 8,
            pos + 8 <= b.len(),
            r as nat == u64_of_le(b@.subrange(pos + i, pos as int + 8)),
            pow256(8) == 0x1_0000_0000_0000_0000,
        decreases i,
    {
        i = i - 1;
        let byte = b[pos + i];
        proof {
            let tail = b@.subrange(pos + i + 1, pos as int + 8);
            let whole = b@.subrange(pos + i, pos as int + 8);
            assert(whole.drop_first() =~= tail);
            assert(whole[0] == b@[pos + i]);
            lemma_u64_of_le_bound(tail);
            assert(pow256((7 - i) as nat) <= pow256(8)) by {
                lemma_pow256_mono((7 - i) as nat, 8);
            }
            assert(256 * u64_of_le(tail) <= 256 * (pow256((7 - i) as nat) - 1))
                by (nonlinear_arith)
                requires
                    u64_of_le(tail) <= pow256((7 - i) as nat) - 1,
            ;
            assert(256 * pow256((7 - i) as nat) == pow256((8 - i) as nat));
            assert(pow256((8 - i) as nat) <= pow256(8)) by {
                lemma_pow256_mono((8 - i) as nat, 8);
            }
        }
        r = r * 256 + (byte as u64);
    }
    proof {
        assert(b@.subrange(pos as int, pos as int + 8) =~= b@.subrange(
            pos + 0,
            pos as int + 8,
        ));
    }
    r
}

pub proof fn lemma_pow256_mono(a: nat, b: nat)
    requires
        a <= b,
    ensures
        pow256(a) <= pow256(b),
    decreases b,
{
    if a < b {
        lemma_pow256_mono(a, (b - 1) as nat);
        assert(pow256((b - 1) as nat) <= 256 * pow256((b - 1) as nat)) by (nonlinear_arith)
            requires
                pow256((b - 1) as nat) >= 0,
        ;
    }
}

/// Appends the eight little-endian bytes of `x`.
fn push_u64_le(out: &mut Vec<u8>, x: u64)
    ensures
        final(out)@ == old(out)@ + le_bytes_of(x as nat, 8),
{
    let mut v: u64 = x;
    let mut i: usize = 0;
    proof {
        assert(out@ + le_bytes_of(x as nat, 8) =~= old(out)@ + le_bytes_of(x as nat, 8));
    }
    while i < 8
        invariant
            i <= 8,
            out@ + le_bytes_of(v as nat, (8 - i) as nat) == old(out)@ + le_bytes_of(
                x as nat,
                8,
            ),
        decreases 8 - i,
    {
        let ghost out0 = out@;
        let ghost v0 = v as nat;
        out.push((v % 256) as u8);
        v = v / 256;
        proof {
            assert(le_bytes_of(v0, (8 - i) as nat) =~= seq![(v0 % 256) as u8] + le_bytes_of(
                v0 / 256,
                (7 - i) as nat,
            ));
            assert(out@ + le_bytes_of(v as nat, (7 - i) as nat) =~= out0 + le_bytes_of(
                v0,
                (8 - i) as nat,
            ));
        }
        i = i + 1;
    }
    proof {
        assert(out@ + le_bytes_of(v as nat, 0) =~= out@);
    }
}

/// Appends a byte string whole.
fn push_bytes(out: &mut Vec<u8>, k: &Vec<u8>)
    ensures
        final(out)@ == old(out)@ + k@,
{
    let mut i: usize = 0;
    while i < k.len()
        invariant
            i <= k.len(),
            out@ == old(out)@ + k@.subrange(0, i as int),
        decreases k@.len() - i,
    {
        proof {
            assert(out@ =~= old(out)@ + k@.subrange(0, i as int));
        }
        out.push(k[i]);
        proof {
            assert(out@ =~= old(out)@ + k@.subrange(0, i + 1));
        }
        i = i + 1;
    }
    proof {
        assert(old(out)@ + k@.subrange(0, k@.len() as int) =~= old(out)@ + k@);
    }
}

pub open spec fn kind_byte(k: NodeKind) -> u8 {
    if k == NodeKind::Leaf {
        0
    } else {
        1
    }
}

pub open spec fn bool_byte(b: bool) -> u8 {
    if b {
        1
    } else {
        0
    }
}

pub open spec fn enc_val(v: Option<u64>) -> Seq<u8> {
    match v {
        None => seq![0u8] + le_bytes_of(0, 8),
        Some(x) => seq![1u8] + le_bytes_of(x as nat, 8),
    }
}

/// One entry: key length, key bytes, value tag, value bytes.
pub open spec fn enc_entry(k: Seq<u8>, v: Option<u64>) -> Seq<u8> {
    le_bytes_of(k.len() as nat, 8) + k + enc_val(v)
}

pub open spec fn enc_entries(ks: Seq<Seq<u8>>, vs: Seq<Option<u64>>) -> Seq<u8>
    decreases ks.len(),
{
    if ks.len() == 0 {
        Seq::empty()
    } else {
        enc_entry(ks[0], vs[0]) + enc_entries(ks.drop_first(), vs.drop_first())
    }
}

/// The fixed, self-describing binary form of a page: kind byte, root
/// byte, order, entry count, then the entries.
pub open spec fn spec_enc(m: NodeModel) -> Seq<u8> {
    seq![kind_byte(m.kind), bool_byte(m.is_root)] + le_bytes_of(m.order as nat, 8)
        + le_bytes_of(m.keys.len() as nat, 8) + enc_entries(m.keys, m.vals)
}

pub open spec fn dec_entries(b: Seq<u8>, pos: int, n: nat) -> Option<
    (Seq<Seq<u8>>, Seq<Option<u64>>, int),
>
    decreases n,
{
    if n == 0 {
        Some((Seq::empty(), Seq::empty(), pos))
    } else if pos + 8 > b.len() {
        None
    } else {
        let klen = u64_of_le(b.subrange(pos, pos + 8)) as int;
        if pos + 8 + klen + 9 > b.len() {
            None
        } else {
            let k = b.subrange(pos + 8, pos + 8 + klen);
            let tag = b[pos + 8 + klen];
            if tag != 0 && tag != 1 {
                None
            } else {
                let v: Option<u64> = if tag == 0 {
                    None
                } else {
                    Some(u64_of_le(b.subrange(pos + 8 + klen + 1, pos + 8 + klen + 9)) as u64)
                };
                match dec_entries(b, pos + 8 + klen + 9, (n - 1) as nat) {
                    None => None,
                    Some((ks, vs, end)) => Some((seq![k] + ks, seq![v] + vs, end)),
                }
            }
        }
    }
}

/// The total meaning of the binary form: `Some` exactly on the byte
/// strings that decode to a well-formed page.
pub open spec fn spec_dec(b: Seq<u8>) -> Option<NodeModel> {
    if b.len() < 18 {
        None
    } else {
        let kindb = b[0];
        let rootb = b[1];
        let order = u64_of_le(b.subrange(2, 10)) as int;
        let n = u64_of_le(b.subrange(10, 18)) as nat;
        if kindb != 0 && kindb != 1 {
            None
        } else if rootb != 0 && rootb != 1 {
            None
        } else if order <= 2 || order > usize::MAX {
            None
        } else if n > b.len() {
            None
        } else {
            let kind = if kindb == 0 {
                NodeKind::Leaf
            } else {
                NodeKind::Branch
            };
            let is_root = rootb == 1;
            match dec_entries(b, 18, n) {
                None => None,
                Some((ks, vs, end)) => {
                    if end != b.len() {
                        None
                    } else if !sorted_strict(ks) {
                        None
                    } else if ks.len() >= spec_max_children(order, is_root, kind) {
                        None
                    } else {
                        Some(NodeModel { keys: ks, vals: vs, order, is_root, kind })
                    }
                },
            }
        }
    }
}

/// Parses `n` entries starting at `pos`, mirroring `dec_entries`.
fn parse_entries(b: &Vec<u8>, pos: usize, n: usize) -> (r: Result<
    (Vec<Vec<u8>>, Vec<Option<u64>>, usize),
    DecodeError,
>)
    requires
        pos <= b.len(),
    ensures
        match r {
            Ok(t) => dec_entries(b@, pos as int, n as nat) == Some(
                (byte_keys_view(t.0@), t.1@, t.2 as int),
            ) && t.0@.len() == n && t.1@.len() == n && t.2 <= b.len(),
            Err(_) => dec_entries(b@, pos as int, n as nat) is None,
        },
    decreases n,
{
    if n == 0 {
        let ks: Vec<Vec<u8>> = Vec::new();
        let vs: Vec<Option<u64>> = Vec::new();
        assert(byte_keys_view(ks@) =~= Seq::<Seq<u8>>::empty());
        return Ok((ks, vs, pos));
    }
    if b.len() - pos < 8 {
        return Err(DecodeError);
    }
    let klen64 = read_u64_le(b, pos);
    let rem = b.len() - (pos + 8);
    if rem < 9 || klen64 > (rem - 9) as u64 {
        return Err(DecodeError);
    }
    let klen = klen64 as usize;
    let mut key: Vec<u8> = Vec::new();
    let mut i: usize = 0;
    while i < klen
        invariant
            i <= klen,
            pos + 8 + klen <= b.len(),
            key@ == b@.subrange(pos + 8, pos + 8 + i),
        decreases klen - i,
    {
        key.push(b[pos + 8 + i]);
        assert(key@ =~= b@.subrange(pos + 8, pos + 8 + i + 1));
        i = i + 1;
    }
    let tagpos = pos + 8 + klen;
    let tag = b[tagpos];
    if tag != 0 && tag != 1 {
        return Err(DecodeError);
    }
    let v: Option<u64> = if tag == 0 {
        let _skip = read_u64_le(b, tagpos + 1);
        None
    } else {
        proof {
            lemma_u64_of_le_bound(b@.subrange(tagpos + 1, tagpos + 9));
            lemma_pow256_8();
        }
        Some(read_u64_le(b, tagpos + 1))
    };
    match parse_entries(b, tagpos + 9, n - 1) {
        Err(e) => Err(e),
        Ok((mut ks, mut vs, end)) => {
            let ghost ks0 = ks@;
            ks.insert(0, key);
            vs.insert(0, v);
            proof {
                assert(byte_keys_view(ks@) =~= seq![key@] + byte_keys_view(ks0));
                assert(vs@ =~= seq![v] + vs@.drop_first());
            }
            Ok((ks, vs, end))
        },
    }
}

/// True when each key strictly precedes the next.
fn keys_sorted_check(ks: &Vec<Vec<u8>>) -> (r: bool)
    ensures
        r == sorted_strict(byte_keys_view(ks@)),
{
    let ghost bk = byte_keys_view(ks@);
    if ks.len() < 2 {
        return true;
    }
    let mut i: usize = 0;
    while i + 1 < ks.len()
        invariant
            i + 1 <= ks.len(),
            bk == byte_keys_view(ks@),
            forall|j: int| 0 <= j < i ==> lex_lt(#[trigger] bk[j], bk[j + 1]),
        decreases ks@.len() - i,
    {
        proof {
            assert(bk[i as int] == ks@[i as int]@);
            assert(bk[i as int + 1] == ks@[i as int + 1]@);
        }
        if !key_lt(&ks[i], &ks[i + 1]) {
            proof {
                assert(!lex_lt(bk[i as int], bk[i as int + 1]));
                if sorted_strict(bk) {
                    assert(lex_lt(bk[i as int], bk[i as int + 1]));
                }
            }
            return false;
        }
        i = i + 1;
    }
    proof {
        assert forall|j: int| 0 <= j < bk.len() - 1 implies lex_lt(#[trigger] bk[j], bk[
            j + 1
        ]) by {}
        lemma_adjacent_sorted(bk);
    }
    true
}

/// Keys each below their successor are sorted overall.
pub proof fn lemma_adjacent_sorted(ks: Seq<Seq<u8>>)
    requires
        forall|j: int| 0 <= j < ks.len() - 1 ==> lex_lt(#[trigger] ks[j], ks[j + 1]),
    ensures
        sorted_strict(ks),
{
    assert forall|i: int, j: int| 0 <= i < j < ks.len() implies lex_lt(ks[i], ks[j]) by {
        lemma_lt_span(ks, i, j);
    }
}

proof fn lemma_lt_span(ks: Seq<Seq<u8>>, i: int, j: int)
    requires
        forall|m: int| 0 <= m < ks.len() - 1 ==> lex_lt(#[trigger] ks[m], ks[m + 1]),
        0 <= i < j < ks.len(),
    ensures
        lex_lt(ks[i], ks[j]),
    decreases j - i,
{
    if j == i + 1 {
    } else {
        lemma_lt_span(ks, i, j - 1);
        lemma_lex_lt_trans(ks[i], ks[j - 1], ks[j]);
    }
}

impl Node {
    /// Serializes the page into its fixed, self-describing binary form.
    #[verifier::rlimit(60)]
    pub fn to_bytes(&self) -> (r: Vec<u8>)
        requires
            self.well_formed(),
        ensures
            r@ == spec_enc(model_of(*self)),
    {
        let ghost m = model_of(*self);
        let mut out: Vec<u8> = Vec::new();
        out.push(if self.kind == NodeKind::Leaf { 0 } else { 1 });
        out.push(if self.is_root { 1 } else { 0 });
        push_u64_le(&mut out, self.order as u64);
        push_u64_le(&mut out, self.keys.len() as u64);
        let ghost header = out@;
        proof {
            assert(header =~= seq![kind_byte(m.kind), bool_byte(m.is_root)] + le_bytes_of(
                m.order as nat,
                8,
            ) + le_bytes_of(m.keys.len() as nat, 8));
            assert(m.keys.subrange(0, 0) =~= Seq::<Seq<u8>>::empty());
            assert(m.vals.subrange(0, 0) =~= Seq::<Option<u64>>::empty());
        }
        let mut i: usize = 0;
        while i < self.keys.len()
            invariant
                i <= self.keys@.len(),
                self.well_formed(),
                m == model_of(*self),
                header == seq![kind_byte(m.kind), bool_byte(m.is_root)] + le_bytes_of(
                    m.order as nat,
                    8,
                ) + le_bytes_of(m.keys.len() as nat, 8),
                out@ == header + enc_entries(
                    m.keys.subrange(0, i as int),
                    m.vals.subrange(0, i as int),
                ),
            decreases self.keys@.len() - i,
        {
            push_u64_le(&mut out, self.keys[i].len() as u64);
            push_bytes(&mut out, &self.keys[i]);
            match self.values[i] {
                None => {
                    out.push(0);
                    push_u64_le(&mut out, 0);
                },
                Some(x) => {
                    out.push(1);
                    push_u64_le(&mut out, x);
                },
            }
            proof {
                let ks_i = m.keys.subrange(0, i as int);
                let vs_i = m.vals.subrange(0, i as int);
                lemma_enc_entries_push(ks_i, vs_i, m.keys[i as int], m.vals[i as int]);
                assert(m.keys.subrange(0, i + 1) =~= ks_i.push(m.keys[i as int]));
                assert(m.vals.subrange(0, i + 1) =~= vs_i.push(m.vals[i as int]));
                assert(out@ =~= header + enc_entries(
                    m.keys.subrange(0, i + 1),
                    m.vals.subrange(0, i + 1),
                ));
            }
            i = i + 1;
        }
        proof {
            assert(m.keys.subrange(0, m.keys.len() as int) =~= m.keys);
            assert(m.vals.subrange(0, m.vals.len() as int) =~= m.vals);
            assert(out@ =~= spec_enc(m));
        }
        out
    }

    /// Rebuilds a page from its binary form; malformed bytes — too
    /// short, an unknown kind or tag, a bad order, trailing garbage,
    /// or keys out of order — fail with a decode error, never
    /// silently.
    pub fn from_bytes(bytes: &Vec<u8>) -> (r: Result<Node, DecodeError>)
        ensures
            match r {
                Ok(n) => spec_dec(bytes@) == Some(model_of(n)) && n.wf(),
                Err(_) => spec_dec(bytes@) is None,
            },
    {
        if bytes.len() < 18 {
            return Err(DecodeError);
        }
        let kindb = bytes[0];
        let rootb = bytes[1];
        proof {
            lemma_u64_of_le_bound(bytes@.subrange(2, 10));
            lemma_u64_of_le_bound(bytes@.subrange(10, 18));
            lemma_pow256_8();
        }
        let order64 = read_u64_le(bytes, 2);
        let n64 = read_u64_le(bytes, 10);
        if kindb > 1 || rootb > 1 {
            return Err(DecodeError);
        }
        if order64 <= 2 || order64 > usize::MAX as u64 {
            return Err(DecodeError);
        }
        if n64 > bytes.len() as u64 {
            return Err(DecodeError);
        }
        let order = order64 as usize;
        let n = n64 as usize;
        let kind = if kindb == 0 {
            NodeKind::Leaf
        } else {
            NodeKind::Branch
        };
        let is_root = rootb == 1;
        match parse_entries(bytes, 18, n) {
            Err(e) => Err(e),
            Ok((ks, vs, end)) => {
                if end != bytes.len() {
                    return Err(DecodeError);
                }
                if !keys_sorted_check(&ks) {
                    return Err(DecodeError);
                }
                let node = Node { keys: ks, values: vs, order, is_root, kind };
                if node.len() >= node.max_children() {
                    return Err(DecodeError);
                }
                proof {
                    assert(node.keys_view() =~= byte_keys_view(node.keys@));
                }
                Ok(node)
            },
        }
    }
}

/// Appending one entry extends the encoding by that entry's bytes.
pub proof fn lemma_enc_entries_push(
    ks: Seq<Seq<u8>>,
    vs: Seq<Option<u64>>,
    k: Seq<u8>,
    v: Option<u64>,
)
    requires
        ks.len() == vs.len(),
    ensures
        enc_entries(ks.push(k), vs.push(v)) == enc_entries(ks, vs) + enc_entry(k, v),
    decreases ks.len(),
{
    if ks.len() == 0 {
        assert(ks.push(k)[0] == k);
        assert(vs.push(v)[0] == v);
        assert(ks.push(k).drop_first() =~= Seq::<Seq<u8>>::empty());
        assert(vs.push(v).drop_first() =~= Seq::<Option<u64>>::empty());
        assert(enc_entries(Seq::<Seq<u8>>::empty(), Seq::<Option<u64>>::empty())
            == Seq::<u8>::empty());
        assert(enc_entries(ks.push(k), vs.push(v)) == enc_entry(k, v) + Seq::<u8>::empty());
        assert(enc_entry(k, v) + Seq::<u8>::empty() =~= enc_entry(k, v));
        assert(enc_entries(ks, vs) + enc_entry(k, v) =~= enc_entry(k, v));
    } else {
        assert(ks.push(k).drop_first() =~= ks.drop_first().push(k));
        assert(vs.push(v).drop_first() =~= vs.drop_first().push(v));
        lemma_enc_entries_push(ks.drop_first(), vs.drop_first(), k, v);
        assert(ks.push(k)[0] == ks[0]);
        assert(vs.push(v)[0] == vs[0]);
        assert(enc_entries(ks.push(k), vs.push(v)) == enc_entry(ks[0], vs[0]) + enc_entries(
            ks.drop_first().push(k),
            vs.drop_first().push(v),
        ));
        assert(enc_entries(ks, vs) == enc_entry(ks[0], vs[0]) + enc_entries(
            ks.drop_first(),
            vs.drop_first(),
        ));
        assert(enc_entry(ks[0], vs[0]) + (enc_entries(ks.drop_first(), vs.drop_first())
            + enc_entry(k, v)) =~= (enc_entry(ks[0], vs[0]) + enc_entries(
            ks.drop_first(),
            vs.drop_first(),
        )) + enc_entry(k, v));
    }
}

pub proof fn lemma_enc_entries_len(ks: Seq<Seq<u8>>, vs: Seq<Option<u64>>)
    requires
        ks.len() == vs.len(),
    ensures
        enc_entries(ks, vs).len() >= 17 * ks.len(),
    decreases ks.len(),
{
    if ks.len() > 0 {
        lemma_le_bytes_len(ks[0].len() as nat, 8);
        match vs[0] {
            None => lemma_le_bytes_len(0, 8),
            Some(x) => lemma_le_bytes_len(x as nat, 8),
        }
        lemma_enc_entries_len(ks.drop_first(), vs.drop_first());
    }
}

pub open spec fn entry_at(entry: Seq<u8>, rest: Seq<u8>, i: int) -> u8 {
    if i < entry.len() {
        entry[i]
    } else {
        rest[i - entry.len()]
    }
}

/// Decoding entry bytes produced by the encoder recovers the entries.
pub proof fn lemma_dec_entries_of_enc(
    b: Seq<u8>,
    pos: int,
    ks: Seq<Seq<u8>>,
    vs: Seq<Option<u64>>,
)
    requires
        ks.len() == vs.len(),
        0 <= pos <= b.len(),
        b.subrange(pos, b.len() as int) == enc_entries(ks, vs),
        forall|i: int| 0 <= i < ks.len() ==> #[trigger] ks[i].len() <= usize::MAX,
    ensures
        dec_entries(b, pos, ks.len() as nat) == Some((ks, vs, b.len() as int)),
    decreases ks.len(),
{
    lemma_pow256_8();
    if ks.len() == 0 {
        assert(b.len() == pos);
        assert(ks =~= Seq::<Seq<u8>>::empty());
        assert(vs =~= Seq::<Option<u64>>::empty());
    } else {
        let k0 = ks[0];
        let v0 = vs[0];
        let entry = enc_entry(k0, v0);
        let rest = enc_entries(ks.drop_first(), vs.drop_first());
        let suffix = b.subrange(pos, b.len() as int);
        assert(suffix == entry + rest);
        lemma_le_bytes_len(k0.len() as nat, 8);
        match v0 {
            None => lemma_le_bytes_len(0, 8),
            Some(x) => lemma_le_bytes_len(x as nat, 8),
        }
        let klen = k0.len() as int;
        assert(enc_val(v0).len() == 9);
        assert(entry.len() == 17 + klen);
        assert(b.len() - pos == entry.len() + rest.len());
        assert(b.subrange(pos, pos + 8) =~= le_bytes_of(k0.len() as nat, 8));
        lemma_le_round_trip(k0.len() as nat, 8);
        assert(u64_of_le(b.subrange(pos, pos + 8)) == k0.len() as nat);
        assert(pos + 8 + klen + 9 <= b.len());
        let lk = le_bytes_of(k0.len() as nat, 8) + k0;
        assert(lk.len() == 8 + klen);
        assert forall|i: int| 0 <= i < b.len() - pos implies b[pos + i] == entry_at(
            entry,
            rest,
            i,
        ) by {
            assert(suffix[i] == b[pos + i]);
            assert(suffix[i] == (entry + rest)[i]);
        }
        assert forall|i: int| 0 <= i < klen implies b.subrange(pos + 8, pos + 8 + klen)[i]
            == k0[i] by {
            assert(b[pos + 8 + i] == entry_at(entry, rest, 8 + i));
            assert(entry[8 + i] == lk[8 + i]);
            assert(lk[8 + i] == k0[i]);
        }
        assert(b.subrange(pos + 8, pos + 8 + klen) =~= k0);
        assert(b[pos + 8 + klen] == entry_at(entry, rest, 8 + klen));
        assert(entry[8 + klen] == enc_val(v0)[0]);
        assert(b[pos + 8 + klen] == enc_val(v0)[0]);
        match v0 {
            None => {
                assert(enc_val(v0)[0] == seq![0u8][0]);
                assert(enc_val(v0)[0] == 0);
            },
            Some(x) => {
                assert(enc_val(v0)[0] == seq![1u8][0]);
                assert(enc_val(v0)[0] == 1);
                assert forall|i: int| 0 <= i < 8 implies b.subrange(
                    pos + 8 + klen + 1,
                    pos + 8 + klen + 9,
                )[i] == le_bytes_of(x as nat, 8)[i] by {
                    assert(b[pos + 9 + klen + i] == entry_at(entry, rest, 9 + klen + i));
                    assert(entry[9 + klen + i] == enc_val(v0)[1 + i]);
                    assert(enc_val(v0)[1 + i] == le_bytes_of(x as nat, 8)[i]);
                }
                assert(b.subrange(pos + 8 + klen + 1, pos + 8 + klen + 9) =~= le_bytes_of(
                    x as nat,
                    8,
                ));
                lemma_le_round_trip(x as nat, 8);
            },
        }
        assert forall|i: int| 0 <= i < rest.len() implies b.subrange(
            pos + 17 + klen,
            b.len() as int,
        )[i] == rest[i] by {
            assert(b[pos + 17 + klen + i] == entry_at(entry, rest, 17 + klen + i));
        }
        assert(b.subrange(pos + 17 + klen, b.len() as int) =~= rest);
        assert forall|i: int| 0 <= i < ks.drop_first().len()
            implies #[trigger] ks.drop_first()[i].len() <= usize::MAX by {
            assert(ks.drop_first()[i] == ks[i + 1]);
        }
        lemma_dec_entries_of_enc(b, pos + 17 + klen, ks.drop_first(), vs.drop_first());
        assert(seq![k0] + ks.drop_first() =~= ks);
        assert(seq![v0] + vs.drop_first() =~= vs);
    }
}

/// Round trip: decoding an encoded page yields the page unchanged,
/// with the same sorted keys and index-aligned values.
pub proof fn lemma_codec_round_trip(m: NodeModel)
    requires
        m.wf(),
    ensures
        spec_dec(spec_enc(m)) == Some(m),
{
    lemma_pow256_8();
    let b = spec_enc(m);
    lemma_le_bytes_len(m.order as nat, 8);
    lemma_le_bytes_len(m.keys.len() as nat, 8);
    lemma_enc_entries_len(m.keys, m.vals);
    assert(b.len() == 18 + enc_entries(m.keys, m.vals).len());
    assert(b[0] == kind_byte(m.kind));
    assert(b[1] == bool_byte(m.is_root));
    assert(b.subrange(2, 10) =~= le_bytes_of(m.order as nat, 8));
    assert(b.subrange(10, 18) =~= le_bytes_of(m.keys.len() as nat, 8));
    lemma_le_round_trip(m.order as nat, 8);
    lemma_le_round_trip(m.keys.len() as nat, 8);
    assert(m.keys.len() <= b.len());
    assert(b.subrange(18, b.len() as int) =~= enc_entries(m.keys, m.vals));
    lemma_dec_entries_of_enc(b, 18, m.keys, m.vals);
    assert(spec_dec(b) == Some(m));
}

/// The model of a well-formed page meets the binary form's own
/// well-formedness, so the round trip above applies to it.
pub proof fn lemma_model_wf(n: Node)
    requires
        n.wf(),
    ensures
        model_of(n).wf(),
{
    broadcast use vstd::std_specs::vec::axiom_spec_len;

    assert forall|i: int| 0 <= i < model_of(n).keys.len()
        implies #[trigger] model_of(n).keys[i].len() <= usize::MAX by {
        assert(model_of(n).keys[i] == n.keys@[i]@);
        vstd::std_specs::vec::axiom_spec_len(&n.keys@[i]);
    }
    vstd::std_specs::vec::axiom_spec_len(&n.keys);
}

} // verus!
