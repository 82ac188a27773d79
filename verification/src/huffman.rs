//! Canonical Huffman code construction and codec: a frequency registrar
//! feeding a deterministic min-merge, an arena-backed tree, a per-symbol
//! code table, and encode/decode sessions.

use vstd::prelude::*;

verus! {

use bitvec::vec::BitVec;

/// Errors of the Huffman components.
#[derive(Clone, Copy, PartialEq, Eq, Debug)]
pub enum HfError {
    /// More symbols pushed than the symbol-id space supports.
    CapacityExhausted,
    /// An input symbol id has no entry in the code table.
    SymbolOutOfRange,
    /// The input bit sequence ended in the middle of a codeword.
    TruncatedInput,
}

/// A Huffman codeword: a bit sequence backed by a bitvec `BitVec`. The
/// vector is opaque to the verifier and reached only through the trusted
/// wrappers below, whose contracts speak of `bv_bits`.
#[verifier::external_body]
pub struct Code {
    bits: BitVec,
}

/// The bits a `Code` holds, in order.
pub uninterp spec fn bv_bits(b: Code) -> Seq<bool>;

/// Relies on bitvec's `BitVec::new`: a new bit-vector is empty.
#[verifier::external_body]
fn bv_new() -> (r: Code)
    ensures
        bv_bits(r) == Seq::<bool>::empty(),
{
    Code { bits: BitVec::new() }
}

/// Relies on bitvec's `BitVec::push`: appends one bit at the end. Its
/// capacity limit (`usize::MAX >> 3` bits at the least) is far above the
/// lengths admitted here.
#[verifier::external_body]
fn bv_push(b: &mut Code, bit: bool)
    requires
        bv_bits(*old(b)).len() < 0x0200_0000,
    ensures
        bv_bits(*final(b)) == bv_bits(*old(b)).push(bit),
{
    b.bits.push(bit)
}

/// Relies on bitvec's `Clone` for `BitVec`: an equal bit-vector.
#[verifier::external_body]
fn bv_clone(b: &Code) -> (r: Code)
    ensures
        bv_bits(r) == bv_bits(*b),
{
    Code { bits: b.bits.clone() }
}

/// Relies on bitvec's `BitSlice::len`.
#[verifier::external_body]
fn bv_len(b: &Code) -> (r: usize)
    ensures
        r == bv_bits(*b).len(),
{
    b.bits.len()
}

/// Relies on bitvec's `Index<usize>` for `BitSlice`: the bit at position
/// `i`.
#[verifier::external_body]
fn bv_get(b: &Code, i: usize) -> (r: bool)
    requires
        i < bv_bits(*b).len(),
    ensures
        r == bv_bits(*b)[i as int],
{
    b.bits[i]
}

/// The bits of a sequence of codes, concatenated first to last.
pub open spec fn codes_bits(cs: Seq<Code>) -> Seq<bool>
    decreases cs.len(),
{
    if cs.len() == 0 {
        Seq::empty()
    } else {
        bv_bits(cs[0]) + codes_bits(cs.skip(1))
    }
}

proof fn lemma_codes_bits_snoc(cs: Seq<Code>, c: Code)
    ensures
        codes_bits(cs.push(c)) == codes_bits(cs) + bv_bits(c),
    decreases cs.len(),
{
    if cs.len() == 0 {
        assert(cs.push(c)[0] == c);
        assert(cs.push(c).skip(1) =~= Seq::<Code>::empty());
        assert(codes_bits(Seq::<Code>::empty()) == Seq::<bool>::empty());
        assert(codes_bits(cs.push(c)) == bv_bits(c) + Seq::<bool>::empty());
        assert(Seq::<bool>::empty() + bv_bits(c) =~= bv_bits(c));
        assert(bv_bits(c) + Seq::<bool>::empty() =~= bv_bits(c));
    } else {
        assert(cs.push(c)[0] == cs[0]);
        assert(cs.push(c).skip(1) =~= cs.skip(1).push(c));
        lemma_codes_bits_snoc(cs.skip(1), c);
        assert(bv_bits(cs[0]) + (codes_bits(cs.skip(1)) + bv_bits(c)) =~= (bv_bits(cs[0])
            + codes_bits(cs.skip(1))) + bv_bits(c));
    }
}

/// Flattens a run of codes, as the encoder emits them, into one bit
/// stream for the decoder.
pub fn flatten_codes(codes: &Vec<Code>) -> (r: Vec<bool>)
    ensures
        r@ == codes_bits(codes@),
{
    let mut bits: Vec<bool> = Vec::new();
    let mut k: usize = 0;
    proof {
        assert(codes@.take(0) =~= Seq::<Code>::empty());
    }
    while k < codes.len()
        invariant
            k <= codes@.len(),
            bits@ == codes_bits(codes@.take(k as int)),
        decreases codes@.len() - k,
    {
        let c = &codes[k];
        let n = bv_len(c);
        let mut i: usize = 0;
        proof {
            assert(bv_bits(*c).take(0) =~= Seq::<bool>::empty());
            assert(codes_bits(codes@.take(k as int)) + Seq::<bool>::empty() =~= codes_bits(
                codes@.take(k as int),
            ));
        }
        while i < n
            invariant
                i <= n,
                n == bv_bits(*c).len(),
                bv_bits(*c) == bv_bits(codes@[k as int]),
                k < codes@.len(),
                bits@ == codes_bits(codes@.take(k as int)) + bv_bits(*c).take(i as int),
            decreases n - i,
        {
            bits.push(bv_get(c, i));
            proof {
                assert(bv_bits(*c).take(i + 1) =~= bv_bits(*c).take(i as int).push(
                    bv_bits(*c)[i as int],
                ));
                assert(codes_bits(codes@.take(k as int)) + bv_bits(*c).take(i + 1) =~= (codes_bits(
                    codes@.take(k as int),
                ) + bv_bits(*c).take(i as int)).push(bv_bits(*c)[i as int]));
            }
            i = i + 1;
        }
        proof {
            assert(bv_bits(*c).take(n as int) =~= bv_bits(*c));
            lemma_codes_bits_snoc(codes@.take(k as int), codes@[k as int]);
            assert(codes@.take(k + 1) =~= codes@.take(k as int).push(codes@[k as int]));
        }
        k = k + 1;
    }
    proof {
        assert(codes@.take(codes@.len() as int) =~= codes@);
    }
    bits
}

/// A node of the arena: nodes reference each other by arena index only. The
/// parent back-reference is informational and never an ownership edge.
#[derive(Clone, Copy, Debug)]
pub struct HfNode {
    parent: usize,
    kind: HfNodeKind,
}

/// A leaf carries a symbol; an internal node carries the indices of the
/// child reached on a `false` bit and the child reached on a `true` bit.
#[derive(Clone, Copy, Debug)]
enum HfNodeKind {
    Internal { zero: usize, one: usize },
    Leaf { sym: u32 },
}

/// The symbol-id space: ids are 24-bit, so at most this many symbols. The
/// width is capped so that even a fully skewed tree's code lengths stay
/// within the bit-vector wrapper's margin on every platform.
pub const MAX_SYMS: usize = 0x0100_0000;

/// Bound on arena sizes: a tree over `MAX_SYMS` leaves has fewer nodes.
pub const MAX_ARENA: usize = 0x0200_0000;

/// The set of all symbol ids below `lfcnt`.
pub open spec fn all_syms(lfcnt: nat) -> Set<u32> {
    Set::new(|s: u32| (s as nat) < lfcnt)
}

/// Children of internal nodes lie strictly below their parent in the arena:
/// the arena is built children-first.
pub closed spec fn arena_wf(arena: Seq<HfNode>) -> bool {
    forall|i: int|
        0 <= i < arena.len() ==> (#[trigger] arena[i].kind matches HfNodeKind::Internal {
            zero,
            one,
        } ==> 0 <= zero < i && 0 <= one < i)
}

/// The arena as the registrar and the merge leave it: the first `lfcnt`
/// slots are the leaves, in symbol order, and everything above is an
/// internal node with both children strictly below it.
pub closed spec fn arena_layout(arena: Seq<HfNode>, lfcnt: nat) -> bool {
    &&& lfcnt <= arena.len()
    &&& forall|i: int|
        0 <= i < lfcnt ==> ((#[trigger] arena[i].kind) matches HfNodeKind::Leaf { sym } && sym
            == i as u32)
    &&& forall|i: int|
        lfcnt <= i < arena.len() ==> ((#[trigger] arena[i].kind) matches HfNodeKind::Internal {
            zero,
            one,
        } && 0 <= zero < i && 0 <= one < i)
}

proof fn lemma_layout_wf(arena: Seq<HfNode>, lfcnt: nat)
    requires
        arena_layout(arena, lfcnt),
    ensures
        arena_wf(arena),
{
}

/// The code of every symbol under node `i`: empty at a leaf; at an internal
/// node, the children's codes prefixed with the bit that selects the child.
pub closed spec fn smap(arena: Seq<HfNode>, i: int) -> Map<u32, Seq<bool>>
    decreases i,
{
    if i < 0 || i >= arena.len() {
        Map::empty()
    } else {
        match arena[i].kind {
            HfNodeKind::Leaf { sym } => Map::empty().insert(sym, Seq::empty()),
            HfNodeKind::Internal { zero, one } => {
                if zero < i && one < i {
                    smap(arena, zero as int).map_values(|c: Seq<bool>| seq![false] + c)
                        .union_prefer_right(
                        smap(arena, one as int).map_values(|c: Seq<bool>| seq![true] + c),
                    )
                } else {
                    Map::empty()
                }
            },
        }
    }
}

/// The subtree under `i` is a tree proper: no symbol occurs on both sides of
/// an internal node.
pub closed spec fn tree_uniq(arena: Seq<HfNode>, i: int) -> bool
    decreases i,
{
    if i < 0 || i >= arena.len() {
        false
    } else {
        match arena[i].kind {
            HfNodeKind::Leaf { .. } => true,
            HfNodeKind::Internal { zero, one } => {
                &&& zero < i
                &&& one < i
                &&& tree_uniq(arena, zero as int)
                &&& tree_uniq(arena, one as int)
                &&& smap(arena, zero as int).dom().disjoint(smap(arena, one as int).dom())
            },
        }
    }
}

/// The node reached from `i` by following `code`, bit by bit; `None` when a
/// leaf or the arena edge is hit with bits still left.
pub closed spec fn node_reached(arena: Seq<HfNode>, i: int, code: Seq<bool>) -> Option<int>
    decreases code.len(),
{
    if i < 0 || i >= arena.len() {
        None
    } else if code.len() == 0 {
        Some(i)
    } else {
        match arena[i].kind {
            HfNodeKind::Leaf { .. } => None,
            HfNodeKind::Internal { zero, one } => node_reached(
                arena,
                if code[0] {
                    one as int
                } else {
                    zero as int
                },
                code.skip(1),
            ),
        }
    }
}

/// The symbol whose leaf `code` leads to, exactly, from `i`.
pub closed spec fn leaf_reached(arena: Seq<HfNode>, i: int, code: Seq<bool>) -> Option<u32> {
    match node_reached(arena, i, code) {
        Some(j) => match arena[j].kind {
            HfNodeKind::Leaf { sym } => Some(sym),
            HfNodeKind::Internal { .. } => None,
        },
        None => None,
    }
}

/// A decoding step: consume bits from the front of `bits` until a leaf is
/// reached, returning the leaf and the unconsumed rest; `None` when the bits
/// run out mid-descent (or the arena edge is hit).
pub closed spec fn walk_node(arena: Seq<HfNode>, i: int, bits: Seq<bool>) -> Option<(int, Seq<bool>)>
    decreases bits.len(),
{
    if i < 0 || i >= arena.len() {
        None
    } else {
        match arena[i].kind {
            HfNodeKind::Leaf { .. } => Some((i, bits)),
            HfNodeKind::Internal { zero, one } => {
                if bits.len() == 0 {
                    None
                } else {
                    walk_node(
                        arena,
                        if bits[0] {
                            one as int
                        } else {
                            zero as int
                        },
                        bits.skip(1),
                    )
                }
            },
        }
    }
}

/// The symbol at a leaf index.
pub closed spec fn leaf_sym(arena: Seq<HfNode>, i: int) -> u32 {
    match arena[i].kind {
        HfNodeKind::Leaf { sym } => sym,
        HfNodeKind::Internal { .. } => 0,
    }
}

/// One entry of the construction heap: an aggregated frequency and the arena
/// index of the subtree it stands for.
#[derive(Clone, Copy, Debug)]
struct HeapData {
    freq: u32,
    arena: usize,
}

/// The order the merge pops entries in: ascending frequency, ties broken by
/// the smaller arena index, which is insertion order. This makes the whole
/// construction deterministic.
spec fn hd_lt(a: HeapData, b: HeapData) -> bool {
    a.freq < b.freq || (a.freq == b.freq && a.arena < b.arena)
}

/// The index of the minimum entry (the first one, on full ties).
spec fn min_idx(s: Seq<HeapData>) -> int
    decreases s.len(),
{
    if s.len() <= 1 {
        0
    } else {
        let m = min_idx(s.drop_last());
        if hd_lt(s.last(), s[m]) {
            s.len() - 1
        } else {
            m
        }
    }
}

proof fn lemma_min_idx_in_range(s: Seq<HeapData>)
    requires
        s.len() >= 1,
    ensures
        0 <= min_idx(s) < s.len(),
    decreases s.len(),
{
    if s.len() > 1 {
        lemma_min_idx_in_range(s.drop_last());
    }
}

/// The arena after giving node `i` the parent `p` (the kind is untouched).
spec fn set_parent(arena: Seq<HfNode>, i: int, p: usize) -> Seq<HfNode> {
    if 0 <= i < arena.len() {
        arena.update(i, HfNode { parent: p, kind: arena[i].kind })
    } else {
        arena
    }
}

/// The whole merge, as a function of the starting heap and arena: repeatedly
/// take the two lowest entries (in `hd_lt` order), append an internal node
/// over them, record it as their parent, and push one entry back with the
/// saturating-added frequency; the last entry is the root. No entries at all
/// give the sentinel root 0.
spec fn spec_merge(heap: Seq<HeapData>, arena: Seq<HfNode>) -> (int, Seq<HfNode>)
    decreases heap.len(),
{
    if heap.len() == 0 {
        (0, arena)
    } else if heap.len() == 1 {
        (heap[0].arena as int, arena)
    } else {
        proof {
            lemma_min_idx_in_range(heap);
        }
        let i1 = min_idx(heap);
        let left = heap[i1];
        let h1 = heap.remove(i1);
        proof {
            lemma_min_idx_in_range(h1);
        }
        let i2 = min_idx(h1);
        let right = h1[i2];
        let h2 = h1.remove(i2);
        let out = arena.len() as usize;
        let a1 = set_parent(set_parent(arena, left.arena as int, out), right.arena as int, out);
        let a2 = a1.push(
            HfNode { parent: 0, kind: HfNodeKind::Internal { zero: left.arena, one: right.arena } },
        );
        let h3 = h2.push(HeapData { freq: left.freq.saturating_add(right.freq), arena: out });
        spec_merge(h3, a2)
    }
}

/// What holds of the heap and arena throughout the merge: the arena keeps
/// its layout, every heap entry roots a proper subtree, the subtrees'
/// symbol sets are pairwise disjoint, and together they cover every symbol.
spec fn merge_inv(heap: Seq<HeapData>, arena: Seq<HfNode>, lfcnt: nat) -> bool {
    &&& lfcnt <= MAX_SYMS
    &&& arena_layout(arena, lfcnt)
    &&& arena.len() + heap.len() == 2 * lfcnt
    &&& (lfcnt > 0 ==> heap.len() >= 1)
    &&& forall|k: int| 0 <= k < heap.len() ==> (#[trigger] heap[k]).arena < arena.len()
    &&& forall|k: int|
        0 <= k < heap.len() ==> tree_uniq(arena, (#[trigger] heap[k]).arena as int)
    &&& forall|k: int|
        0 <= k < heap.len() ==> (#[trigger] smap(arena, heap[k].arena as int).dom()).subset_of(
            all_syms(lfcnt),
        )
    &&& forall|s: u32|
        #[trigger] all_syms(lfcnt).contains(s) ==> exists|k: int|
            0 <= k < heap.len() && (#[trigger] smap(arena, heap[k].arena as int).dom()).contains(
                s,
            )
    &&& forall|k1: int, k2: int|
        0 <= k1 < heap.len() && 0 <= k2 < heap.len() && k1 != k2 ==> (#[trigger] smap(
            arena,
            heap[k1].arena as int,
        ).dom()).disjoint(#[trigger] smap(arena, heap[k2].arena as int).dom())
}

/// Growing the arena, or changing parent fields only, changes no subtree
/// below the old length.
proof fn lemma_grow_preserves(a1: Seq<HfNode>, a2: Seq<HfNode>, i: int)
    requires
        a1.len() <= a2.len(),
        forall|j: int| 0 <= j < a1.len() ==> (#[trigger] a2[j]).kind == a1[j].kind,
        0 <= i < a1.len(),
    ensures
        smap(a2, i) == smap(a1, i),
        tree_uniq(a2, i) == tree_uniq(a1, i),
    decreases i,
{
    match a1[i].kind {
        HfNodeKind::Leaf { .. } => {},
        HfNodeKind::Internal { zero, one } => {
            if zero < i && one < i {
                lemma_grow_preserves(a1, a2, zero as int);
                lemma_grow_preserves(a1, a2, one as int);
            }
        },
    }
}

/// Every proper subtree holds at least one symbol.
proof fn lemma_smap_nonempty(arena: Seq<HfNode>, i: int)
    requires
        tree_uniq(arena, i),
    ensures
        exists|s: u32| smap(arena, i).dom().contains(s),
    decreases i,
{
    match arena[i].kind {
        HfNodeKind::Leaf { sym } => {
            assert(smap(arena, i).dom().contains(sym));
        },
        HfNodeKind::Internal { zero, one } => {
            lemma_smap_nonempty(arena, zero as int);
            let s = choose|s: u32| smap(arena, zero as int).dom().contains(s);
            assert(smap(arena, i).dom().contains(s));
        },
    }
}

/// One merge step keeps the invariant.
proof fn lemma_merge_step(heap: Seq<HeapData>, arena: Seq<HfNode>, lfcnt: nat)
    requires
        merge_inv(heap, arena, lfcnt),
        heap.len() >= 2,
    ensures
        ({
            let i1 = min_idx(heap);
            let left = heap[i1];
            let h1 = heap.remove(i1);
            let i2 = min_idx(h1);
            let right = h1[i2];
            let h2 = h1.remove(i2);
            let out = arena.len() as usize;
            let a1 = set_parent(
                set_parent(arena, left.arena as int, out),
                right.arena as int,
                out,
            );
            let a2 = a1.push(
                HfNode {
                    parent: 0,
                    kind: HfNodeKind::Internal { zero: left.arena, one: right.arena },
                },
            );
            let h3 = h2.push(
                HeapData { freq: left.freq.saturating_add(right.freq), arena: out },
            );
            merge_inv(h3, a2, lfcnt)
        }),
{
    lemma_min_idx_in_range(heap);
    let i1 = min_idx(heap);
    let left = heap[i1];
    let h1 = heap.remove(i1);
    heap.remove_ensures(i1);
    lemma_min_idx_in_range(h1);
    let i2 = min_idx(h1);
    let right = h1[i2];
    let h2 = h1.remove(i2);
    h1.remove_ensures(i2);
    let out = arena.len() as usize;
    let a1 = set_parent(set_parent(arena, left.arena as int, out), right.arena as int, out);
    let a2 = a1.push(
        HfNode { parent: 0, kind: HfNodeKind::Internal { zero: left.arena, one: right.arena } },
    );
    let h3 = h2.push(HeapData { freq: left.freq.saturating_add(right.freq), arena: out });
    // the index in `heap` that `right` came from
    let kr = if i2 < i1 {
        i2
    } else {
        i2 + 1
    };
    assert(h1[i2] == heap[kr]);
    assert(kr != i1);
    // where an index of `h2` came from in `heap`
    let back = |k: int|
        {
            let k1 = if k < i2 {
                k
            } else {
                k + 1
            };
            if k1 < i1 {
                k1
            } else {
                k1 + 1
            }
        };
    assert forall|k: int| 0 <= k < h2.len() implies h2[k] == heap[back(k)] && 0 <= back(k)
        < heap.len() && back(k) != i1 && back(k) != kr by {}
    // kinds are untouched below the old length
    assert forall|j: int| 0 <= j < arena.len() implies (#[trigger] a2[j]).kind == arena[j].kind
        by {}
    assert(a2.len() == arena.len() + 1);
    // subtrees of old entries are unchanged
    assert forall|k: int| 0 <= k < heap.len() implies smap(a2, (#[trigger] heap[k]).arena as int)
        == smap(arena, heap[k].arena as int) && tree_uniq(a2, heap[k].arena as int) == tree_uniq(
        arena,
        heap[k].arena as int,
    ) by {
        lemma_grow_preserves(arena, a2, heap[k].arena as int);
    }
    // the new node and its symbol set
    let ml = smap(arena, left.arena as int);
    let mr = smap(arena, right.arena as int);
    assert(a2[out as int].kind == (HfNodeKind::Internal { zero: left.arena, one: right.arena }));
    assert(smap(a2, out as int) == smap(a2, left.arena as int).map_values(
        |c: Seq<bool>| seq![false] + c,
    ).union_prefer_right(smap(a2, right.arena as int).map_values(|c: Seq<bool>| seq![true] + c)));
    assert(smap(a2, out as int).dom() =~= ml.dom().union(mr.dom()));
    assert(ml.dom().disjoint(mr.dom()));
    assert(tree_uniq(a2, out as int));
    // the invariant clauses for the stepped state
    assert(arena_layout(a2, lfcnt));
    assert forall|k: int| 0 <= k < h3.len() implies (#[trigger] h3[k]).arena < a2.len() by {
        if k < h3.len() - 1 {
            assert(h3[k] == heap[back(k)]);
        }
    }
    assert forall|k: int| 0 <= k < h3.len() implies tree_uniq(
        a2,
        (#[trigger] h3[k]).arena as int,
    ) by {
        if k < h3.len() - 1 {
            assert(h3[k] == heap[back(k)]);
        }
    }
    assert forall|k: int| 0 <= k < h3.len() implies (#[trigger] smap(
        a2,
        h3[k].arena as int,
    ).dom()).subset_of(all_syms(lfcnt)) by {
        if k < h3.len() - 1 {
            assert(h3[k] == heap[back(k)]);
        }
    }
    assert forall|s: u32| #[trigger] all_syms(lfcnt).contains(s) implies exists|k: int|
        0 <= k < h3.len() && (#[trigger] smap(a2, h3[k].arena as int).dom()).contains(s) by {
        let k0 = choose|k: int|
            0 <= k < heap.len() && (#[trigger] smap(arena, heap[k].arena as int).dom()).contains(
                s,
            );
        if k0 == i1 || k0 == kr {
            assert(smap(a2, h3[h3.len() - 1].arena as int).dom().contains(s));
            assert(0 <= h3.len() - 1 < h3.len());
        } else {
            let k1 = if k0 < i1 {
                k0
            } else {
                k0 - 1
            };
            let k2 = if k1 < i2 {
                k1
            } else {
                k1 - 1
            };
            assert(back(k2) == k0);
            assert(h3[k2] == heap[k0]);
            assert(smap(a2, h3[k2].arena as int).dom().contains(s));
        }
    }
    assert forall|k1: int, k2: int|
        0 <= k1 < h3.len() && 0 <= k2 < h3.len() && k1 != k2 implies (#[trigger] smap(
        a2,
        h3[k1].arena as int,
    ).dom()).disjoint(#[trigger] smap(a2, h3[k2].arena as int).dom()) by {
        if k1 < h3.len() - 1 && k2 < h3.len() - 1 {
            assert(h3[k1] == heap[back(k1)]);
            assert(h3[k2] == heap[back(k2)]);
            assert(back(k1) != back(k2));
        } else if k1 < h3.len() - 1 {
            assert(h3[k1] == heap[back(k1)]);
        } else {
            assert(h3[k2] == heap[back(k2)]);
        }
    }
}

/// The frequency registrar: collects one leaf per symbol and the heap
/// entries the merge will consume.
#[derive(Clone)]
pub struct Hf {
    heap: Vec<HeapData>,
    arena: Vec<HfNode>,
}

impl Hf {
    /// The frequencies pushed so far, in push order: symbol `i` has
    /// frequency `freqs()[i]`.
    pub closed spec fn freqs(&self) -> Seq<u32> {
        self.heap@.map_values(|h: HeapData| h.freq)
    }

    pub closed spec fn num_syms(&self) -> nat {
        self.arena@.len()
    }

    pub closed spec fn wf(&self) -> bool {
        &&& self.heap@.len() == self.arena@.len()
        &&& self.arena@.len() <= MAX_SYMS
        &&& arena_layout(self.arena@, self.arena@.len() as nat)
        &&& forall|i: int| 0 <= i < self.arena@.len() ==> (#[trigger] self.arena@[i]).parent == 0
        &&& forall|i: int| 0 <= i < self.heap@.len() ==> (#[trigger] self.heap@[i]).arena == i
    }

    pub fn new() -> (r: Hf)
        ensures
            r.wf(),
            r.num_syms() == 0,
            r.freqs() == Seq::<u32>::empty(),
    {
        let r = Hf { heap: Vec::new(), arena: Vec::new() };
        proof {
            assert(r.freqs() =~= Seq::<u32>::empty());
        }
        r
    }

    /// Registers a new symbol with the given frequency. Ids are sequential:
    /// each push returns the previous count. Once the id space is full the
    /// push is refused, never wrapped or truncated.
    pub fn push(&mut self, freq: u32) -> (r: Result<u32, HfError>)
        requires
            old(self).wf(),
        ensures
            final(self).wf(),
            old(self).num_syms() < MAX_SYMS ==> {
                &&& r == Ok::<u32, HfError>((old(self).num_syms()) as u32)
                &&& final(self).freqs() == old(self).freqs().push(freq)
                &&& final(self).num_syms() == old(self).num_syms() + 1
            },
            old(self).num_syms() >= MAX_SYMS ==> r == Err::<u32, HfError>(
                HfError::CapacityExhausted,
            ) && *final(self) == *old(self),
    {
        if self.arena.len() >= MAX_SYMS {
            return Err(HfError::CapacityExhausted);
        }
        let nsym = self.arena.len() as u32;
        let idx = self.arena.len();
        self.heap.push(HeapData { freq, arena: idx });
        self.arena.push(HfNode { parent: 0, kind: HfNodeKind::Leaf { sym: nsym } });
        proof {
            assert(final(self).freqs() =~= old(self).freqs().push(freq));
        }
        Ok(nsym)
    }

    /// Worst-case footprint in bytes of a build over `syms` symbols (arena,
    /// heap and code table), from the symbol count alone, without
    /// allocating; saturates at `usize::MAX`. A practical soft ceiling lies
    /// at tens of thousands of symbols, where the cost becomes impractical.
    pub fn estimate_memory(syms: usize) -> (r: usize)
        requires
            syms <= MAX_SYMS,
        ensures
            r as nat == spec_hf_estimate(syms as nat),
    {
        if syms == 0 {
            return 0;
        }
        let max_heapsz = syms;
        let mut heapsz = max_heapsz;
        let mut arenasz = syms;
        while heapsz >= 2
            invariant
                1 <= syms <= MAX_SYMS,
                1 <= heapsz <= syms,
                arenasz + heapsz == 2 * syms,
            decreases heapsz,
        {
            heapsz = heapsz - 1;
            arenasz = arenasz + 1;
        }
        let m1 = mul_sat(arenasz, core::mem::size_of::<HfNode>());
        let m2 = mul_sat(max_heapsz, core::mem::size_of::<HeapData>());
        let m3 = HfTree::estimate_memory(arenasz, syms);
        m1.saturating_add(m2).saturating_add(m3)
    }

    /// Consumes the registrar and builds the tree: repeatedly pop the two
    /// lowest-frequency entries (ties broken by insertion order), make them
    /// the children of a fresh internal node, and push that node back with
    /// their saturating-added frequency; the last entry is the root. With no
    /// symbols the tree is empty with a sentinel root; with one symbol that
    /// leaf is the root directly.
    pub fn solve(self) -> (t: HfTree)
        requires
            self.wf(),
        ensures
            t.wf(),
            t.num_syms() == self.num_syms(),
            t.table().len() == t.num_syms(),
            built_from(t, self),
    {
        let Hf { mut heap, mut arena } = self;
        let lfcnt = arena.len();
        let ghost h0 = heap@;
        let ghost a0 = arena@;
        proof {
            assert forall|k: int| 0 <= k < h0.len() implies smap(a0, (#[trigger] h0[k]).arena as int)
                == Map::<u32, Seq<bool>>::empty().insert(k as u32, Seq::empty()) && tree_uniq(
                a0,
                h0[k].arena as int,
            ) by {
                assert(a0[k].kind matches HfNodeKind::Leaf { sym } && sym == k as u32);
            }
            assert forall|s: u32| #[trigger] all_syms(lfcnt as nat).contains(s) implies exists|
                k: int,
            |
                0 <= k < h0.len() && (#[trigger] smap(a0, h0[k].arena as int).dom()).contains(
                    s,
                ) by {
                assert(smap(a0, h0[s as int].arena as int).dom().contains(s));
            }
            assert(merge_inv(h0, a0, lfcnt as nat));
        }
        while heap.len() >= 2
            invariant
                lfcnt == a0.len(),
                merge_inv(heap@, arena@, lfcnt as nat),
                spec_merge(h0, a0) == spec_merge(heap@, arena@),
            decreases heap@.len(),
        {
            let ghost hpre = heap@;
            let ghost apre = arena@;
            proof {
                lemma_merge_step(hpre, apre, lfcnt as nat);
            }
            let i1 = min_entry_idx(&heap);
            let left = heap.remove(i1);
            let ghost h1 = heap@;
            let i2 = min_entry_idx(&heap);
            let right = heap.remove(i2);
            let out = arena.len();
            let mut ln = arena[left.arena];
            ln.parent = out;
            arena[left.arena] = ln;
            let mut rn = arena[right.arena];
            rn.parent = out;
            arena[right.arena] = rn;
            heap.push(HeapData { freq: left.freq.saturating_add(right.freq), arena: out });
            arena.push(
                HfNode {
                    parent: 0,
                    kind: HfNodeKind::Internal { zero: left.arena, one: right.arena },
                },
            );
            proof {
                let a1s = set_parent(set_parent(apre, left.arena as int, out), right.arena as int,
                    out);
                assert(arena@ =~= a1s.push(
                    HfNode {
                        parent: 0,
                        kind: HfNodeKind::Internal { zero: left.arena, one: right.arena },
                    },
                ));
                assert(heap@ =~= hpre.remove(min_idx(hpre)).remove(min_idx(h1)).push(
                    HeapData { freq: left.freq.saturating_add(right.freq), arena: out },
                ));
            }
        }
        if heap.len() == 0 {
            proof {
                assert(lfcnt == 0);
            }
            HfTree::new(0, arena, lfcnt)
        } else {
            let rootd = heap[0];
            proof {
                assert(heap@.len() == 1);
                assert(lfcnt >= 1);
                assert(spec_merge(heap@, arena@) == (heap@[0].arena as int, arena@));
                let root = rootd.arena as int;
                assert(tree_uniq(arena@, root));
                assert(smap(arena@, root).dom() =~= all_syms(lfcnt as nat)) by {
                    assert forall|s: u32| #[trigger]
                        smap(arena@, root).dom().contains(s) implies all_syms(
                        lfcnt as nat,
                    ).contains(s) by {
                        assert(smap(arena@, heap@[0].arena as int).dom().subset_of(
                            all_syms(lfcnt as nat),
                        ));
                    }
                    assert forall|s: u32| #[trigger]
                        all_syms(lfcnt as nat).contains(s) implies smap(
                        arena@,
                        root,
                    ).dom().contains(s) by {
                        let k = choose|k: int|
                            0 <= k < heap@.len() && (#[trigger] smap(
                                arena@,
                                heap@[k].arena as int,
                            ).dom()).contains(s);
                        assert(k == 0);
                    }
                }
                lemma_layout_wf(arena@, lfcnt as nat);
            }
            HfTree::new(rootd.arena, arena, lfcnt)
        }
    }
}

/// The result of `solve` is a function of the registrar's state: the root
/// and arena are exactly what the deterministic merge yields.
pub closed spec fn built_from(t: HfTree, h: Hf) -> bool {
    &&& t.root_view() == spec_merge(h.heap@, h.arena@).0
    &&& t.arena_view() == spec_merge(h.heap@, h.arena@).1
    &&& t.num_syms() == h.num_syms()
}

/// The index of the lowest entry, by frequency with ties broken by the
/// smaller arena index; the scan keeps the earliest candidate.
fn min_entry_idx(heap: &Vec<HeapData>) -> (r: usize)
    requires
        heap@.len() >= 1,
    ensures
        r < heap@.len(),
        r as int == min_idx(heap@),
{
    let mut best: usize = 0;
    let mut i: usize = 1;
    while i < heap.len()
        invariant
            1 <= i <= heap@.len(),
            best < i,
            best as int == min_idx(heap@.take(i as int)),
        decreases heap@.len() - i,
    {
        let c = heap[i];
        let b = heap[best];
        proof {
            assert(heap@.take(i + 1).drop_last() =~= heap@.take(i as int));
            assert(heap@.take(i + 1).last() == heap@[i as int]);
        }
        if c.freq < b.freq || (c.freq == b.freq && c.arena < b.arena) {
            best = i;
        }
        i = i + 1;
    }
    proof {
        assert(heap@.take(heap@.len() as int) =~= heap@);
    }
    best
}

/// `a * b`, saturating at `usize::MAX`.
pub open spec fn sat_mul_usize(a: nat, b: nat) -> nat {
    if a * b > usize::MAX {
        usize::MAX as nat
    } else {
        a * b
    }
}

/// `a + b`, saturating at `usize::MAX`.
pub open spec fn sat_add_usize(a: nat, b: nat) -> nat {
    if a + b > usize::MAX {
        usize::MAX as nat
    } else {
        a + b
    }
}

fn mul_sat(a: usize, b: usize) -> (r: usize)
    ensures
        r as nat == sat_mul_usize(a as nat, b as nat),
{
    match a.checked_mul(b) {
        Some(v) => v,
        None => usize::MAX,
    }
}

/// Nodes a merge over `syms` symbols allocates in all: the leaves plus one
/// internal node per merge.
pub open spec fn spec_arena_cap(syms: nat) -> nat {
    if syms == 0 {
        0
    } else {
        (2 * syms - 1) as nat
    }
}

/// Bytes of the materialized code table over `syms` symbols, worst case.
pub open spec fn spec_table_bytes(syms: nat) -> nat {
    sat_mul_usize(sat_mul_usize(syms, vstd::layout::size_of::<Code>()), (syms - 1) as nat)
}

/// Bytes of arena, heap and code table for a build over `syms` symbols,
/// worst case, saturating.
pub closed spec fn spec_hf_estimate(syms: nat) -> nat {
    if syms == 0 {
        0
    } else {
        sat_add_usize(
            sat_add_usize(
                sat_mul_usize(spec_arena_cap(syms), vstd::layout::size_of::<HfNode>()),
                sat_mul_usize(syms, vstd::layout::size_of::<HeapData>()),
            ),
            spec_table_bytes(syms),
        )
    }
}

/// Nodes in the subtree under `i`, counted for the traversal's bound.
spec fn subtree_size(arena: Seq<HfNode>, i: int) -> nat
    decreases i,
{
    if i < 0 || i >= arena.len() {
        1
    } else {
        match arena[i].kind {
            HfNodeKind::Leaf { .. } => 1,
            HfNodeKind::Internal { zero, one } => {
                if zero < i && one < i {
                    (1 + subtree_size(arena, zero as int) + subtree_size(arena, one as int)) as nat
                } else {
                    1
                }
            },
        }
    }
}

/// Total work left on the traversal stack.
spec fn stack_weight(arena: Seq<HfNode>, st: Seq<(usize, Code)>) -> nat
    decreases st.len(),
{
    if st.len() == 0 {
        0
    } else {
        stack_weight(arena, st.drop_last()) + subtree_size(arena, st.last().0 as int)
    }
}

/// A stack entry of the table-building walk: a node still to visit and the
/// bits accumulated on the way to it.
spec fn dfs_entry_ok(arena: Seq<HfNode>, root: int, e: (usize, Code)) -> bool {
    &&& (e.0 as int) < arena.len()
    &&& tree_uniq(arena, e.0 as int)
    &&& bv_bits(e.1).len() + e.0 < arena.len()
    &&& forall|s: u32|
        #[trigger] smap(arena, e.0 as int).dom().contains(s) ==> smap(arena, root)[s] == bv_bits(
            e.1,
        ) + smap(arena, e.0 as int)[s]
}

/// What holds of the walk at every step: pending subtrees and already
/// written symbols partition the symbol space, and every written slot holds
/// the symbol's code.
spec fn dfs_inv(
    arena: Seq<HfNode>,
    root: int,
    st: Seq<(usize, Code)>,
    written: Set<u32>,
    table: Seq<Code>,
    lfcnt: nat,
) -> bool {
    &&& table.len() == lfcnt
    &&& forall|j: int| 0 <= j < st.len() ==> dfs_entry_ok(arena, root, #[trigger] st[j])
    &&& forall|j: int|
        0 <= j < st.len() ==> (#[trigger] smap(arena, st[j].0 as int).dom()).subset_of(
            all_syms(lfcnt),
        )
    &&& forall|j1: int, j2: int|
        0 <= j1 < st.len() && 0 <= j2 < st.len() && j1 != j2 ==> (#[trigger] smap(
            arena,
            st[j1].0 as int,
        ).dom()).disjoint(#[trigger] smap(arena, st[j2].0 as int).dom())
    &&& forall|j: int|
        0 <= j < st.len() ==> (#[trigger] smap(arena, st[j].0 as int).dom()).disjoint(written)
    &&& written.subset_of(all_syms(lfcnt))
    &&& forall|s: u32|
        #[trigger] all_syms(lfcnt).contains(s) ==> written.contains(s) || exists|j: int|
            0 <= j < st.len() && (#[trigger] smap(arena, st[j].0 as int).dom()).contains(s)
    &&& forall|s: u32|
        #[trigger] written.contains(s) ==> bv_bits(table[s as int]) == smap(arena, root)[s]
}

/// An immutable arena-backed Huffman tree with its per-symbol code table.
/// Built once by `Hf::solve`; read-only afterwards.
pub struct HfTree {
    root: usize,
    arena: Vec<HfNode>,
    /// Maps symbols to their Huffman code.
    symtc: Vec<Code>,
}

impl HfTree {
    pub closed spec fn arena_view(&self) -> Seq<HfNode> {
        self.arena@
    }

    pub closed spec fn root_view(&self) -> int {
        self.root as int
    }

    /// The code table: entry `s` is symbol `s`'s code.
    pub closed spec fn table(&self) -> Seq<Seq<bool>> {
        self.symtc@.map_values(|c: Code| bv_bits(c))
    }

    pub closed spec fn num_syms(&self) -> nat {
        self.symtc@.len()
    }

    pub closed spec fn wf(&self) -> bool {
        &&& arena_wf(self.arena@)
        &&& self.arena@.len() <= MAX_ARENA
        &&& self.num_syms() <= MAX_ARENA
        &&& self.num_syms() == 0 ==> self.arena@.len() == 0
        &&& self.num_syms() > 0 ==> {
            &&& (self.root as int) < self.arena@.len()
            &&& tree_uniq(self.arena@, self.root as int)
            &&& smap(self.arena@, self.root as int).dom() == all_syms(self.num_syms())
            &&& forall|s: int|
                0 <= s < self.symtc@.len() ==> bv_bits(#[trigger] self.symtc@[s]) == smap(
                    self.arena@,
                    self.root as int,
                )[s as u32]
        }
    }

    /// Bytes of the code table plus the traversal stack for a tree of
    /// `nodecnt` nodes over `syms` symbols, worst case, without allocating.
    /// The stack bound is simulated: frames are popped one by one, each
    /// remaining internal node putting two more on; the simulation always
    /// drains, so only the table term remains.
    pub fn estimate_memory(nodecnt: usize, syms: usize) -> (r: usize)
        requires
            1 <= syms <= nodecnt,
            nodecnt <= MAX_ARENA,
        ensures
            r as nat == spec_table_bytes(syms as nat),
    {
        let mut stacklen: usize = 1;
        let mut internal_cnt = nodecnt - syms;
        while stacklen != 0
            invariant
                stacklen + 2 * internal_cnt <= 1 + 2 * MAX_ARENA,
            decreases internal_cnt, stacklen,
        {
            stacklen = stacklen - 1;
            if internal_cnt > 0 {
                internal_cnt = internal_cnt - 1;
                stacklen = stacklen + 2;
            }
        }
        let table = mul_sat(mul_sat(syms, core::mem::size_of::<Code>()), syms - 1);
        let frames = mul_sat(stacklen, core::mem::size_of::<(usize, Code)>());
        proof {
            assert(frames == 0);
        }
        table.saturating_add(frames)
    }

    /// Builds the code table for the tree rooted at `root` over `arena`,
    /// with `lfcnt` leaves, by an explicit depth-first stack walk: a leaf
    /// stores the bits accumulated so far at its symbol's slot; an internal
    /// node pushes both children, the first extended with `false`, the
    /// second with `true`. Every slot starts as an explicit empty sentinel
    /// and the walk fills each exactly once.
    pub fn new(root: usize, arena: Vec<HfNode>, lfcnt: usize) -> (r: HfTree)
        requires
            lfcnt <= arena@.len(),
            arena@.len() <= MAX_ARENA,
            arena_wf(arena@),
            lfcnt == 0 ==> arena@.len() == 0,
            lfcnt > 0 ==> (root as int) < arena@.len() && tree_uniq(arena@, root as int) && smap(
                arena@,
                root as int,
            ).dom() == all_syms(lfcnt as nat),
        ensures
            r.arena_view() == arena@,
            r.root_view() == root as int,
            r.num_syms() == lfcnt,
            r.table().len() == r.num_syms(),
            r.wf(),
    {
        if lfcnt == 0 {
            return HfTree { root, arena, symtc: Vec::new() };
        }
        let mut symtc: Vec<Code> = Vec::new();
        let mut i: usize = 0;
        while i < lfcnt
            invariant
                symtc@.len() == i,
                i <= lfcnt,
            decreases lfcnt - i,
        {
            symtc.push(bv_new());
            i = i + 1;
        }
        let mut stack: Vec<(usize, Code)> = Vec::new();
        let first = bv_new();
        stack.push((root, first));
        let ghost mut written: Set<u32> = Set::empty();
        proof {
            assert forall|s: u32| #[trigger]
                smap(arena@, root as int).dom().contains(s) implies smap(arena@, root as int)[s]
                == bv_bits(first) + smap(arena@, root as int)[s] by {
                assert(bv_bits(first) + smap(arena@, root as int)[s] =~= smap(
                    arena@,
                    root as int,
                )[s]);
            }
            assert(dfs_entry_ok(arena@, root as int, stack@[0]));
        }
        while stack.len() != 0
            invariant
                lfcnt > 0,
                lfcnt <= arena@.len(),
                arena@.len() <= MAX_ARENA,
                arena_wf(arena@),
                smap(arena@, root as int).dom() == all_syms(lfcnt as nat),
                dfs_inv(arena@, root as int, stack@, written, symtc@, lfcnt as nat),
            decreases stack_weight(arena@, stack@),
        {
            let ghost st_pre = stack@;
            let ghost w_pre = stack_weight(arena@, st_pre);
            let entry = stack.pop().unwrap();
            let (ndx, code) = entry;
            proof {
                assert(st_pre[st_pre.len() - 1] == entry);
                assert(dfs_entry_ok(arena@, root as int, entry));
                assert(stack_weight(arena@, st_pre) == stack_weight(arena@, stack@)
                    + subtree_size(arena@, ndx as int));
            }
            let nd = arena[ndx];
            match nd.kind {
                HfNodeKind::Leaf { sym } => {
                    proof {
                        assert(smap(arena@, ndx as int) == Map::<u32, Seq<bool>>::empty().insert(
                            sym,
                            Seq::empty(),
                        ));
                        assert(smap(arena@, ndx as int).dom().contains(sym));
                        assert(all_syms(lfcnt as nat).contains(sym));
                        assert(smap(arena@, root as int)[sym] == bv_bits(code) + smap(
                            arena@,
                            ndx as int,
                        )[sym]);
                        assert(bv_bits(code) + Seq::<bool>::empty() =~= bv_bits(code));
                    }
                    let ghost tbl_pre = symtc@;
                    symtc[sym as usize] = code;
                    proof {
                        written = written.insert(sym);
                        assert forall|s: u32| #[trigger]
                            written.contains(s) implies bv_bits(symtc@[s as int]) == smap(
                            arena@,
                            root as int,
                        )[s] by {
                            if s != sym {
                                assert(symtc@[s as int] == tbl_pre[s as int]);
                            }
                        }
                        assert forall|s: u32| #[trigger]
                            all_syms(lfcnt as nat).contains(s) implies written.contains(s)
                            || exists|j: int|
                            0 <= j < stack@.len() && (#[trigger] smap(
                                arena@,
                                stack@[j].0 as int,
                            ).dom()).contains(s) by {
                            if !written.contains(s) {
                                let j0 = choose|j: int|
                                    0 <= j < st_pre.len() && (#[trigger] smap(
                                        arena@,
                                        st_pre[j].0 as int,
                                    ).dom()).contains(s);
                                assert(j0 < st_pre.len() - 1);
                                assert(stack@[j0] == st_pre[j0]);
                            }
                        }
                    }
                },
                HfNodeKind::Internal { zero, one } => {
                    let mut lc = bv_clone(&code);
                    bv_push(&mut lc, false);
                    let mut rc = code;
                    bv_push(&mut rc, true);
                    let ghost ml = smap(arena@, zero as int);
                    let ghost mr = smap(arena@, one as int);
                    proof {
                        assert(tree_uniq(arena@, ndx as int));
                        assert(smap(arena@, ndx as int) == ml.map_values(
                            |c: Seq<bool>| seq![false] + c,
                        ).union_prefer_right(mr.map_values(|c: Seq<bool>| seq![true] + c)));
                        assert(smap(arena@, ndx as int).dom() =~= ml.dom().union(mr.dom()));
                    }
                    stack.push((zero, lc));
                    stack.push((one, rc));
                    proof {
                        let le = (zero, lc);
                        let re = (one, rc);
                        // the two new entries carry correct prefixes
                        assert forall|s: u32| #[trigger] ml.dom().contains(s) implies smap(
                            arena@,
                            root as int,
                        )[s] == bv_bits(lc) + ml[s] by {
                            assert(smap(arena@, ndx as int).dom().contains(s));
                            assert(!mr.dom().contains(s));
                            assert(smap(arena@, ndx as int)[s] == seq![false] + ml[s]);
                            assert(bv_bits(code) + (seq![false] + ml[s]) =~= (bv_bits(code)
                                + seq![false]) + ml[s]);
                            assert(bv_bits(lc) =~= bv_bits(code) + seq![false]);
                        }
                        assert forall|s: u32| #[trigger] mr.dom().contains(s) implies smap(
                            arena@,
                            root as int,
                        )[s] == bv_bits(rc) + mr[s] by {
                            assert(smap(arena@, ndx as int).dom().contains(s));
                            assert(smap(arena@, ndx as int)[s] == seq![true] + mr[s]);
                            assert(bv_bits(code) + (seq![true] + mr[s]) =~= (bv_bits(code)
                                + seq![true]) + mr[s]);
                            assert(bv_bits(rc) =~= bv_bits(code) + seq![true]);
                        }
                        assert(dfs_entry_ok(arena@, root as int, le));
                        assert(dfs_entry_ok(arena@, root as int, re));
                        // every old entry sits where it was
                        assert forall|j: int| 0 <= j < stack@.len() - 2 implies stack@[j]
                            == st_pre[j] by {}
                        assert(stack@[stack@.len() - 2] == le);
                        assert(stack@[stack@.len() - 1] == re);
                        // coverage: a symbol that pointed at the popped node now
                        // points at one of its children
                        assert forall|s: u32| #[trigger]
                            all_syms(lfcnt as nat).contains(s) implies written.contains(s)
                            || exists|j: int|
                            0 <= j < stack@.len() && (#[trigger] smap(
                                arena@,
                                stack@[j].0 as int,
                            ).dom()).contains(s) by {
                            if !written.contains(s) {
                                let j0 = choose|j: int|
                                    0 <= j < st_pre.len() && (#[trigger] smap(
                                        arena@,
                                        st_pre[j].0 as int,
                                    ).dom()).contains(s);
                                if j0 == st_pre.len() - 1 {
                                    if ml.dom().contains(s) {
                                        assert(smap(
                                            arena@,
                                            stack@[stack@.len() - 2].0 as int,
                                        ).dom().contains(s));
                                    } else {
                                        assert(mr.dom().contains(s));
                                        assert(smap(
                                            arena@,
                                            stack@[stack@.len() - 1].0 as int,
                                        ).dom().contains(s));
                                    }
                                } else {
                                    assert(stack@[j0] == st_pre[j0]);
                                }
                            }
                        }
                        // the popped node's weight covers both children plus itself
                        assert(stack@.drop_last() =~= st_pre.drop_last().push(le));
                        assert(stack@.last() == re);
                        assert(st_pre.drop_last().push(le).last() == le);
                        assert(st_pre.drop_last().push(le).drop_last() =~= st_pre.drop_last());
                        assert(stack_weight(arena@, st_pre.drop_last().push(le)) == stack_weight(
                            arena@,
                            st_pre.drop_last(),
                        ) + subtree_size(arena@, zero as int));
                        assert(stack_weight(arena@, stack@) == stack_weight(
                            arena@,
                            st_pre.drop_last(),
                        ) + subtree_size(arena@, zero as int) + subtree_size(arena@, one as int));
                        assert(subtree_size(arena@, ndx as int) == 1 + subtree_size(
                            arena@,
                            zero as int,
                        ) + subtree_size(arena@, one as int));
                    }
                },
            }
        }
        proof {
            assert forall|s: int| 0 <= s < lfcnt implies bv_bits(symtc@[s]) == smap(
                arena@,
                root as int,
            )[s as u32] by {
                assert(all_syms(lfcnt as nat).contains(s as u32));
                assert(written.contains(s as u32));
            }
        }
        HfTree { root, arena, symtc }
    }

    /// A fresh encoding session over this tree's code table.
    pub fn encoder(&self, input: Vec<u32>) -> (r: HfEncoder)
        requires
            self.wf(),
        ensures
            r.wf(),
            r.tree_view() == *self,
            r.remaining() == input@,
    {
        let r = HfEncoder { tree: self, input, pos: 0 };
        proof {
            assert(r.remaining() =~= r.input@);
        }
        r
    }

    /// A fresh decoding session over this tree's node arena.
    pub fn decoder(&self, input: Vec<bool>) -> (r: HfDecoder)
        requires
            self.wf(),
        ensures
            r.wf(),
            r.tree_view() == *self,
            r.remaining() == input@,
    {
        let r = HfDecoder { tree: self, input, pos: 0 };
        proof {
            assert(r.remaining() =~= r.input@);
        }
        r
    }
}

/// A finite, restartable encoding pass: one code-table lookup per input
/// symbol.
pub struct HfEncoder<'a> {
    tree: &'a HfTree,
    input: Vec<u32>,
    pos: usize,
}

impl<'a> HfEncoder<'a> {
    pub closed spec fn tree_view(&self) -> HfTree {
        *self.tree
    }

    /// The symbols not yet encoded.
    pub closed spec fn remaining(&self) -> Seq<u32> {
        self.input@.skip(self.pos as int)
    }

    pub closed spec fn wf(&self) -> bool {
        &&& self.pos <= self.input@.len()
        &&& self.tree.wf()
    }

    /// The code of the next input symbol; `None` at the end of the input;
    /// an out-of-range condition if the symbol has no table entry.
    pub fn next(&mut self) -> (r: Result<Option<Code>, HfError>)
        requires
            old(self).wf(),
        ensures
            final(self).wf(),
            final(self).tree_view() == old(self).tree_view(),
            old(self).remaining().len() == 0 ==> r == Ok::<Option<Code>, HfError>(None)
                && *final(self) == *old(self),
            old(self).remaining().len() > 0 ==> ({
                let sym = old(self).remaining()[0];
                if (sym as int) < old(self).tree_view().table().len() {
                    &&& (match r {
                        Ok(Some(c)) => bv_bits(c) == old(self).tree_view().table()[sym as int],
                        _ => false,
                    })
                    &&& final(self).remaining() == old(self).remaining().skip(1)
                } else {
                    r == Err::<Option<Code>, HfError>(HfError::SymbolOutOfRange) && *final(self)
                        == *old(self)
                }
            }),
    {
        if self.pos == self.input.len() {
            return Ok(None);
        }
        let sym = self.input[self.pos];
        if (sym as usize) < self.tree.symtc.len() {
            let c = bv_clone(&self.tree.symtc[sym as usize]);
            proof {
                assert(old(self).remaining()[0] == self.input@[self.pos as int]);
                assert(self.input@.skip(self.pos as int).skip(1) =~= self.input@.skip(
                    self.pos + 1,
                ));
            }
            self.pos = self.pos + 1;
            Ok(Some(c))
        } else {
            Err(HfError::SymbolOutOfRange)
        }
    }
}

/// A finite decoding pass: a state machine positioned at the root; each
/// consumed bit selects a child; reaching a leaf emits its symbol and
/// resets the position to the root.
pub struct HfDecoder<'a> {
    tree: &'a HfTree,
    input: Vec<bool>,
    pos: usize,
}

impl<'a> HfDecoder<'a> {
    pub closed spec fn tree_view(&self) -> HfTree {
        *self.tree
    }

    /// The bits not yet consumed.
    pub closed spec fn remaining(&self) -> Seq<bool> {
        self.input@.skip(self.pos as int)
    }

    pub closed spec fn wf(&self) -> bool {
        &&& self.pos <= self.input@.len()
        &&& self.tree.wf()
    }

    /// The next decoded symbol. Exhaustion while positioned at the root is
    /// the clean end of the stream (`Ok(None)`); exhaustion mid-codeword is
    /// truncated input and reported as its own condition.
    pub fn next(&mut self) -> (r: Result<Option<u32>, HfError>)
        requires
            old(self).wf(),
        ensures
            final(self).wf(),
            final(self).tree_view() == old(self).tree_view(),
            ({
                let arena = old(self).tree_view().arena_view();
                let root = old(self).tree_view().root_view();
                let rem = old(self).remaining();
                if rem.len() == 0 || root >= arena.len() {
                    r == Ok::<Option<u32>, HfError>(None) && *final(self) == *old(self)
                } else {
                    match walk_node(arena, root, rem) {
                        Some(step) => r == Ok::<Option<u32>, HfError>(
                            Some(leaf_sym(arena, step.0)),
                        ) && final(self).remaining() == step.1,
                        None => r == Err::<Option<u32>, HfError>(HfError::TruncatedInput)
                            && final(self).remaining().len() == 0,
                    }
                }
            }),
    {
        if self.pos == self.input.len() {
            return Ok(None);
        }
        if self.tree.root >= self.tree.arena.len() {
            return Ok(None);
        }
        let ghost arena = self.tree.arena@;
        let ghost root = self.tree.root as int;
        let ghost rem0 = self.remaining();
        let mut idx = self.tree.root;
        loop
            invariant
                old(self).wf(),
                self.tree == old(self).tree,
                self.input == old(self).input,
                self.pos <= self.input@.len(),
                arena == self.tree.arena@,
                root == self.tree.root as int,
                rem0 == old(self).remaining(),
                rem0.len() > 0,
                root < arena.len(),
                arena_wf(arena),
                (idx as int) < arena.len(),
                walk_node(arena, root, rem0) == walk_node(
                    arena,
                    idx as int,
                    self.input@.skip(self.pos as int),
                ),
            decreases idx,
        {
            let nd = self.tree.arena[idx];
            match nd.kind {
                HfNodeKind::Leaf { sym } => {
                    proof {
                        assert(walk_node(arena, idx as int, self.input@.skip(self.pos as int))
                            == Some((idx as int, self.input@.skip(self.pos as int))));
                        assert(leaf_sym(arena, idx as int) == sym);
                    }
                    return Ok(Some(sym));
                },
                HfNodeKind::Internal { zero, one } => {
                    if self.pos == self.input.len() {
                        proof {
                            assert(self.input@.skip(self.pos as int).len() == 0);
                        }
                        return Err(HfError::TruncatedInput);
                    }
                    let bit = self.input[self.pos];
                    proof {
                        let cur = self.input@.skip(self.pos as int);
                        assert(cur[0] == self.input@[self.pos as int]);
                        assert(cur.skip(1) =~= self.input@.skip(self.pos + 1));
                    }
                    self.pos = self.pos + 1;
                    idx = if bit {
                        one
                    } else {
                        zero
                    };
                },
            }
        }
    }
}

/// The bit stream an encoding pass emits for `syms`: the symbols' codes,
/// concatenated.
pub open spec fn concat_codes(table: Seq<Seq<bool>>, syms: Seq<u32>) -> Seq<bool>
    decreases syms.len(),
{
    if syms.len() == 0 {
        Seq::empty()
    } else {
        table[syms[0] as int] + concat_codes(table, syms.skip(1))
    }
}

/// What a whole decoding pass yields: symbols until the bits run out at the
/// root; `None` when they run out mid-codeword or no bit is ever consumed.
pub closed spec fn spec_decode(arena: Seq<HfNode>, root: int, bits: Seq<bool>) -> Option<Seq<u32>>
    decreases bits.len(),
{
    if bits.len() == 0 {
        Some(Seq::empty())
    } else {
        match walk_node(arena, root, bits) {
            Some(step) => {
                if step.1.len() < bits.len() {
                    match spec_decode(arena, root, step.1) {
                        Some(rest) => Some(seq![leaf_sym(arena, step.0)] + rest),
                        None => None,
                    }
                } else {
                    None
                }
            },
            None => None,
        }
    }
}

/// Following a concatenation reaches, through the first part's endpoint,
/// whatever the second part reaches from there.
proof fn lemma_node_reached_app(arena: Seq<HfNode>, i: int, c1: Seq<bool>, c2: Seq<bool>)
    ensures
        node_reached(arena, i, c1 + c2) == (match node_reached(arena, i, c1) {
            Some(j) => node_reached(arena, j, c2),
            None => None,
        }),
    decreases c1.len(),
{
    if !(0 <= i < arena.len()) {
        assert((c1 + c2).len() == c1.len() + c2.len());
    } else if c1.len() == 0 {
        assert(c1 + c2 =~= c2);
    } else {
        assert((c1 + c2)[0] == c1[0]);
        assert((c1 + c2).skip(1) =~= c1.skip(1) + c2);
        match arena[i].kind {
            HfNodeKind::Leaf { .. } => {},
            HfNodeKind::Internal { zero, one } => {
                if c1[0] {
                    lemma_node_reached_app(arena, one as int, c1.skip(1), c2);
                } else {
                    lemma_node_reached_app(arena, zero as int, c1.skip(1), c2);
                }
            },
        }
    }
}

/// Every symbol's code in `smap` leads from the node exactly to that
/// symbol's leaf.
proof fn lemma_smap_reaches(arena: Seq<HfNode>, i: int, s: u32)
    requires
        tree_uniq(arena, i),
        smap(arena, i).dom().contains(s),
    ensures
        leaf_reached(arena, i, smap(arena, i)[s]) == Some(s),
    decreases i,
{
    match arena[i].kind {
        HfNodeKind::Leaf { sym } => {
            assert(smap(arena, i)[s] =~= Seq::<bool>::empty());
        },
        HfNodeKind::Internal { zero, one } => {
            let ml = smap(arena, zero as int);
            let mr = smap(arena, one as int);
            if mr.dom().contains(s) {
                lemma_smap_reaches(arena, one as int, s);
                let code = smap(arena, i)[s];
                assert(code == seq![true] + mr[s]);
                assert(code[0]);
                assert(code.skip(1) =~= mr[s]);
            } else {
                assert(ml.dom().contains(s));
                lemma_smap_reaches(arena, zero as int, s);
                let code = smap(arena, i)[s];
                assert(code == seq![false] + ml[s]);
                assert(!code[0]);
                assert(code.skip(1) =~= ml[s]);
            }
        },
    }
}

/// A code that leads exactly to a leaf makes the decoder emit that leaf and
/// consume exactly the code, whatever bits follow.
proof fn lemma_walk_of_code(arena: Seq<HfNode>, i: int, code: Seq<bool>, rest: Seq<bool>, s: u32)
    requires
        leaf_reached(arena, i, code) == Some(s),
    ensures
        ({
            let w = walk_node(arena, i, code + rest);
            &&& w is Some
            &&& w->Some_0.1 == rest
            &&& leaf_sym(arena, w->Some_0.0) == s
        }),
    decreases code.len(),
{
    if code.len() == 0 {
        assert(code + rest =~= rest);
    } else {
        assert((code + rest)[0] == code[0]);
        assert((code + rest).skip(1) =~= code.skip(1) + rest);
        match arena[i].kind {
            HfNodeKind::Leaf { .. } => {
                assert(false);
            },
            HfNodeKind::Internal { zero, one } => {
                if code[0] {
                    lemma_walk_of_code(arena, one as int, code.skip(1), rest, s);
                } else {
                    lemma_walk_of_code(arena, zero as int, code.skip(1), rest, s);
                }
            },
        }
    }
}

/// In a tree of at least two symbols the root is internal, so every code
/// has at least one bit.
proof fn lemma_root_internal(arena: Seq<HfNode>, root: int, lfcnt: nat)
    requires
        tree_uniq(arena, root),
        smap(arena, root).dom() == all_syms(lfcnt),
        lfcnt >= 2,
    ensures
        forall|s: u32|
            #[trigger] smap(arena, root).dom().contains(s) ==> smap(arena, root)[s].len() >= 1,
{
    match arena[root].kind {
        HfNodeKind::Leaf { sym } => {
            assert(all_syms(lfcnt).contains(0u32));
            assert(all_syms(lfcnt).contains(1u32));
            assert(smap(arena, root).dom().contains(0u32));
            assert(smap(arena, root).dom().contains(1u32));
            assert(false);
        },
        HfNodeKind::Internal { zero, one } => {
            let ml = smap(arena, zero as int);
            let mr = smap(arena, one as int);
            assert forall|s: u32| #[trigger]
                smap(arena, root).dom().contains(s) implies smap(arena, root)[s].len() >= 1 by {
                if mr.dom().contains(s) {
                    assert(smap(arena, root)[s] == seq![true] + mr[s]);
                } else {
                    assert(ml.dom().contains(s));
                    assert(smap(arena, root)[s] == seq![false] + ml[s]);
                }
            }
        },
    }
}

proof fn lemma_decode_concat(
    arena: Seq<HfNode>,
    root: int,
    table: Seq<Seq<bool>>,
    syms: Seq<u32>,
)
    requires
        forall|s: int|
            0 <= s < table.len() ==> leaf_reached(arena, root, #[trigger] table[s]) == Some(
                s as u32,
            ),
        forall|s: int| 0 <= s < table.len() ==> (#[trigger] table[s]).len() >= 1,
        forall|k: int| 0 <= k < syms.len() ==> (#[trigger] syms[k]) < table.len(),
    ensures
        spec_decode(arena, root, concat_codes(table, syms)) == Some(syms),
    decreases syms.len(),
{
    if syms.len() == 0 {
        assert(syms =~= Seq::<u32>::empty());
    } else {
        let code = table[syms[0] as int];
        let rest = concat_codes(table, syms.skip(1));
        lemma_walk_of_code(arena, root, code, rest, syms[0]);
        lemma_decode_concat(arena, root, table, syms.skip(1));
        let bits = code + rest;
        assert(bits.len() == code.len() + rest.len());
        assert(seq![syms[0]] + syms.skip(1) =~= syms);
    }
}

/// Round-trip: for a tree of at least two symbols, decoding the
/// concatenated codes of any in-range symbol sequence gives back exactly
/// that sequence. (With a single symbol every code is empty, so a nonempty
/// input cannot round-trip: nothing is ever emitted to the bit stream.)
pub proof fn lemma_round_trip(t: HfTree, syms: Seq<u32>)
    requires
        t.wf(),
        t.num_syms() >= 2,
        forall|k: int| 0 <= k < syms.len() ==> (#[trigger] syms[k] as nat) < t.num_syms(),
    ensures
        spec_decode(t.arena_view(), t.root_view(), concat_codes(t.table(), syms)) == Some(syms),
{
    let arena = t.arena_view();
    let root = t.root_view();
    let table = t.table();
    lemma_root_internal(arena, root, t.num_syms());
    assert forall|s: int| 0 <= s < table.len() implies leaf_reached(
        arena,
        root,
        #[trigger] table[s],
    ) == Some(s as u32) && table[s].len() >= 1 by {
        assert(all_syms(t.num_syms()).contains(s as u32));
        assert(smap(arena, root).dom().contains(s as u32));
        lemma_smap_reaches(arena, root, s as u32);
        assert(table[s] == smap(arena, root)[s as u32]);
    }
    lemma_decode_concat(arena, root, table, syms);
}

/// Prefix-free: in any tree with at least two symbols, no symbol's code is
/// a prefix of another symbol's code.
pub proof fn lemma_prefix_free(t: HfTree, s1: int, s2: int)
    requires
        t.wf(),
        t.num_syms() >= 2,
        0 <= s1 < t.num_syms(),
        0 <= s2 < t.num_syms(),
        s1 != s2,
    ensures
        !t.table()[s1].is_prefix_of(t.table()[s2]),
{
    let arena = t.arena_view();
    let root = t.root_view();
    let c1 = t.table()[s1];
    let c2 = t.table()[s2];
    assert(all_syms(t.num_syms()).contains(s1 as u32));
    assert(all_syms(t.num_syms()).contains(s2 as u32));
    assert(smap(arena, root).dom().contains(s1 as u32));
    assert(smap(arena, root).dom().contains(s2 as u32));
    lemma_smap_reaches(arena, root, s1 as u32);
    lemma_smap_reaches(arena, root, s2 as u32);
    assert(c1 == smap(arena, root)[s1 as u32]);
    assert(c2 == smap(arena, root)[s2 as u32]);
    if c1.is_prefix_of(c2) {
        let ext = c2.skip(c1.len() as int);
        assert(c2 =~= c1 + ext);
        lemma_node_reached_app(arena, root, c1, ext);
        if ext.len() == 0 {
            assert(c1 =~= c2);
            assert(false);
        } else {
            let j = node_reached(arena, root, c1)->Some_0;
            assert(arena[j].kind matches HfNodeKind::Leaf { .. });
            assert(node_reached(arena, j, ext) is None);
            assert(false);
        }
    }
}

/// Degenerate trees: no symbols give an empty code table, over an empty
/// arena, so a decoding pass ends cleanly at once; exactly one symbol gives
/// a single entry whose code is the empty bit sequence.
pub proof fn lemma_degenerate(t: HfTree)
    requires
        t.wf(),
    ensures
        t.num_syms() == 0 ==> t.table() == Seq::<Seq<bool>>::empty(),
        t.num_syms() == 0 ==> t.root_view() >= t.arena_view().len(),
        t.num_syms() == 1 ==> t.table() == seq![Seq::<bool>::empty()],
{
    let arena = t.arena_view();
    let root = t.root_view();
    if t.num_syms() == 0 {
        assert(t.table() =~= Seq::<Seq<bool>>::empty());
    }
    if t.num_syms() == 1 {
        assert(all_syms(1).contains(0u32));
        assert(smap(arena, root).dom().contains(0u32));
        match arena[root].kind {
            HfNodeKind::Leaf { sym } => {
                assert(sym == 0u32);
                assert(smap(arena, root)[0u32] =~= Seq::<bool>::empty());
                assert(t.table() =~= seq![Seq::<bool>::empty()]);
            },
            HfNodeKind::Internal { zero, one } => {
                lemma_smap_nonempty(arena, zero as int);
                lemma_smap_nonempty(arena, one as int);
                let sl = choose|s: u32| smap(arena, zero as int).dom().contains(s);
                let sr = choose|s: u32| smap(arena, one as int).dom().contains(s);
                assert(smap(arena, root).dom().contains(sl));
                assert(smap(arena, root).dom().contains(sr));
                assert(all_syms(1).contains(sl));
                assert(all_syms(1).contains(sr));
                assert(sl == 0u32 && sr == 0u32);
                assert(false);
            },
        }
    }
}

/// Determinism: two tree builds from identical frequencies in identical
/// push order yield identical code tables.
pub proof fn lemma_build_deterministic(a: Hf, b: Hf, t1: HfTree, t2: HfTree)
    requires
        a.wf(),
        b.wf(),
        a.freqs() == b.freqs(),
        t1.wf(),
        t2.wf(),
        built_from(t1, a),
        built_from(t2, b),
    ensures
        t1.table() == t2.table(),
{
    assert(a.heap@.len() == a.freqs().len());
    assert(b.heap@.len() == b.freqs().len());
    assert forall|i: int| 0 <= i < a.heap@.len() implies a.heap@[i] == b.heap@[i] by {
        assert(a.freqs()[i] == a.heap@[i].freq);
        assert(b.freqs()[i] == b.heap@[i].freq);
        assert(a.heap@[i].arena == i && b.heap@[i].arena == i);
        let x = a.heap@[i];
        let y = b.heap@[i];
        assert(x == HeapData { freq: x.freq, arena: x.arena });
        assert(y == HeapData { freq: y.freq, arena: y.arena });
    }
    assert(a.heap@ =~= b.heap@);
    assert forall|i: int| 0 <= i < a.arena@.len() implies a.arena@[i] == b.arena@[i] by {
        assert(a.arena@[i].kind matches HfNodeKind::Leaf { sym } && sym == i as u32);
        assert(b.arena@[i].kind matches HfNodeKind::Leaf { sym } && sym == i as u32);
        assert(a.arena@[i].parent == 0 && b.arena@[i].parent == 0);
        let x = a.arena@[i];
        let y = b.arena@[i];
        assert(x == HfNode { parent: x.parent, kind: x.kind });
        assert(y == HfNode { parent: y.parent, kind: y.kind });
        match x.kind {
            HfNodeKind::Leaf { sym } => {
                match y.kind {
                    HfNodeKind::Leaf { sym: sym2 } => {
                        assert(sym == sym2);
                    },
                    HfNodeKind::Internal { .. } => {
                        assert(false);
                    },
                }
            },
            HfNodeKind::Internal { .. } => {
                assert(false);
            },
        }
    }
    assert(a.arena@ =~= b.arena@);
    assert(t1.root_view() == t2.root_view());
    assert(t1.arena_view() == t2.arena_view());
    assert(t1.num_syms() == t2.num_syms());
    if t1.num_syms() == 0 {
        assert(t1.table() =~= t2.table());
    } else {
        assert forall|s: int| 0 <= s < t1.table().len() implies t1.table()[s] == t2.table()[s] by {
            assert(t1.table()[s] == smap(t1.arena_view(), t1.root_view())[s as u32]);
            assert(t2.table()[s] == smap(t2.arena_view(), t2.root_view())[s as u32]);
        }
        assert(t1.table() =~= t2.table());
    }
}

} // verus!
