//! LZ77 longest-match search: a byte window (already-processed data) is
//! scanned against a lookahead buffer for the longest backreference.

use vstd::prelude::*;

verus! {

/// Length of the longest common prefix of `a` and `b`.
pub open spec fn lcp_len(a: Seq<u8>, b: Seq<u8>) -> nat
    decreases a.len(),
{
    if a.len() == 0 || b.len() == 0 || a[0] != b[0] {
        0
    } else {
        (1 + lcp_len(a.skip(1), b.skip(1))) as nat
    }
}

proof fn lemma_lcp_from_scan(a: Seq<u8>, b: Seq<u8>, k: int)
    requires
        0 <= k <= a.len(),
        k <= b.len(),
        forall|i: int| 0 <= i < k ==> a[i] == b[i],
        k == a.len() || k == b.len() || a[k] != b[k],
    ensures
        lcp_len(a, b) == k,
    decreases k,
{
    if k == 0 {
    } else {
        assert(a[0] == b[0]);
        lemma_lcp_from_scan(a.skip(1), b.skip(1), k - 1);
    }
}

/// Number of agreeing leading bytes of `a` and `b`.
pub fn strmatch(a: &[u8], b: &[u8]) -> (n: usize)
    ensures
        n == lcp_len(a@, b@),
{
    let mut n: usize = 0;
    let mxlen: usize = if a.len() < b.len() {
        a.len()
    } else {
        b.len()
    };
    while n < mxlen && a[n] == b[n]
        invariant
            0 <= n <= mxlen,
            mxlen <= a@.len(),
            mxlen <= b@.len(),
            mxlen == a@.len() || mxlen == b@.len(),
            forall|i: int| 0 <= i < n ==> a@[i] == b@[i],
        decreases mxlen - n,
    {
        n = n + 1;
    }
    proof {
        lemma_lcp_from_scan(a@, b@, n as int);
    }
    n
}

proof fn lemma_lcp_le(a: Seq<u8>, b: Seq<u8>)
    ensures
        lcp_len(a, b) <= a.len(),
        lcp_len(a, b) <= b.len(),
    decreases a.len(),
{
    if a.len() != 0 && b.len() != 0 && a[0] == b[0] {
        lemma_lcp_le(a.skip(1), b.skip(1));
    }
}

proof fn lemma_lcp_agree(a: Seq<u8>, b: Seq<u8>)
    ensures
        forall|i: int| 0 <= i < lcp_len(a, b) ==> a[i] == b[i],
    decreases a.len(),
{
    lemma_lcp_le(a, b);
    if a.len() != 0 && b.len() != 0 && a[0] == b[0] {
        lemma_lcp_agree(a.skip(1), b.skip(1));
        assert forall|i: int| 0 <= i < lcp_len(a, b) implies a[i] == b[i] by {
            if i > 0 {
                assert(a.skip(1)[i - 1] == b.skip(1)[i - 1]);
            }
        }
    }
}

/// Target bound on the window: 32 KiB of already-processed data.
pub const WIN_SIZE: usize = 32 * 1024;

/// A bounded region of already-processed bytes, acting as the match
/// dictionary: the live part of `heap` from `begin` on, at most `WIN_SIZE`
/// bytes.
pub struct Window {
    heap: Vec<u8>,
    begin: usize,
}

impl Window {
    pub closed spec fn wf(&self) -> bool {
        &&& self.begin <= self.heap@.len()
        &&& self.heap@.len() - self.begin <= WIN_SIZE
    }

    /// The live bytes of the window.
    pub closed spec fn contents(&self) -> Seq<u8> {
        self.heap@.skip(self.begin as int)
    }

    /// A window over the bytes of `heap` from `begin` on; refused when
    /// `begin` is past the end or the live region exceeds `WIN_SIZE`.
    pub fn new(heap: Vec<u8>, begin: usize) -> (r: Option<Window>)
        ensures
            r is Some <==> begin <= heap@.len() && heap@.len() - begin <= WIN_SIZE,
            r is Some ==> r->Some_0.wf() && r->Some_0.contents() == heap@.skip(begin as int),
    {
        if begin <= heap.len() && heap.len() - begin <= WIN_SIZE {
            Some(Window { heap, begin })
        } else {
            None
        }
    }

    pub fn data(&self) -> (r: &[u8])
        requires
            self.wf(),
        ensures
            r@ == self.contents(),
            r@.len() <= WIN_SIZE,
    {
        let slice = vstd::slice::slice_subrange(self.heap.as_slice(), self.begin, self.heap.len());
        proof {
            assert(self.heap@.subrange(self.begin as int, self.heap@.len() as int) =~= self
                .contents());
        }
        slice
    }
}

/// A repeated run found in the window: `offset` bytes back from the end of
/// the window, agreeing with the lookahead for `length` bytes.
#[derive(PartialEq, Eq, Structural, Clone, Copy, Debug)]
pub struct Backref {
    pub offset: usize,
    pub length: usize,
}

/// Length of the match at a given offset: how far the window suffix that
/// starts `off` bytes back agrees with the lookahead.
pub open spec fn match_len_at(w: Seq<u8>, la: Seq<u8>, off: int) -> nat {
    lcp_len(w.skip(w.len() - off), la)
}

/// The best backreference over offsets `1..=hi`, scanned in ascending order:
/// only a strictly longer match replaces the current best, so among equal
/// lengths the smallest offset wins; no match at all is `(0, 0)`.
pub open spec fn best_match(w: Seq<u8>, la: Seq<u8>, hi: int) -> (int, nat)
    decreases hi,
{
    if hi <= 0 {
        (0, 0nat)
    } else {
        let prev = best_match(w, la, hi - 1);
        let l = match_len_at(w, la, hi);
        if l > prev.1 {
            (hi, l)
        } else {
            prev
        }
    }
}

proof fn lemma_best_match_le(w: Seq<u8>, la: Seq<u8>, hi: int)
    ensures
        best_match(w, la, hi).1 <= la.len(),
    decreases hi,
{
    if hi > 0 {
        lemma_best_match_le(w, la, hi - 1);
        lemma_lcp_le(w.skip(w.len() - hi), la);
    }
}

/// What the returned pair of `best_match` is: its length is the maximum match
/// length over all offsets, and its offset is the smallest one attaining it.
pub proof fn lemma_best_match_props(w: Seq<u8>, la: Seq<u8>, hi: int)
    requires
        0 <= hi <= w.len(),
    ensures
        ({
            let b = best_match(w, la, hi);
            &&& 0 <= b.0 <= hi
            &&& b.1 > 0 ==> 1 <= b.0 && match_len_at(w, la, b.0) == b.1
            &&& b.1 == 0 ==> b.0 == 0
            &&& forall|off: int| 1 <= off <= hi ==> match_len_at(w, la, off) <= b.1
            &&& forall|off: int| 1 <= off < b.0 ==> match_len_at(w, la, off) < b.1
        }),
    decreases hi,
{
    if hi > 0 {
        lemma_best_match_props(w, la, hi - 1);
    }
}

/// Scan every offset from 1 up to the window length for the longest match of
/// the lookahead; among equal lengths the smallest offset, found first, wins.
pub fn naive_substrmatch(search: &[u8], lookahead: &[u8]) -> (r: Backref)
    ensures
        ({
            let b = best_match(search@, lookahead@, search@.len() as int);
            r.offset == b.0 && r.length == b.1
        }),
{
    let mut best = Backref { offset: 0, length: 0 };
    let mut off0: usize = 0;
    let n = search.len();
    while off0 < n
        invariant
            off0 <= n,
            n == search@.len(),
            best.offset as int == best_match(search@, lookahead@, off0 as int).0,
            best.length as nat == best_match(search@, lookahead@, off0 as int).1,
        decreases n - off0,
    {
        let offset = off0 + 1;
        let slice = vstd::slice::slice_subrange(search, n - offset, n);
        proof {
            assert(search@.subrange(n - offset, n as int) =~= search@.skip(n - offset));
        }
        let nmatch = strmatch(slice, lookahead);
        if nmatch > best.length {
            best.offset = offset;
            best.length = nmatch;
        }
        off0 = offset;
    }
    best
}

/// The matcher the emission loop uses; the naive scan is the correctness
/// baseline.
pub fn lzmatch(search: &[u8], lookahead: &[u8]) -> (r: Backref)
    ensures
        ({
            let b = best_match(search@, lookahead@, search@.len() as int);
            r.offset == b.0 && r.length == b.1
        }),
{
    naive_substrmatch(search, lookahead)
}

/// One element of the emitted token stream: a literal byte, or a
/// backreference into the window.
#[derive(PartialEq, Eq, Structural, Clone, Copy, Debug)]
pub enum LzToken {
    Literal(u8),
    Backref(Backref),
}

/// The token stream from `pivot` on: at each position the best match over
/// the window (everything before the position) decides between a
/// backreference, advancing by its length, and a literal, advancing by one.
pub open spec fn spec_tokens(source: Seq<u8>, pivot: int) -> Seq<LzToken>
    decreases source.len() - pivot,
{
    if pivot < 0 || pivot >= source.len() {
        Seq::empty()
    } else {
        let b = best_match(source.take(pivot), source.skip(pivot), pivot);
        if b.1 > 0 {
            let adv: int = if pivot + b.1 <= source.len() {
                b.1 as int
            } else {
                1
            };
            seq![LzToken::Backref(Backref { offset: b.0 as usize, length: b.1 as usize })]
                + spec_tokens(source, pivot + adv)
        } else {
            seq![LzToken::Literal(source[pivot])] + spec_tokens(source, pivot + 1)
        }
    }
}

/// What a consumer makes of the token stream: a literal appends its byte;
/// a backreference copies `length` bytes starting `offset` back from the
/// end of the output so far. This matcher never emits an overlapping copy
/// (a length above its offset), so the plain copy below covers every token
/// it emits; an out-of-range token leaves the output unchanged.
pub open spec fn expand_tokens(toks: Seq<LzToken>, out: Seq<u8>) -> Seq<u8>
    decreases toks.len(),
{
    if toks.len() == 0 {
        out
    } else {
        let next = match toks[0] {
            LzToken::Literal(b) => out.push(b),
            LzToken::Backref(m) => {
                if 1 <= m.offset && m.offset <= out.len() && m.length <= m.offset {
                    out + out.subrange(
                        out.len() - m.offset,
                        out.len() - m.offset + m.length,
                    )
                } else {
                    out
                }
            },
        };
        expand_tokens(toks.skip(1), next)
    }
}

proof fn lemma_expand_from(source: Seq<u8>, pivot: int)
    requires
        0 <= pivot <= source.len(),
        source.len() <= usize::MAX,
    ensures
        expand_tokens(spec_tokens(source, pivot), source.take(pivot)) == source,
    decreases source.len() - pivot,
{
    if pivot == source.len() {
        assert(source.take(pivot) =~= source);
    } else {
        let w = source.take(pivot);
        let la = source.skip(pivot);
        let b = best_match(w, la, pivot);
        let toks = spec_tokens(source, pivot);
        lemma_best_match_le(w, la, pivot);
        lemma_best_match_props(w, la, pivot);
        if b.1 > 0 {
            let m = Backref { offset: b.0 as usize, length: b.1 as usize };
            assert(m.offset as int == b.0);
            assert(m.length as nat == b.1);
            // the copied bytes agree with the lookahead for the match length
            let suf = w.skip(w.len() - b.0);
            assert(b.1 == lcp_len(suf, la));
            lemma_lcp_agree(suf, la);
            lemma_lcp_le(suf, la);
            assert(b.1 <= b.0);
            let copied = w + w.subrange(pivot - b.0, pivot - b.0 + b.1);
            assert(copied =~= source.take(pivot + b.1)) by {
                assert forall|i: int| 0 <= i < pivot + b.1 implies copied[i] == source[i] by {
                    if i >= pivot {
                        let j = i - pivot;
                        assert(copied[i] == w[pivot - b.0 + j]);
                        assert(suf[j] == w[pivot - b.0 + j]);
                        assert(la[j] == source[pivot + j]);
                        assert(suf[j] == la[j]);
                    }
                }
            }
            assert(toks[0] == LzToken::Backref(m));
            assert(toks.skip(1) =~= spec_tokens(source, pivot + b.1));
            lemma_expand_from(source, pivot + b.1);
        } else {
            assert(w.push(source[pivot]) =~= source.take(pivot + 1));
            assert(toks[0] == LzToken::Literal(source[pivot]));
            assert(toks.skip(1) =~= spec_tokens(source, pivot + 1));
            lemma_expand_from(source, pivot + 1);
        }
    }
}

/// Expanding the emitted token stream over an empty history reproduces the
/// input exactly.
pub proof fn lemma_tokens_expand(source: Seq<u8>)
    requires
        source.len() <= usize::MAX,
    ensures
        expand_tokens(spec_tokens(source, 0), Seq::<u8>::empty()) == source,
{
    assert(source.take(0) =~= Seq::<u8>::empty());
    lemma_expand_from(source, 0);
}

/// The emission loop over the whole input.
pub fn lz77(source: &[u8]) -> (tokens: Vec<LzToken>)
    ensures
        tokens@ == spec_tokens(source@, 0),
    {
    let mut tokens: Vec<LzToken> = Vec::new();
    let mut pivot: usize = 0;
    let n = source.len();
    proof {
        assert(tokens@ + spec_tokens(source@, 0) =~= spec_tokens(source@, 0));
    }
    while pivot < n
        invariant
            pivot <= n,
            n == source@.len(),
            spec_tokens(source@, 0) == tokens@ + spec_tokens(source@, pivot as int),
        decreases n - pivot,
    {
        let (window, lookahead) = source.split_at(pivot);
        proof {
            assert(window@ =~= source@.take(pivot as int));
            assert(lookahead@ =~= source@.skip(pivot as int));
            lemma_best_match_le(source@.take(pivot as int), source@.skip(pivot as int),
                pivot as int);
        }
        let m = lzmatch(window, lookahead);
        let ghost pre = tokens@;
        let advance: usize;
        if m.length != 0 {
            tokens.push(LzToken::Backref(m));
            advance = m.length;
        } else {
            let lit = lookahead[0];
            proof {
                assert(lookahead@[0] == source@[pivot as int]);
            }
            tokens.push(LzToken::Literal(lit));
            advance = 1;
        }
        proof {
            let tok = spec_tokens(source@, pivot as int)[0];
            assert(spec_tokens(source@, pivot as int) == seq![tok] + spec_tokens(
                source@,
                pivot + advance,
            ));
            assert(tokens@ =~= pre + seq![tok]);
            assert(pre + (seq![tok] + spec_tokens(source@, pivot + advance)) =~= (pre
                + seq![tok]) + spec_tokens(source@, pivot + advance));
        }
        pivot = pivot + advance;
    }
    proof {
        assert(tokens@ + spec_tokens(source@, n as int) =~= tokens@);
    }
    tokens
}

} // verus!
