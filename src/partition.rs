//! Cutting an input of `n` elements into contiguous chunks, one per worker.
use vstd::arithmetic::div_mod::lemma_fundamental_div_mod_converse;
use vstd::multiset::Multiset;
use vstd::prelude::*;

verus! {

/// A contiguous run of indices `start..end` of the input, handed to one worker.
#[derive(Clone, Copy, Debug, PartialEq, Eq, Structural)]
pub struct Chunk {
    pub start: usize,
    pub end: usize,
}

/// Stride used when `n` elements are shared among `w` workers: `ceil(n / w)`,
/// and 1 for an empty input, so that the stride is never zero.
pub open spec fn spec_chunk_size(n: nat, w: nat) -> nat
    recommends
        w >= 1,
{
    if n == 0 {
        1
    } else {
        ((n + w - 1) / (w as int)) as nat
    }
}

/// Number of chunks that stride `c` cuts out of `n` elements: `ceil(n / c)`.
pub open spec fn spec_chunk_count(n: nat, c: nat) -> nat
    recommends
        c >= 1,
{
    ((n + c - 1) / (c as int)) as nat
}

/// The `i`-th chunk of stride `c` over `n` elements; the last one may be shorter.
pub open spec fn spec_chunk_at(n: nat, c: nat, i: nat) -> Chunk {
    Chunk {
        start: (i * c) as usize,
        end: if (i + 1) * c <= n {
            ((i + 1) * c) as usize
        } else {
            n as usize
        },
    }
}

/// All chunks of stride `c` over `n` elements, in order.
pub open spec fn spec_chunks(n: nat, c: nat) -> Seq<Chunk> {
    Seq::new(spec_chunk_count(n, c), |i: int| spec_chunk_at(n, c, i as nat))
}

/// The chunks that `partition(n, w)` returns.
pub open spec fn spec_partition(n: nat, w: nat) -> Seq<Chunk> {
    spec_chunks(n, spec_chunk_size(n, w))
}

/// `s` cuts `0..n` into non-empty runs, each starting where the one before it ends.
pub open spec fn tiles(s: Seq<Chunk>, n: nat) -> bool {
    &&& s.len() == 0 ==> n == 0
    &&& s.len() > 0 ==> s[0].start == 0 && s.last().end == n
    &&& forall|i: int| 0 <= i < s.len() ==> #[trigger] s[i].start < s[i].end
    &&& forall|i: int| 0 < i < s.len() ==> #[trigger] s[i].start == s[i - 1].end
}

/// The indices `a..b`, each once.
pub open spec fn span(a: int, b: int) -> Multiset<int>
    decreases b - a,
{
    if b <= a {
        Multiset::empty()
    } else {
        span(a, b - 1).insert(b - 1)
    }
}

/// Every index that the chunks of `s` hand out, counted as often as they hand it out.
pub open spec fn covered(s: Seq<Chunk>) -> Multiset<int>
    decreases s.len(),
{
    if s.len() == 0 {
        Multiset::empty()
    } else {
        covered(s.drop_last()).add(span(s.last().start as int, s.last().end as int))
    }
}

/// The parts of `s` that the chunks of `chunks` cut out, in chunk order.
pub open spec fn pieces<T>(s: Seq<T>, chunks: Seq<Chunk>) -> Seq<Seq<T>> {
    Seq::new(chunks.len(), |i: int| s.subrange(chunks[i].start as int, chunks[i].end as int))
}

/// `ceil(n / c)` chunks of stride `c` reach `n`, and one fewer would not.
proof fn lemma_chunk_count(n: nat, c: nat)
    requires
        c >= 1,
    ensures
        spec_chunk_count(n, c) * c >= n,
        spec_chunk_count(n, c) > 0 ==> (spec_chunk_count(n, c) - 1) * c < n,
        n == 0 ==> spec_chunk_count(n, c) == 0,
{
    let x = n + c - 1;
    let q = x / (c as int);
    let r = x % (c as int);
    vstd::arithmetic::div_mod::lemma_fundamental_div_mod(x, c as int);
    assert(x == c * q + r);
    assert((q - 1) * c == q * c - c) by (nonlinear_arith);
    if n == 0 {
        lemma_fundamental_div_mod_converse(x, c as int, 0, x);
    }
}

/// A count `q` with `(q - 1) * c < n <= q * c` is `ceil(n / c)`.
proof fn lemma_chunk_count_unique(n: nat, c: nat, q: nat)
    requires
        c >= 1,
        q * c >= n,
        q > 0 ==> (q - 1) * c < n,
    ensures
        q == spec_chunk_count(n, c),
{
    assert((q - 1) * c == q * c - c) by (nonlinear_arith);
    if q == 0 {
        lemma_fundamental_div_mod_converse(n + c - 1, c as int, 0, n + c - 1);
    } else {
        lemma_fundamental_div_mod_converse(n + c - 1, c as int, q as int, n + c - 1 - q * c);
    }
}

/// Stride `c` cuts `0..n` into adjacent, non-empty chunks.
proof fn lemma_chunks_tile(n: nat, c: nat)
    requires
        c >= 1,
        n <= usize::MAX,
    ensures
        tiles(spec_chunks(n, c), n),
{
    let s = spec_chunks(n, c);
    let q = spec_chunk_count(n, c);
    lemma_chunk_count(n, c);
    assert forall|i: int| 0 <= i < s.len() implies #[trigger] s[i].start < s[i].end by {
        lemma_chunk_start_below(n, c, i as nat);
    }
    assert forall|i: int| 0 < i < s.len() implies #[trigger] s[i].start == s[i - 1].end by {
        lemma_chunk_start_below(n, c, (i - 1) as nat);
        lemma_chunk_start_below(n, c, i as nat);
        assert((i - 1 + 1) * c == i * c);
    }
    if q > 0 {
        assert(0 * c == 0);
        assert(q * c == (q - 1) * c + c) by (nonlinear_arith);
    }
}

/// Every chunk of stride `c` over `n` elements starts below `n`.
proof fn lemma_chunk_start_below(n: nat, c: nat, i: nat)
    requires
        c >= 1,
        i < spec_chunk_count(n, c),
    ensures
        i * c < n,
        (i + 1) * c == i * c + c,
{
    let q = spec_chunk_count(n, c);
    lemma_chunk_count(n, c);
    assert(i * c <= (q - 1) * c) by (nonlinear_arith)
        requires
            0 <= i <= q - 1,
            c >= 1,
    ;
    assert((i + 1) * c == i * c + c) by (nonlinear_arith);
}

/// The chunks of a tiling of `0..m` hand out each index of `0..m` exactly once, and nothing else.
proof fn lemma_tiles_cover(s: Seq<Chunk>, m: nat)
    requires
        tiles(s, m),
    ensures
        covered(s) == span(0, m as int),
    decreases s.len(),
{
    if s.len() == 0 {
        assert(span(0, 0) == Multiset::<int>::empty());
    } else {
        let last = s.last();
        let rest = s.drop_last();
        if rest.len() > 0 {
            assert(s[s.len() - 1].start == s[s.len() - 2].end);
        }
        assert(tiles(rest, last.start as nat));
        lemma_tiles_cover(rest, last.start as nat);
        lemma_span_join(0, last.start as int, m as int);
    }
}

/// `a..b` followed by `b..c` is `a..c`.
proof fn lemma_span_join(a: int, b: int, c: int)
    requires
        a <= b <= c,
    ensures
        span(a, b).add(span(b, c)) == span(a, c),
    decreases c - b,
{
    broadcast use vstd::multiset::group_multiset_axioms;

    if c == b {
        assert(span(a, b).add(span(b, c)) =~= span(a, c));
    } else {
        lemma_span_join(a, b, c - 1);
        assert(span(a, b).add(span(b, c)) =~= span(a, c));
    }
}

/// The pieces that a tiling of `0..m` cuts out of `s`, joined in order, are the first `m` elements of `s`.
proof fn lemma_tiles_rejoin<T>(s: Seq<T>, chunks: Seq<Chunk>, m: nat)
    requires
        tiles(chunks, m),
        m <= s.len(),
    ensures
        pieces(s, chunks).flatten_alt() == s.subrange(0, m as int),
    decreases chunks.len(),
{
    let p = pieces(s, chunks);
    if chunks.len() == 0 {
        assert(s.subrange(0, 0) =~= Seq::<T>::empty());
    } else {
        let last = chunks.last();
        let rest = chunks.drop_last();
        if rest.len() > 0 {
            assert(chunks[chunks.len() - 1].start == chunks[chunks.len() - 2].end);
        }
        assert(tiles(rest, last.start as nat));
        lemma_tiles_rejoin(s, rest, last.start as nat);
        assert(p.drop_last() =~= pieces(s, rest));
        assert(s.subrange(0, last.start as int) + s.subrange(last.start as int, m as int)
            =~= s.subrange(0, m as int));
    }
}

/// Coverage: the chunks of `partition(n, w)` hand out every index of `0..n`
/// exactly once, and no other index.
pub proof fn lemma_partition_covers(n: nat, w: nat)
    requires
        w >= 1,
        n <= usize::MAX,
    ensures
        covered(spec_partition(n, w)) == span(0, n as int),
{
    lemma_chunk_size(n, w);
    lemma_chunks_tile(n, spec_chunk_size(n, w));
    lemma_tiles_cover(spec_partition(n, w), n);
}

/// Equivalence of the split: the pieces that `partition(s.len(), w)` cuts out
/// of `s`, joined in chunk order, are `s` itself, so the workers together see
/// exactly the elements of a sequential pass, in the same order.
pub proof fn lemma_pieces_rejoin<T>(s: Seq<T>, w: nat)
    requires
        w >= 1,
        s.len() <= usize::MAX,
    ensures
        pieces(s, spec_partition(s.len(), w)).flatten() == s,
{
    let chunks = spec_partition(s.len(), w);
    lemma_chunk_size(s.len(), w);
    lemma_chunks_tile(s.len(), spec_chunk_size(s.len(), w));
    lemma_tiles_rejoin(s, chunks, s.len());
    pieces(s, chunks).lemma_flatten_and_flatten_alt_are_equivalent();
    assert(s.subrange(0, s.len() as int) =~= s);
}

/// The stride for `w` workers is at least 1, and `w` strides reach `n`.
proof fn lemma_chunk_size(n: nat, w: nat)
    requires
        w >= 1,
    ensures
        spec_chunk_size(n, w) >= 1,
        spec_chunk_size(n, w) * w >= n,
        n > 0 ==> spec_chunk_size(n, w) <= n,
{
    if n > 0 {
        lemma_chunk_count(n, w);
        assert(spec_chunk_size(n, w) == spec_chunk_count(n, w));
        assert(spec_chunk_count(n, w) * w == w * spec_chunk_count(n, w));
        if spec_chunk_count(n, w) == 0 {
            assert(0 * w == 0);
        }
        assert((spec_chunk_count(n, w) - 1) * w >= spec_chunk_count(n, w) - 1) by (nonlinear_arith)
            requires
                w >= 1,
                spec_chunk_count(n, w) >= 1,
        ;
    }
}

/// Stride `ceil(n / w)` used by `partition`; 1 when the input is empty.
pub fn chunk_size(n: usize, w: usize) -> (c: usize)
    requires
        w >= 1,
    ensures
        c == spec_chunk_size(n as nat, w as nat),
        c >= 1,
{
    proof {
        lemma_chunk_size(n as nat, w as nat);
    }
    if n == 0 {
        1
    } else {
        let q = n / w;
        proof {
            vstd::arithmetic::div_mod::lemma_fundamental_div_mod(n as int, w as int);
            assert(w * q == q * w) by (nonlinear_arith);
            assert(n == q * w + n % w);
            assert((q + 1) * w == q * w + w) by (nonlinear_arith);
            assert(q * w >= q) by (nonlinear_arith)
                requires
                    w >= 1,
            ;
        }
        if n % w == 0 {
            proof {
                lemma_fundamental_div_mod_converse(n + w - 1, w as int, q as int, w - 1);
            }
            q
        } else {
            proof {
                lemma_fundamental_div_mod_converse(
                    n + w - 1,
                    w as int,
                    q + 1,
                    (n % w) - 1,
                );
            }
            q + 1
        }
    }
}

/// Cuts `0..n` with stride `c`: chunks `[0, c)`, `[c, 2c)`, ..., the last one
/// ending at `n` and possibly shorter. An empty input gives no chunk.
pub fn chunks_of(n: usize, c: usize) -> (r: Vec<Chunk>)
    requires
        c >= 1,
    ensures
        r@ == spec_chunks(n as nat, c as nat),
        tiles(r@, n as nat),
{
    let mut r: Vec<Chunk> = Vec::new();
    let mut start: usize = 0;
    proof {
        assert(r.len() * c == 0) by (nonlinear_arith)
            requires
                r.len() == 0,
        ;
    }
    while start < n
        invariant
            c >= 1,
            start <= n,
            start == (if r.len() * c <= n { r.len() * c } else { n as int }),
            r.len() > 0 ==> (r.len() - 1) * c < n,
            forall|i: int| 0 <= i < r.len() ==> r[i] == spec_chunk_at(n as nat, c as nat, i as nat),
        decreases n - start,
    {
        proof {
            assert((r.len() + 1) * c == r.len() * c + c) by (nonlinear_arith);
        }
        let end: usize = if n - start <= c {
            n
        } else {
            start + c
        };
        r.push(Chunk { start, end });
        start = end;
    }
    proof {
        if r.len() * c < n {
            assert(start < n);
        }
        lemma_chunk_count_unique(n as nat, c as nat, r.len() as nat);
        assert(r@ =~= spec_chunks(n as nat, c as nat));
        lemma_chunks_tile(n as nat, c as nat);
    }
    r
}

/// Chunks for `w` workers: stride `ceil(n / w)`, so at most `w` chunks, none
/// of them empty, together covering `0..n` exactly once.
pub fn partition(n: usize, w: usize) -> (r: Vec<Chunk>)
    requires
        w >= 1,
    ensures
        r@ == spec_partition(n as nat, w as nat),
        tiles(r@, n as nat),
        r.len() <= w,
        r.len() <= n,
        n == 0 ==> r.len() == 0,
        n > 0 && w == 1 ==> r@ == seq![Chunk { start: 0, end: n }],
{
    let c = chunk_size(n, w);
    let r = chunks_of(n, c);
    proof {
        lemma_chunk_size(n as nat, w as nat);
        lemma_chunk_count(n as nat, c as nat);
        let q = r.len() as int;
        if q > 0 {
            assert((q - 1) * c < n);
            assert(q - 1 < w) by (nonlinear_arith)
                requires
                    (q - 1) * c < n,
                    c * w >= n,
                    c >= 1,
            ;
            assert(q - 1 < n) by (nonlinear_arith)
                requires
                    (q - 1) * c < n,
                    c >= 1,
                    q >= 1,
            ;
        }
        if n > 0 && w == 1 {
            assert(n as int * 1 == n as int) by (nonlinear_arith);
            lemma_fundamental_div_mod_converse(n as int, 1, n as int, 0);
            assert(c == n);
            lemma_chunk_count_unique(n as nat, c as nat, 1);
            assert(r@ =~= seq![Chunk { start: 0, end: n }]);
        }
    }
    r
}

/// Copies out of `v` the elements `start..end`.
pub fn copy_range<T: Copy>(v: &Vec<T>, start: usize, end: usize) -> (r: Vec<T>)
    requires
        start <= end <= v.len(),
    ensures
        r@ == v@.subrange(start as int, end as int),
{
    let mut r: Vec<T> = Vec::new();
    let mut i: usize = start;
    while i < end
        invariant
            start <= i <= end <= v.len(),
            r@ == v@.subrange(start as int, i as int),
        decreases end - i,
    {
        r.push(v[i]);
        i = i + 1;
        proof {
            assert(r@ =~= v@.subrange(start as int, i as int));
        }
    }
    r
}

/// Gives each of up to `w` workers its own copy of its chunk of `v`: the
/// pieces that `partition(v.len(), w)` cuts out, in order.
pub fn split_chunks<T: Copy>(v: &Vec<T>, w: usize) -> (r: Vec<Vec<T>>)
    requires
        w >= 1,
    ensures
        r.len() == spec_partition(v.len() as nat, w as nat).len(),
        forall|i: int|
            0 <= i < r.len() ==> #[trigger] r[i]@ == pieces(
                v@,
                spec_partition(v.len() as nat, w as nat),
            )[i],
{
    let chunks = partition(v.len(), w);
    let mut r: Vec<Vec<T>> = Vec::new();
    let mut k: usize = 0;
    while k < chunks.len()
        invariant
            k <= chunks.len(),
            r.len() == k,
            tiles(chunks@, v.len() as nat),
            chunks@ == spec_partition(v.len() as nat, w as nat),
            forall|i: int| 0 <= i < k ==> #[trigger] r[i]@ == pieces(v@, chunks@)[i],
        decreases chunks.len() - k,
    {
        let ch = chunks[k];
        proof {
            lemma_chunk_inside(chunks@, v.len() as nat, k as int);
        }
        let piece = copy_range(v, ch.start, ch.end);
        r.push(piece);
        k = k + 1;
    }
    r
}

/// `split_chunks` for a worker count that has not been checked: `None` when
/// there is no worker to hand a chunk to.
pub fn checked_split_chunks<T: Copy>(v: &Vec<T>, w: usize) -> (r: Option<Vec<Vec<T>>>)
    ensures
        w == 0 <==> r is None,
        r matches Some(p) ==> {
            &&& p.len() == spec_partition(v.len() as nat, w as nat).len()
            &&& forall|i: int|
                0 <= i < p.len() ==> #[trigger] p[i]@ == pieces(
                    v@,
                    spec_partition(v.len() as nat, w as nat),
                )[i]
        },
{
    if w == 0 {
        None
    } else {
        Some(split_chunks(v, w))
    }
}

/// Each chunk of a tiling of `0..n` lies inside `0..n`.
proof fn lemma_chunk_inside(s: Seq<Chunk>, n: nat, k: int)
    requires
        tiles(s, n),
        0 <= k < s.len(),
    ensures
        s[k].start <= s[k].end <= n,
    decreases s.len() - k,
{
    if k < s.len() - 1 {
        assert(s[k + 1].start == s[k + 1 - 1].end);
        lemma_chunk_inside(s, n, k + 1);
    }
}

} // verus!
