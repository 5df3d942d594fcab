//! Numbered fragments: a payload too large for one frame is cut into chunks, each
//! sent behind its one-byte number; a receiver orders what it heard by number and
//! joins the chunks.

use vstd::prelude::*;

verus! {

/// Number of fragments of a payload of `len` bytes cut into chunks of `size`.
pub open spec fn fragment_count(len: nat, size: nat) -> nat
    recommends
        size > 0,
{
    (len + size - 1) as nat / size
}

/// Fragment `i` of `payload`: its number (mod 256), then up to `size` payload
/// bytes from offset `i * size`.
pub open spec fn spec_fragment(payload: Seq<u8>, i: int, size: nat) -> Seq<u8> {
    let start = i * size;
    let end = if start + size <= payload.len() {
        start + size
    } else {
        payload.len() as int
    };
    seq![(i % 256) as u8] + payload.subrange(start, end)
}

/// The payload bytes fragment `k` carries.
pub open spec fn spec_chunk(payload: Seq<u8>, k: int, size: nat) -> Seq<u8> {
    spec_fragment(payload, k, size).drop_first()
}

/// All fragments of `payload`, in order.
pub open spec fn spec_fragments(payload: Seq<u8>, size: nat) -> Seq<Seq<u8>> {
    Seq::new(fragment_count(payload.len(), size), |i: int| spec_fragment(payload, i, size))
}

/// Bytes of the received parts whose fragment number is `k`, in arrival order.
pub open spec fn fragments_numbered(parts: Seq<Seq<u8>>, k: int) -> Seq<u8>
    decreases parts.len(),
{
    if parts.len() == 0 {
        Seq::empty()
    } else {
        let last = parts.last();
        fragments_numbered(parts.drop_last(), k) + if last.len() > 0 && last[0] == k {
            last.drop_first()
        } else {
            Seq::empty()
        }
    }
}

/// The parts numbered below `k`, by number and then in arrival order, with their
/// numbers removed and their bytes joined. Empty parts contribute nothing.
pub open spec fn assembled_below(parts: Seq<Seq<u8>>, k: nat) -> Seq<u8>
    decreases k,
{
    if k == 0 {
        Seq::empty()
    } else {
        assembled_below(parts, (k - 1) as nat) + fragments_numbered(parts, k - 1)
    }
}

/// What a receiver assembles from the parts it heard.
pub open spec fn spec_assemble(parts: Seq<Seq<u8>>) -> Seq<u8> {
    assembled_below(parts, 256)
}

/// The views of a vector of byte vectors.
pub open spec fn payload_views(v: Seq<Vec<u8>>) -> Seq<Seq<u8>> {
    v.map_values(|x: Vec<u8>| x@)
}

proof fn lemma_count_bounds(n: nat, size: nat)
    requires
        size > 0,
    ensures
        fragment_count(n, size) * size >= n,
        fragment_count(n, size) * size < n + size,
{
    let c = fragment_count(n, size);
    let q = (n + size - 1) as nat / size;
    let r = (n + size - 1) as nat % size;
    vstd::arithmetic::div_mod::lemma_fundamental_div_mod((n + size - 1) as int, size as int);
    assert(c * size >= n) by (nonlinear_arith)
        requires
            n + size - 1 == size * q + r,
            r < size,
            c == q,
    ;
    assert(c * size < n + size) by (nonlinear_arith)
        requires
            n + size - 1 == size * q + r,
            0 <= r,
            c == q,
    ;
}

proof fn lemma_numbered_prefix(payload: Seq<u8>, size: nat, j: nat, k: int)
    requires
        size > 0,
        j <= fragment_count(payload.len(), size),
        fragment_count(payload.len(), size) <= 256,
        0 <= k < 256,
    ensures
        fragments_numbered(spec_fragments(payload, size).take(j as int), k) == if k < j {
            spec_chunk(payload, k, size)
        } else {
            Seq::<u8>::empty()
        },
    decreases j,
{
    let frags = spec_fragments(payload, size);
    if j == 0 {
        assert(frags.take(0) =~= Seq::<Seq<u8>>::empty());
    } else {
        lemma_numbered_prefix(payload, size, (j - 1) as nat, k);
        let t = frags.take(j as int);
        assert(t.drop_last() =~= frags.take(j - 1));
        let last = spec_fragment(payload, j - 1, size);
        assert(t.last() == last);
        assert(last[0] == (j - 1) as u8);
        if k == j - 1 {
            assert(Seq::<u8>::empty() + spec_chunk(payload, k, size) =~= spec_chunk(payload, k, size));
        } else if k < j - 1 {
            assert(spec_chunk(payload, k, size) + Seq::<u8>::empty() =~= spec_chunk(payload, k, size));
        } else {
            assert(Seq::<u8>::empty() + Seq::<u8>::empty() =~= Seq::<u8>::empty());
        }
    }
}

proof fn lemma_assembled_prefix(payload: Seq<u8>, size: nat, m: nat)
    requires
        size > 0,
        m <= 256,
        fragment_count(payload.len(), size) <= 256,
    ensures
        assembled_below(spec_fragments(payload, size), m) == payload.take(
            if m * size <= payload.len() {
                (m * size) as int
            } else {
                payload.len() as int
            },
        ),
    decreases m,
{
    let frags = spec_fragments(payload, size);
    let n = payload.len();
    let c = fragment_count(n, size);
    if m == 0 {
        assert(payload.take(0) =~= Seq::<u8>::empty());
    } else {
        lemma_assembled_prefix(payload, size, (m - 1) as nat);
        lemma_numbered_prefix(payload, size, c, m - 1);
        lemma_count_bounds(n, size);
        assert(frags.take(c as int) =~= frags);
        let lo = (m - 1) * size;
        assert(lo + size == m * size) by (nonlinear_arith)
            requires
                lo == (m - 1) * size,
                m >= 1,
        ;
        assert(assembled_below(frags, m) == assembled_below(frags, (m - 1) as nat)
            + fragments_numbered(frags, m - 1));
        if m - 1 < c {
            assert(fragments_numbered(frags, m - 1) == spec_chunk(payload, m - 1, size));
            assert(lo < n) by (nonlinear_arith)
                requires
                    lo == (m - 1) * size,
                    m - 1 < c,
                    c * size < n + size,
                    size > 0,
            ;
            assert(payload.take(lo) + spec_chunk(payload, m - 1, size) =~= payload.take(
                if m * size <= n {
                    (m * size) as int
                } else {
                    n as int
                },
            ));
        } else {
            assert(fragments_numbered(frags, m - 1) == Seq::<u8>::empty());
            assert(lo >= n) by (nonlinear_arith)
                requires
                    lo == (m - 1) * size,
                    m - 1 >= c,
                    c * size >= n,
                    size > 0,
            ;
            assert(payload.take(n as int) + Seq::<u8>::empty() =~= payload.take(n as int));
        }
    }
}

/// Cutting a payload into numbered fragments and assembling the fragments gives
/// the payload back, for payloads of at most 256 fragments (the number is one byte).
pub proof fn lemma_fragments_reassemble(payload: Seq<u8>, size: nat)
    requires
        size > 0,
        fragment_count(payload.len(), size) <= 256,
    ensures
        spec_assemble(spec_fragments(payload, size)) == payload,
{
    lemma_assembled_prefix(payload, size, 256);
    let n = payload.len();
    lemma_count_bounds(n, size);
    assert(n <= 256 * size) by (nonlinear_arith)
        requires
            fragment_count(n, size) <= 256,
            fragment_count(n, size) * size >= n,
            size > 0,
    ;
    assert(payload.take(n as int) =~= payload);
}

/// Cuts `payload` into numbered fragments of `size` payload bytes each.
pub fn split_fragments(payload: &[u8], size: usize) -> (frags: Vec<Vec<u8>>)
    requires
        size > 0,
    ensures
        payload_views(frags@) == spec_fragments(payload@, size as nat),
{
    let mut out: Vec<Vec<u8>> = Vec::new();
    let mut start: usize = 0;
    let mut i: usize = 0;
    let ghost n = payload@.len();
    proof {
        lemma_count_bounds(n, size as nat);
        let c = fragment_count(n, size as nat);
        if n == 0 {
            assert(c == 0) by (nonlinear_arith)
                requires
                    c * size < size,
                    size > 0,
            ;
        }
    }
    while start < payload.len()
        invariant
            size > 0,
            n == payload@.len(),
            start == if i * size <= n {
                i * size
            } else {
                n as int
            },
            start <= n,
            fragment_count(n, size as nat) * size >= n,
            fragment_count(n, size as nat) * size < n + size,
            start < n ==> i < fragment_count(n, size as nat),
            start >= n ==> i == fragment_count(n, size as nat),
            out@.len() == i,
            forall|t: int| 0 <= t < i ==> (#[trigger] out@[t])@ == spec_fragment(payload@, t, size as nat),
        decreases n - start,
    {
        assert(i * size < n);
        assert(i < n) by (nonlinear_arith)
            requires
                i * size < n,
                size > 0,
        ;
        let end = if payload.len() - start >= size {
            start + size
        } else {
            payload.len()
        };
        let mut fragment: Vec<u8> = Vec::new();
        fragment.push((i % 256) as u8);
        let mut j: usize = start;
        while j < end
            invariant
                start <= j <= end,
                end <= payload@.len(),
                fragment@ == seq![(i % 256) as u8] + payload@.subrange(start as int, j as int),
            decreases end - j,
        {
            fragment.push(payload[j]);
            assert(payload@.subrange(start as int, j + 1) =~= payload@.subrange(
                start as int,
                j as int,
            ).push(payload@[j as int]));
            j = j + 1;
        }
        assert(fragment@ =~= spec_fragment(payload@, i as int, size as nat));
        out.push(fragment);
        proof {
            let c = fragment_count(n, size as nat);
            assert((i + 1) * size == i * size + size) by (nonlinear_arith);
            if end < n {
                assert(i + 1 < c) by (nonlinear_arith)
                    requires
                        (i + 1) * size < n,
                        c * size >= n,
                        size > 0,
                ;
            } else {
                assert(i + 1 == c) by (nonlinear_arith)
                    requires
                        i * size < n,
                        (i + 1) * size >= n,
                        c * size >= n,
                        c * size < n + size,
                        size > 0,
                ;
            }
        }
        start = end;
        i = i + 1;
    }
    assert(payload_views(out@) =~= spec_fragments(payload@, size as nat));
    out
}

/// Assembles received parts (see `spec_assemble`).
pub fn assemble_parts(parts: &Vec<Vec<u8>>) -> (r: Vec<u8>)
    ensures
        r@ == spec_assemble(payload_views(parts@)),
{
    let ghost nets = payload_views(parts@);
    let mut result: Vec<u8> = Vec::new();
    let mut k: u16 = 0;
    while k < 256
        invariant
            k <= 256,
            nets == payload_views(parts@),
            result@ == assembled_below(nets, k as nat),
        decreases 256 - k,
    {
        let mut j: usize = 0;
        let ghost before = result@;
        while j < parts.len()
            invariant
                j <= parts@.len(),
                k < 256,
                nets == payload_views(parts@),
                result@ == before + fragments_numbered(nets.take(j as int), k as int),
            decreases parts@.len() - j,
        {
            let d = &parts[j];
            proof {
                assert(nets.take(j + 1).drop_last() =~= nets.take(j as int));
                assert(nets.take(j + 1).last() == d@);
            }
            if d.len() > 0 && d[0] as u16 == k {
                let mut t: usize = 1;
                let ghost mid = result@;
                while t < d.len()
                    invariant
                        1 <= t <= d@.len(),
                        result@ == mid + d@.subrange(1, t as int),
                    decreases d@.len() - t,
                {
                    result.push(d[t]);
                    assert(d@.subrange(1, t + 1) =~= d@.subrange(1, t as int).push(d@[t as int]));
                    t = t + 1;
                }
                assert(d@.subrange(1, d@.len() as int) =~= d@.drop_first());
                assert(result@ =~= before + fragments_numbered(nets.take(j + 1), k as int));
            } else {
                assert(result@ =~= before + fragments_numbered(nets.take(j + 1), k as int));
            }
            j = j + 1;
        }
        assert(nets.take(parts@.len() as int) =~= nets);
        k = k + 1;
    }
    result
}

} // verus!
