//! Fountain codes (Luby Transform) for the swarm's genetic memory.
//!
//! A source block is cut into fixed-size symbols; every spore is the XOR of a
//! random set of source symbols, and a decoder peels spores of degree one to
//! recover the source symbols.

use vstd::prelude::*;
use rand::Rng;
use crate::crypto::digest::{blake3_digest, blake3_hash};

verus! {

/// Default size of one source symbol, in bytes.
pub const DEFAULT_SYMBOL_SIZE: usize = 1024;

/// Degree distribution of the LT code.
#[derive(Debug, Clone, Copy, PartialEq, Eq, Structural)]
pub enum DegreeDistribution {
    Soliton,
    RobustSoliton,
    Binomial,
    Fixed,
}

impl Default for DegreeDistribution {
    fn default() -> (d: Self)
        ensures
            d == DegreeDistribution::RobustSoliton,
    {
        DegreeDistribution::RobustSoliton
    }
}

/// An encoded symbol (a spore).
#[derive(Debug, Clone)]
pub struct EncodedSymbol {
    pub index: u32,
    pub degree: u16,
    pub neighbors: Vec<u32>,
    pub data: Vec<u8>,
    pub checksum: u32,
}

/// A source block cut into symbols.
#[derive(Debug, Clone)]
pub struct SourceBlock {
    pub id: [u8; 32],
    pub symbols: Vec<Vec<u8>>,
    pub symbol_count: usize,
    pub total_size: usize,
}

/// The encoder.
pub struct FountainCodec {
    symbol_size: usize,
    degree_distribution: DegreeDistribution,
    next_index: u32,
}

// ---------------------------------------------------------------------------
// Specifications
// ---------------------------------------------------------------------------

/// Sum of all bytes, wrapping at 2^32.
pub open spec fn spec_checksum(data: Seq<u8>) -> u32
    decreases data.len(),
{
    if data.len() == 0 {
        0u32
    } else {
        spec_checksum(data.drop_last()).wrapping_add(data.last() as u32)
    }
}

/// The checksum of joined data is the checksum of the parts added (wrapping at
/// 2^32), and the checksum of one byte is that byte: it is the byte sum.
pub proof fn lemma_checksum_sum(a: Seq<u8>, b: Seq<u8>)
    ensures
        spec_checksum(a + b) == spec_checksum(a).wrapping_add(spec_checksum(b)),
        b.len() == 1 ==> spec_checksum(b) == b[0] as u32,
    decreases b.len(),
{
    if b.len() == 0 {
        assert(a + b =~= a);
    } else {
        lemma_checksum_sum(a, b.drop_last());
        assert((a + b).drop_last() =~= a + b.drop_last());
        let x = spec_checksum(a);
        let y = spec_checksum(b.drop_last());
        let z = b.last() as u32;
        assert(x.wrapping_add(y).wrapping_add(z) == x.wrapping_add(y.wrapping_add(z)));
        if b.len() == 1 {
            assert(b.drop_last() =~= Seq::<u8>::empty());
        }
    }
}

/// Number of symbols of size `size` needed for `len` bytes.
pub open spec fn spec_symbol_count(len: nat, size: nat) -> nat {
    if size == 0 {
        0
    } else {
        ((len + size - 1) as nat) / size
    }
}

/// Symbol `k` of `data`: `size` bytes from offset `k * size`, padded with zeros.
pub open spec fn spec_chunk(data: Seq<u8>, k: int, size: nat) -> Seq<u8> {
    Seq::new(size, |j: int| if k * size + j < data.len() { data[k * size + j] } else { 0u8 })
}

/// `data` cut into symbols of `size` bytes, the last one padded with zeros.
pub open spec fn spec_split(data: Seq<u8>, size: nat) -> Seq<Seq<u8>> {
    Seq::new(spec_symbol_count(data.len(), size), |k: int| spec_chunk(data, k, size))
}

/// The views of a vector of byte vectors.
pub open spec fn bytes_views(v: Seq<Vec<u8>>) -> Seq<Seq<u8>> {
    v.map_values(|x: Vec<u8>| x@)
}

/// Byte `i` of `s`, or zero past its end.
pub open spec fn byte_at(s: Seq<u8>, i: int) -> u8 {
    if 0 <= i < s.len() {
        s[i]
    } else {
        0u8
    }
}

/// XOR of byte `i` of the source symbols listed in `nb`.
pub open spec fn xor_fold(src: Seq<Seq<u8>>, nb: Seq<u32>, i: int) -> u8
    decreases nb.len(),
{
    if nb.len() == 0 {
        0u8
    } else {
        xor_fold(src, nb.drop_last(), i) ^ byte_at(src[nb.last() as int], i)
    }
}

/// The `size`-byte XOR of the source symbols listed in `nb`.
pub open spec fn spec_xor_combine(src: Seq<Seq<u8>>, nb: Seq<u32>, size: nat) -> Seq<u8> {
    Seq::new(size, |i: int| xor_fold(src, nb, i))
}

/// `nb` is strictly increasing and every entry is below `count`.
pub open spec fn sorted_below(nb: Seq<u32>, count: nat) -> bool {
    &&& forall|i: int, j: int| 0 <= i < j < nb.len() ==> nb[i] < nb[j]
    &&& forall|i: int| 0 <= i < nb.len() ==> (nb[i] as nat) < count
}

impl SourceBlock {
    /// The symbols of the block as byte strings.
    pub open spec fn symbols_view(&self) -> Seq<Seq<u8>> {
        bytes_views(self.symbols@)
    }
}

// ---------------------------------------------------------------------------
// Outside calls
// ---------------------------------------------------------------------------

/// Calls `rand::Rng::gen_range(0..n)` on the thread-local generator.
/// Trusted: the result lies in `0..n` (it depends on chance, so nothing more is stated).
#[verifier::external_body]
fn random_below(n: usize) -> (r: usize)
    requires
        n > 0,
    ensures
        r < n,
{
    rand::thread_rng().gen_range(0..n)
}

// ---------------------------------------------------------------------------
// Helpers
// ---------------------------------------------------------------------------

/// Sum of the bytes of `data`, wrapping on overflow.
pub fn calculate_checksum(data: &[u8]) -> (c: u32)
    ensures
        c == spec_checksum(data@),
{
    let mut acc: u32 = 0;
    let mut i: usize = 0;
    while i < data.len()
        invariant
            i <= data.len(),
            acc == spec_checksum(data@.take(i as int)),
        decreases data.len() - i,
    {
        assert(data@.take(i as int + 1).drop_last() =~= data@.take(i as int));
        acc = acc.wrapping_add(data[i] as u32);
        i = i + 1;
    }
    assert(data@.take(i as int) =~= data@);
    acc
}

/// XOR with zero is the identity.
pub proof fn lemma_xor_zero(a: u8)
    ensures
        a ^ 0u8 == a,
{
    assert(a ^ 0u8 == a) by (bit_vector);
}

proof fn lemma_symbol_count(len: nat, size: nat, n: nat)
    requires
        size > 0,
        n * size >= len,
        n == 0 || (n - 1) * size < len,
    ensures
        n == spec_symbol_count(len, size),
{
    let q = ((len + size - 1) as nat) / size;
    let r = ((len + size - 1) as nat) % size;
    vstd::arithmetic::div_mod::lemma_fundamental_div_mod((len + size - 1) as int, size as int);
    assert(len + size - 1 == q * size + r);
    if n > q {
        assert(n - 1 >= q);
        vstd::arithmetic::mul::lemma_mul_inequality(q as int, (n - 1) as int, size as int);
    } else if n < q {
        assert(n + 1 <= q);
        vstd::arithmetic::mul::lemma_mul_inequality((n + 1) as int, q as int, size as int);
        vstd::arithmetic::mul::lemma_mul_is_distributive_add_other_way(size as int, n as int, 1);
    }
}

impl FountainCodec {
    /// The size of one source symbol.
    pub closed spec fn symbol_size_spec(&self) -> usize {
        self.symbol_size
    }

    /// The degree distribution.
    pub closed spec fn distribution_spec(&self) -> DegreeDistribution {
        self.degree_distribution
    }

    /// The index the next spore will carry.
    pub closed spec fn next_index_spec(&self) -> u32 {
        self.next_index
    }

    /// An encoder with 1 KiB symbols and the robust soliton distribution.
    pub fn new() -> (c: Self)
        ensures
            c.symbol_size_spec() == DEFAULT_SYMBOL_SIZE,
            c.distribution_spec() == DegreeDistribution::RobustSoliton,
            c.next_index_spec() == 0,
    {
        FountainCodec {
            symbol_size: DEFAULT_SYMBOL_SIZE,
            degree_distribution: DegreeDistribution::default(),
            next_index: 0,
        }
    }

    /// An encoder with symbols of `size` bytes.
    pub fn with_symbol_size(size: usize) -> (c: Self)
        ensures
            c.symbol_size_spec() == size,
            c.distribution_spec() == DegreeDistribution::RobustSoliton,
            c.next_index_spec() == 0,
    {
        let mut codec = Self::new();
        codec.symbol_size = size;
        codec
    }

    /// An encoder with the given degree distribution.
    pub fn with_distribution(dist: DegreeDistribution) -> (c: Self)
        ensures
            c.symbol_size_spec() == DEFAULT_SYMBOL_SIZE,
            c.distribution_spec() == dist,
            c.next_index_spec() == 0,
    {
        let mut codec = Self::new();
        codec.degree_distribution = dist;
        codec
    }

    /// The size of one source symbol.
    pub fn symbol_size(&self) -> (s: usize)
        ensures
            s == self.symbol_size_spec(),
    {
        self.symbol_size
    }

    /// The degree distribution.
    pub fn distribution(&self) -> (d: DegreeDistribution)
        ensures
            d == self.distribution_spec(),
    {
        self.degree_distribution
    }

    /// An empty decoder for this codec's symbol size.
    pub fn create_decoder(&self) -> (d: FountainDecoder)
        ensures
            d.wf(),
            !d.has_state(),
            d.symbol_size_spec() == self.symbol_size_spec(),
            d.received().len() == 0,
            d.decoded().len() == 0,
            forall|src: Seq<Seq<u8>>, size: nat| source_fits(src, size) ==> #[trigger] d.consistent_with(src, size),
    {
        FountainDecoder::new(self.symbol_size)
    }

    /// Cuts `data` into symbols of `symbol_size` bytes, padding the last with zeros.
    fn split_into_symbols(&self, data: &[u8]) -> (symbols: Vec<Vec<u8>>)
        requires
            self.symbol_size > 0,
            data.len() + self.symbol_size <= usize::MAX,
        ensures
            bytes_views(symbols@) == spec_split(data@, self.symbol_size as nat),
    {
        let size = self.symbol_size;
        let mut symbols: Vec<Vec<u8>> = Vec::new();
        let mut start: usize = 0;
        proof {
            vstd::arithmetic::mul::lemma_mul_basics(size as int);
        }
        while start < data.len()
            invariant
                size == self.symbol_size,
                size > 0,
                data.len() + size <= usize::MAX,
                start == symbols.len() * size,
                start <= data.len() + size,
                symbols.len() > 0 ==> (symbols.len() - 1) * size < data.len(),
                forall|k: int|
                    0 <= k < symbols.len() ==> #[trigger] symbols@[k]@ == spec_chunk(
                        data@,
                        k,
                        size as nat,
                    ),
            decreases data.len() + size - start,
        {
            let ghost k = symbols.len() as int;
            let mut sym: Vec<u8> = Vec::new();
            let mut j: usize = 0;
            while j < size
                invariant
                    j <= size,
                    start == k * size,
                    start <= data.len(),
                    data.len() + size <= usize::MAX,
                    sym.len() == j,
                    forall|t: int|
                        0 <= t < j ==> #[trigger] sym@[t] == (if k * size + t < data.len() {
                            data@[k * size + t]
                        } else {
                            0u8
                        }),
                decreases size - j,
            {
                if start + j < data.len() {
                    sym.push(data[start + j]);
                } else {
                    sym.push(0u8);
                }
                j = j + 1;
            }
            assert(sym@ =~= spec_chunk(data@, k, size as nat));
            symbols.push(sym);
            proof {
                vstd::arithmetic::mul::lemma_mul_is_distributive_add_other_way(
                    size as int,
                    k,
                    1,
                );
            }
            start = start + size;
        }
        proof {
            lemma_symbol_count(data.len() as nat, size as nat, symbols.len() as nat);
        }
        assert(bytes_views(symbols@) =~= spec_split(data@, size as nat));
        symbols
    }

    /// Splits `data` into a source block identified by its BLAKE3 digest.
    pub fn encode(&mut self, data: &[u8]) -> (block: SourceBlock)
        requires
            old(self).symbol_size_spec() > 0,
            data.len() + old(self).symbol_size_spec() <= usize::MAX,
        ensures
            *final(self) == *old(self),
            block.id@ == blake3_digest(data@),
            block.symbols_view() == spec_split(data@, old(self).symbol_size_spec() as nat),
            source_fits(block.symbols_view(), old(self).symbol_size_spec() as nat),
            block.symbol_count == block.symbols@.len(),
            block.total_size == data.len(),
    {
        let symbols = self.split_into_symbols(data);
        let symbol_count = symbols.len();
        let id = blake3_hash(data);
        SourceBlock { id, symbols, symbol_count, total_size: data.len() }
    }

    /// Picks `degree` distinct source indices below `symbol_count`, uniformly at random,
    /// and returns them in increasing order.
    fn select_neighbors(&mut self, degree: usize, symbol_count: usize) -> (nb: Vec<u32>)
        requires
            degree <= symbol_count,
            symbol_count <= u32::MAX,
        ensures
            *final(self) == *old(self),
            nb@.len() == degree,
            sorted_below(nb@, symbol_count as nat),
    {
        // Partial Fisher-Yates shuffle of 0..symbol_count.
        let mut pool: Vec<u32> = Vec::new();
        let mut v: usize = 0;
        while v < symbol_count
            invariant
                v <= symbol_count <= u32::MAX,
                pool.len() == v,
                forall|i: int| 0 <= i < v ==> pool@[i] == i,
            decreases symbol_count - v,
        {
            pool.push(v as u32);
            v = v + 1;
        }
        let mut t: usize = 0;
        while t < degree
            invariant
                t <= degree <= symbol_count,
                pool.len() == symbol_count,
                forall|i: int| 0 <= i < pool.len() ==> (#[trigger] pool@[i] as nat) < symbol_count,
                forall|i: int, j: int|
                    0 <= i < j < pool.len() ==> #[trigger] pool@[i] != #[trigger] pool@[j],
            decreases degree - t,
        {
            let j = t + random_below(symbol_count - t);
            let a = pool[t];
            let b = pool[j];
            pool.set(t, b);
            pool.set(j, a);
            t = t + 1;
        }
        // Mark the chosen indices and read them back in increasing order.
        let mut chosen: Vec<bool> = Vec::new();
        let mut v: usize = 0;
        while v < symbol_count
            invariant
                v <= symbol_count,
                chosen.len() == v,
                forall|i: int| 0 <= i < v ==> !chosen@[i],
            decreases symbol_count - v,
        {
            chosen.push(false);
            v = v + 1;
        }
        let mut t: usize = 0;
        while t < degree
            invariant
                t <= degree <= symbol_count,
                pool.len() == symbol_count,
                chosen.len() == symbol_count,
                forall|i: int| 0 <= i < pool.len() ==> (#[trigger] pool@[i] as nat) < symbol_count,
                forall|i: int, j: int|
                    0 <= i < j < pool.len() ==> #[trigger] pool@[i] != #[trigger] pool@[j],
                forall|v: int|
                    0 <= v < symbol_count ==> (#[trigger] chosen@[v] <==> exists|i: int|
                        0 <= i < t && pool@[i] == v),
            decreases degree - t,
        {
            let p = pool[t] as usize;
            chosen.set(p, true);
            t = t + 1;
            assert forall|v: int| 0 <= v < symbol_count implies (#[trigger] chosen@[v]
                <==> exists|i: int| 0 <= i < t && pool@[i] == v) by {
                if v == p {
                    assert(pool@[t - 1] == v);
                } else if chosen@[v] {
                    let i = choose|i: int| 0 <= i < t - 1 && pool@[i] == v;
                    assert(0 <= i < t && pool@[i] == v);
                }
            }
        }
        let mut nb: Vec<u32> = Vec::new();
        let mut v: usize = 0;
        while v < symbol_count
            invariant
                v <= symbol_count <= u32::MAX,
                chosen.len() == symbol_count,
                sorted_below(nb@, symbol_count as nat),
                forall|i: int| 0 <= i < nb.len() ==> (#[trigger] nb@[i] as int) < v,
                forall|i: int| 0 <= i < nb.len() ==> chosen@[#[trigger] nb@[i] as int],
                forall|w: int| 0 <= w < v && #[trigger] chosen@[w] ==> nb@.contains(w as u32),
            decreases symbol_count - v,
        {
            if chosen[v] {
                let ghost old_nb = nb@;
                nb.push(v as u32);
                proof {
                    assert(nb@[nb.len() - 1] == v as u32);
                    assert forall|w: int| 0 <= w <= v && #[trigger] chosen@[w] implies nb@.contains(
                        w as u32,
                    ) by {
                        if w < v {
                            let i = choose|i: int| 0 <= i < old_nb.len() && old_nb[i] == w as u32;
                            assert(nb@[i] == w as u32);
                        } else {
                            assert(nb@[nb.len() - 1] == w as u32);
                        }
                    }
                }
            }
            v = v + 1;
        }
        proof {
            // The chosen set and the first `degree` pool entries have the same elements.
            let pre = pool@.take(degree as int);
            assert(pre.no_duplicates());
            assert(nb@.no_duplicates());
            assert forall|x: u32| #[trigger] nb@.to_set().contains(x) <==> pre.to_set().contains(
                x,
            ) by {
                if nb@.contains(x) {
                    let i = choose|i: int| 0 <= i < nb.len() && nb@[i] == x;
                    assert(chosen@[x as int]);
                    let k = choose|k: int| 0 <= k < degree && pool@[k] == x;
                    assert(pre[k] == x);
                }
                if pre.contains(x) {
                    let k = choose|k: int| 0 <= k < pre.len() && pre[k] == x;
                    assert(pool@[k] == x);
                    assert(chosen@[x as int]);
                }
            }
            assert(nb@.to_set() =~= pre.to_set());
            nb@.unique_seq_to_set();
            pre.unique_seq_to_set();
        }
        nb
    }

    /// XOR of the listed source symbols, `symbol_size` bytes long.
    fn xor_symbols(&self, block: &SourceBlock, neighbors: &Vec<u32>) -> (data: Vec<u8>)
        requires
            forall|i: int| 0 <= i < neighbors.len() ==> (#[trigger] neighbors@[i] as int) < block.symbols.len(),
        ensures
            data@ == spec_xor_combine(block.symbols_view(), neighbors@, self.symbol_size as nat),
    {
        let size = self.symbol_size;
        let ghost src = block.symbols_view();
        let mut data: Vec<u8> = Vec::new();
        let mut i: usize = 0;
        while i < size
            invariant
                i <= size,
                data.len() == i,
                forall|t: int| 0 <= t < i ==> data@[t] == 0u8,
            decreases size - i,
        {
            data.push(0u8);
            i = i + 1;
        }
        assert(data@ =~= Seq::new(size as nat, |b: int| xor_fold(src, neighbors@.take(0), b)));
        let mut t: usize = 0;
        while t < neighbors.len()
            invariant
                t <= neighbors.len(),
                src == block.symbols_view(),
                data.len() == size,
                forall|i: int| 0 <= i < neighbors.len() ==> (#[trigger] neighbors@[i] as int) < block.symbols.len(),
                data@ =~= Seq::new(size as nat, |b: int| xor_fold(src, neighbors@.take(t as int), b)),
            decreases neighbors.len() - t,
        {
            let n = neighbors[t] as usize;
            let sym = &block.symbols[n];
            let ghost before = data@;
            let mut b: usize = 0;
            while b < sym.len()
                invariant
                    b <= sym.len(),
                    data.len() == size,
                    sym@ == src[n as int],
                    forall|x: int| 0 <= x < size ==> #[trigger] data@[x] == (if x < b {
                        before[x] ^ byte_at(src[n as int], x)
                    } else {
                        before[x]
                    }),
                decreases sym.len() - b,
            {
                if b < data.len() {
                    let v = data[b] ^ sym[b];
                    data.set(b, v);
                }
                b = b + 1;
            }
            proof {
                let nt = neighbors@.take(t as int + 1);
                assert(nt.drop_last() =~= neighbors@.take(t as int));
                assert(nt.last() == n as u32);
                assert forall|x: int| 0 <= x < size implies data@[x] == xor_fold(src, nt, x) by {
                    if x >= sym.len() {
                        assert(byte_at(src[n as int], x) == 0u8);
                        lemma_xor_zero(before[x]);
                    }
                }
            }
            t = t + 1;
        }
        assert(neighbors@.take(neighbors.len() as int) =~= neighbors@);
        data
    }

    /// Generates the next spore of `block`: the XOR of `degree` distinct random source
    /// symbols. The degree is drawn from the codec's distribution by the caller.
    pub fn generate_symbol(&mut self, block: &SourceBlock, degree: usize) -> (s: EncodedSymbol)
        requires
            1 <= degree <= block.symbol_count,
            block.symbol_count <= block.symbols.len(),
            block.symbol_count <= u32::MAX,
            degree <= u16::MAX,
        ensures
            final(self).symbol_size_spec() == old(self).symbol_size_spec(),
            final(self).distribution_spec() == old(self).distribution_spec(),
            final(self).next_index_spec() == old(self).next_index_spec().wrapping_add(1),
            s.index == old(self).next_index_spec(),
            s.degree == degree,
            s.neighbors@.len() == degree,
            sorted_below(s.neighbors@, block.symbol_count as nat),
            s.data@ == spec_xor_combine(
                block.symbols_view(),
                s.neighbors@,
                old(self).symbol_size_spec() as nat,
            ),
            s.checksum == spec_checksum(s.data@),
            source_fits(block.symbols_view(), old(self).symbol_size_spec() as nat)
                && block.symbol_count == block.symbols.len() ==> spore_matches(
                s,
                block.symbols_view(),
                old(self).symbol_size_spec() as nat,
            ),
    {
        let neighbors = self.select_neighbors(degree, block.symbol_count);
        let data = self.xor_symbols(block, &neighbors);
        let checksum = calculate_checksum(data.as_slice());
        let index = self.next_index;
        self.next_index = self.next_index.wrapping_add(1);
        let s = EncodedSymbol { index, degree: degree as u16, neighbors, data, checksum };
        proof {
            assert(s.neighbors@.no_duplicates()) by {
                assert forall|i: int, j: int|
                    0 <= i < s.neighbors@.len() && 0 <= j < s.neighbors@.len() && i != j
                    implies s.neighbors@[i] != s.neighbors@[j] by {
                    if i < j {
                        assert(s.neighbors@[i] < s.neighbors@[j]);
                    } else {
                        assert(s.neighbors@[j] < s.neighbors@[i]);
                    }
                }
            }
        }
        s
    }

    /// Generates one spore of `block` for each entry of `degrees`.
    pub fn generate_spores(&mut self, block: &SourceBlock, degrees: &[usize]) -> (spores: Vec<
        EncodedSymbol,
    >)
        requires
            block.symbol_count <= block.symbols.len(),
            block.symbol_count <= u32::MAX,
            forall|i: int|
                0 <= i < degrees.len() ==> 1 <= #[trigger] degrees@[i] <= block.symbol_count
                    && degrees@[i] <= u16::MAX,
        ensures
            final(self).symbol_size_spec() == old(self).symbol_size_spec(),
            final(self).distribution_spec() == old(self).distribution_spec(),
            spores@.len() == degrees@.len(),
            forall|i: int|
                0 <= i < spores.len() ==> {
                    let s = #[trigger] spores@[i];
                    &&& s.degree == degrees@[i]
                    &&& s.neighbors@.len() == degrees@[i]
                    &&& sorted_below(s.neighbors@, block.symbol_count as nat)
                    &&& s.data@ == spec_xor_combine(
                        block.symbols_view(),
                        s.neighbors@,
                        old(self).symbol_size_spec() as nat,
                    )
                    &&& s.checksum == spec_checksum(s.data@)
                },
    {
        let mut spores: Vec<EncodedSymbol> = Vec::new();
        let mut i: usize = 0;
        while i < degrees.len()
            invariant
                i <= degrees.len(),
                spores.len() == i,
                self.symbol_size_spec() == old(self).symbol_size_spec(),
                self.distribution_spec() == old(self).distribution_spec(),
                block.symbol_count <= block.symbols.len(),
                block.symbol_count <= u32::MAX,
                forall|i: int|
                    0 <= i < degrees.len() ==> 1 <= #[trigger] degrees@[i] <= block.symbol_count
                        && degrees@[i] <= u16::MAX,
                forall|k: int|
                    0 <= k < spores.len() ==> {
                        let s = #[trigger] spores@[k];
                        &&& s.degree == degrees@[k]
                        &&& s.neighbors@.len() == degrees@[k]
                        &&& sorted_below(s.neighbors@, block.symbol_count as nat)
                        &&& s.data@ == spec_xor_combine(
                            block.symbols_view(),
                            s.neighbors@,
                            old(self).symbol_size_spec() as nat,
                        )
                        &&& s.checksum == spec_checksum(s.data@)
                    },
            decreases degrees.len() - i,
        {
            let s = self.generate_symbol(block, degrees[i]);
            spores.push(s);
            i = i + 1;
        }
        spores
    }
}


// ---------------------------------------------------------------------------
// Decoder
// ---------------------------------------------------------------------------

/// Decoding state of one source block.
struct DecodingState {
    symbol_count: usize,
    received_symbols: Vec<Option<EncodedSymbol>>,
    decoded_symbols: Vec<Option<Vec<u8>>>,
    graph: Vec<Vec<usize>>,
    is_decoded: bool,
}

/// Peeling decoder. Every spore is filed under the all-zero block id.
pub struct FountainDecoder {
    symbol_size: usize,
    state: Option<DecodingState>,
}

/// The decoded source symbols as byte strings.
pub open spec fn decoded_view(d: Seq<Option<Vec<u8>>>) -> Seq<Option<Seq<u8>>> {
    d.map_values(|o: Option<Vec<u8>>| match o {
        Some(v) => Some(v@),
        None => None,
    })
}

/// Every source symbol is decoded.
pub open spec fn all_decoded(d: Seq<Option<Seq<u8>>>) -> bool {
    forall|i: int| 0 <= i < d.len() ==> (#[trigger] d[i]) is Some
}

/// Number of decoded source symbols.
pub open spec fn count_decoded(d: Seq<Option<Seq<u8>>>) -> nat
    decreases d.len(),
{
    if d.len() == 0 {
        0
    } else {
        count_decoded(d.drop_last()) + if d.last() is Some {
            1nat
        } else {
            0nat
        }
    }
}

/// Concatenation of the decoded source symbols (missing ones count as empty).
pub open spec fn concat_decoded(d: Seq<Option<Seq<u8>>>) -> Seq<u8>
    decreases d.len(),
{
    if d.len() == 0 {
        Seq::empty()
    } else {
        concat_decoded(d.drop_last()) + match d.last() {
            Some(v) => v,
            None => Seq::empty(),
        }
    }
}

/// `s` without its trailing zero bytes.
pub open spec fn strip_trailing_zeros(s: Seq<u8>) -> Seq<u8>
    decreases s.len(),
{
    if s.len() > 0 && s.last() == 0u8 {
        strip_trailing_zeros(s.drop_last())
    } else {
        s
    }
}

/// `nb` with every occurrence of `x` removed.
pub open spec fn remove_all(nb: Seq<u32>, x: int) -> Seq<u32>
    decreases nb.len(),
{
    if nb.len() == 0 {
        Seq::empty()
    } else {
        let r = remove_all(nb.drop_last(), x);
        if nb.last() as int == x {
            r
        } else {
            r.push(nb.last())
        }
    }
}

/// Spore `r` can be peeled: it has degree one and names a source symbol not yet decoded.
pub open spec fn peelable(r: Option<EncodedSymbol>, decoded: Seq<Option<Seq<u8>>>) -> bool {
    match r {
        Some(s) => s.degree == 1 && s.neighbors@.len() > 0 && (s.neighbors@[0] as int)
            < decoded.len() && decoded[s.neighbors@[0] as int] is None,
        None => false,
    }
}

/// No received spore can be peeled any more.
pub open spec fn stalled(
    received: Seq<Option<EncodedSymbol>>,
    decoded: Seq<Option<Seq<u8>>>,
) -> bool {
    forall|i: int| 0 <= i < received.len() ==> !peelable(#[trigger] received[i], decoded)
}

/// One more than the largest neighbour of a spore (one when it has none).
pub open spec fn spec_block_width(nb: Seq<u32>) -> nat
    decreases nb.len(),
{
    if nb.len() == 0 {
        1
    } else {
        let w = spec_block_width(nb.drop_last());
        if nb.last() as nat + 1 > w {
            nb.last() as nat + 1
        } else {
            w
        }
    }
}

proof fn lemma_count_decoded_bound(d: Seq<Option<Seq<u8>>>)
    ensures
        count_decoded(d) <= d.len(),
        count_decoded(d) == d.len() <==> all_decoded(d),
    decreases d.len(),
{
    if d.len() > 0 {
        lemma_count_decoded_bound(d.drop_last());
        if all_decoded(d) {
            assert(all_decoded(d.drop_last()));
        }
        if all_decoded(d.drop_last()) && d.last() is Some {
            assert forall|i: int| 0 <= i < d.len() implies (#[trigger] d[i]) is Some by {
                if i < d.len() - 1 {
                    assert(d.drop_last()[i] is Some);
                }
            }
        }
        if !all_decoded(d.drop_last()) {
            let i = choose|i: int| 0 <= i < d.len() - 1 && !(d.drop_last()[i] is Some);
            assert(!(d[i] is Some));
        }
    }
}

proof fn lemma_count_decoded_fill(d: Seq<Option<Seq<u8>>>, k: int, v: Seq<u8>)
    requires
        0 <= k < d.len(),
        d[k] is None,
    ensures
        count_decoded(d.update(k, Some(v))) == count_decoded(d) + 1,
    decreases d.len(),
{
    let e = d.update(k, Some(v));
    if k == d.len() - 1 {
        assert(e.drop_last() =~= d.drop_last());
    } else {
        assert(e.drop_last() =~= d.drop_last().update(k, Some(v)));
        lemma_count_decoded_fill(d.drop_last(), k, v);
    }
}

/// Every source symbol is `size` bytes long.
pub open spec fn source_fits(src: Seq<Seq<u8>>, size: nat) -> bool {
    forall|i: int| 0 <= i < src.len() ==> (#[trigger] src[i]).len() == size
}

/// Spore `r` is the XOR of the distinct source symbols it names, and its degree
/// counts them.
pub open spec fn spore_matches(r: EncodedSymbol, src: Seq<Seq<u8>>, size: nat) -> bool {
    &&& r.data@.len() == size
    &&& r.degree as nat == r.neighbors@.len()
    &&& r.neighbors@.no_duplicates()
    &&& forall|k: int| 0 <= k < r.neighbors@.len() ==> (#[trigger] r.neighbors@[k] as int) < src.len()
    &&& r.data@ == spec_xor_combine(src, r.neighbors@, size)
}

/// The concatenation of the source symbols.
pub open spec fn concat_source(src: Seq<Seq<u8>>) -> Seq<u8>
    decreases src.len(),
{
    if src.len() == 0 {
        Seq::empty()
    } else {
        concat_source(src.drop_last()) + src.last()
    }
}

/// Every decoded symbol equals the source symbol at its place.
pub open spec fn decoded_agree(d: Seq<Option<Seq<u8>>>, src: Seq<Seq<u8>>) -> bool {
    forall|i: int| 0 <= i < d.len() && (#[trigger] d[i]) is Some ==> d[i] == Some(src[i])
}

/// Every received spore matches the source block.
pub open spec fn spores_agree(rcv: Seq<Option<EncodedSymbol>>, src: Seq<Seq<u8>>, size: nat) -> bool {
    forall|i: int|
        0 <= i < rcv.len() && (#[trigger] rcv[i]) is Some ==> spore_matches(rcv[i]->0, src, size)
}

/// The dependency list of source `n` names distinct received spores that all contain `n`.
pub open spec fn graph_exact(gn: Seq<usize>, n: int, rcv: Seq<Option<EncodedSymbol>>) -> bool {
    &&& gn.no_duplicates()
    &&& forall|k: int|
        0 <= k < gn.len() ==> {
            &&& (#[trigger] gn[k] as int) < rcv.len()
            &&& rcv[gn[k] as int] is Some
            &&& rcv[gn[k] as int]->0.neighbors@.contains(n as u32)
        }
}

/// The dependency lists of all undecoded sources are exact.
pub open spec fn graphs_exact(
    g: Seq<Vec<usize>>,
    d: Seq<Option<Seq<u8>>>,
    rcv: Seq<Option<EncodedSymbol>>,
) -> bool {
    forall|n: int|
        0 <= n < g.len() && n < d.len() && (#[trigger] d[n]) is None ==> graph_exact(g[n]@, n, rcv)
}

/// XOR identities used by the peeling proof.
pub proof fn lemma_xor_facts(a: u8, b: u8, c: u8)
    ensures
        (a ^ b) ^ c == (a ^ c) ^ b,
        (a ^ b) ^ b == a,
        0u8 ^ a == a,
{
    assert((a ^ b) ^ c == (a ^ c) ^ b) by (bit_vector);
    assert((a ^ b) ^ b == a) by (bit_vector);
    assert(0u8 ^ a == a) by (bit_vector);
}

/// What `remove_all` keeps.
pub proof fn lemma_remove_all_contains(nb: Seq<u32>, x: int, v: u32)
    ensures
        remove_all(nb, x).contains(v) <==> nb.contains(v) && v as int != x,
    decreases nb.len(),
{
    if nb.len() > 0 {
        lemma_remove_all_contains(nb.drop_last(), x, v);
        let r = remove_all(nb.drop_last(), x);
        if remove_all(nb, x).contains(v) {
            let k = choose|k: int| 0 <= k < remove_all(nb, x).len() && remove_all(nb, x)[k] == v;
            if nb.last() as int == x {
                assert(r.contains(v));
            } else if k < r.len() {
                assert(r[k] == v);
            }
            if r.contains(v) {
                let j = choose|j: int| 0 <= j < nb.drop_last().len() && nb.drop_last()[j] == v;
                assert(nb[j] == v);
            }
        }
        if nb.contains(v) && v as int != x {
            let j = choose|j: int| 0 <= j < nb.len() && nb[j] == v;
            if j < nb.len() - 1 {
                assert(nb.drop_last()[j] == v);
                if nb.last() as int != x {
                    let k = choose|k: int| 0 <= k < r.len() && r[k] == v;
                    assert(r.push(nb.last())[k] == v);
                }
            } else {
                assert(r.push(nb.last())[r.len() as int] == v);
            }
        }
    }
}

/// `remove_all` keeps a list free of duplicates, and removes exactly one entry when
/// the removed value occurs once.
pub proof fn lemma_remove_all_distinct(nb: Seq<u32>, x: int)
    requires
        nb.no_duplicates(),
    ensures
        remove_all(nb, x).no_duplicates(),
        nb.contains(x as u32) && 0 <= x <= u32::MAX ==> remove_all(nb, x).len() == nb.len() - 1,
        !nb.contains(x as u32) && 0 <= x <= u32::MAX ==> remove_all(nb, x) == nb,
    decreases nb.len(),
{
    if nb.len() > 0 {
        let p = nb.drop_last();
        assert(p.no_duplicates());
        lemma_remove_all_distinct(p, x);
        let r = remove_all(p, x);
        if nb.last() as int != x {
            lemma_remove_all_contains(p, x, nb.last());
            assert(!p.contains(nb.last())) by {
                if p.contains(nb.last()) {
                    let j = choose|j: int| 0 <= j < p.len() && p[j] == nb.last();
                    assert(nb[j] == nb[nb.len() - 1]);
                }
            }
            assert forall|i: int, j: int|
                0 <= i < j < r.push(nb.last()).len() implies r.push(nb.last())[i] != r.push(
                nb.last(),
            )[j] by {
                if j == r.len() {
                    if r[i] == nb.last() {
                        assert(r.contains(nb.last()));
                    }
                }
            }
            if 0 <= x <= u32::MAX {
                if nb.contains(x as u32) {
                    let j = choose|j: int| 0 <= j < nb.len() && nb[j] == x as u32;
                    assert(p[j] == x as u32);
                }
                if !nb.contains(x as u32) {
                    assert forall|j: int| 0 <= j < p.len() implies p[j] != x as u32 by {
                        assert(nb[j] == p[j]);
                    }
                    assert(!p.contains(x as u32));
                    assert(r == p);
                    assert(r.push(nb.last()) =~= nb);
                }
            }
        } else {
            if 0 <= x <= u32::MAX {
                assert(!p.contains(x as u32)) by {
                    if p.contains(x as u32) {
                        let j = choose|j: int| 0 <= j < p.len() && p[j] == x as u32;
                        assert(nb[j] == nb[nb.len() - 1]);
                    }
                }
                assert(r == p);
                assert(nb.contains(x as u32)) by {
                    assert(nb[nb.len() - 1] == x as u32);
                }
            }
        }
    }
}

/// Removing a source from a spore's list XORs it out of the spore's bytes.
pub proof fn lemma_xor_fold_remove(src: Seq<Seq<u8>>, nb: Seq<u32>, x: u32, i: int)
    requires
        nb.no_duplicates(),
        nb.contains(x),
    ensures
        xor_fold(src, nb, i) == xor_fold(src, remove_all(nb, x as int), i) ^ byte_at(src[x as int], i),
    decreases nb.len(),
{
    let p = nb.drop_last();
    assert(p.no_duplicates());
    if nb.last() == x {
        lemma_remove_all_distinct(p, x as int);
        assert(!p.contains(x)) by {
            if p.contains(x) {
                let j = choose|j: int| 0 <= j < p.len() && p[j] == x;
                assert(nb[j] == nb[nb.len() - 1]);
            }
        }
    } else {
        assert(p.contains(x)) by {
            let j = choose|j: int| 0 <= j < nb.len() && nb[j] == x;
            assert(j < nb.len() - 1);
            assert(p[j] == x);
        }
        lemma_xor_fold_remove(src, p, x, i);
        let r = remove_all(p, x as int);
        assert(remove_all(nb, x as int) == r.push(nb.last()));
        assert(r.push(nb.last()).drop_last() =~= r);
        lemma_xor_facts(
            xor_fold(src, r, i),
            byte_at(src[x as int], i),
            byte_at(src[nb.last() as int], i),
        );
    }
}


/// A spore of degree one is a copy of the source symbol it names.
proof fn lemma_single_spore(r: EncodedSymbol, src: Seq<Seq<u8>>, size: nat)
    requires
        spore_matches(r, src, size),
        source_fits(src, size),
        r.degree == 1,
    ensures
        r.neighbors@.len() == 1,
        r.data@ == src[r.neighbors@[0] as int],
{
    let nb = r.neighbors@;
    let x = nb[0] as int;
    assert(nb.drop_last() =~= Seq::<u32>::empty());
    assert forall|i: int| 0 <= i < size implies r.data@[i] == src[x][i] by {
        assert(r.data@[i] == xor_fold(src, nb, i));
        assert(nb.last() == nb[0]);
        assert((nb[0] as int) < src.len());
        assert(src[x].len() == size);
        assert(xor_fold(src, nb.drop_last(), i) == 0u8);
        assert(byte_at(src[x], i) == src[x][i]);
        lemma_xor_facts(byte_at(src[x], i), 0u8, 0u8);
    }
    assert(r.data@ =~= src[x]);
}

/// XOR-ing a named source out of a spore, and dropping it from the list, keeps the
/// spore matching the source block.
proof fn lemma_reduce_spore(r: EncodedSymbol, r2: EncodedSymbol, src: Seq<Seq<u8>>, size: nat, x: int)
    requires
        spore_matches(r, src, size),
        source_fits(src, size),
        0 <= x < src.len(),
        x <= u32::MAX,
        r.neighbors@.contains(x as u32),
        r2.data@.len() == r.data@.len(),
        forall|i: int| 0 <= i < r.data@.len() ==> #[trigger] r2.data@[i] == r.data@[i] ^ byte_at(src[x], i),
        r2.degree as int == r.degree as int - 1,
        r2.neighbors@ == remove_all(r.neighbors@, x),
    ensures
        spore_matches(r2, src, size),
{
    let nb = r.neighbors@;
    lemma_remove_all_distinct(nb, x);
    assert forall|k: int| 0 <= k < r2.neighbors@.len() implies (#[trigger] r2.neighbors@[k] as int) < src.len() by {
        lemma_remove_all_contains(nb, x, r2.neighbors@[k]);
        assert(remove_all(nb, x).contains(r2.neighbors@[k]));
    }
    assert forall|i: int| 0 <= i < size implies r2.data@[i] == xor_fold(src, r2.neighbors@, i) by {
        lemma_xor_fold_remove(src, nb, x as u32, i);
        lemma_xor_facts(xor_fold(src, r2.neighbors@, i), byte_at(src[x], i), 0u8);
    }
    assert(r2.data@ =~= spec_xor_combine(src, r2.neighbors@, size));
}

/// Once every source symbol is decoded, the decoded symbols are the source block.
pub proof fn lemma_concat_agree(d: Seq<Option<Seq<u8>>>, src: Seq<Seq<u8>>)
    requires
        d.len() == src.len(),
        all_decoded(d),
        decoded_agree(d, src),
    ensures
        concat_decoded(d) == concat_source(src),
    decreases d.len(),
{
    if d.len() > 0 {
        assert(d[d.len() - 1] is Some);
        assert(all_decoded(d.drop_last())) by {
            assert forall|i: int| 0 <= i < d.len() - 1 implies (#[trigger] d.drop_last()[i]) is Some by {
                assert(d[i] is Some);
            }
        }
        assert(decoded_agree(d.drop_last(), src.drop_last())) by {
            assert forall|i: int| 0 <= i < d.len() - 1 && (#[trigger] d.drop_last()[i]) is Some implies d.drop_last()[i] == Some(src.drop_last()[i]) by {
                assert(d[i] is Some);
            }
        }
        lemma_concat_agree(d.drop_last(), src.drop_last());
    }
}

/// Source `n` is decoded in `d`.
pub open spec fn decoded_at(d: Seq<Option<Seq<u8>>>, n: u32) -> bool {
    (n as int) < d.len() && d[n as int] is Some
}

/// `b` keeps every decoded symbol of `a`, and has as many places.
pub open spec fn decoded_grows(a: Seq<Option<Seq<u8>>>, b: Seq<Option<Seq<u8>>>) -> bool {
    &&& a.len() == b.len()
    &&& forall|i: int| 0 <= i < a.len() && (#[trigger] a[i]) is Some ==> b[i] == a[i]
}

/// Slot `b` is what peeling made of slot `a`, the sources decoded in `d` being
/// known: an empty slot stays empty; a filed spore keeps its index, names no
/// source it did not name, and still names every source it named that `d` has
/// not decoded.
pub open spec fn spore_kept(a: Option<EncodedSymbol>, b: Option<EncodedSymbol>, d: Seq<Option<Seq<u8>>>) -> bool {
    match a {
        None => b is None,
        Some(s) => match b {
            None => false,
            Some(t) => {
                &&& t.index == s.index
                &&& forall|k: int|
                    0 <= k < t.neighbors@.len() ==> s.neighbors@.contains(#[trigger] t.neighbors@[k])
                &&& forall|k: int|
                    0 <= k < s.neighbors@.len() && !decoded_at(d, #[trigger] s.neighbors@[k])
                        ==> t.neighbors@.contains(s.neighbors@[k])
            },
        },
    }
}

/// Every slot of `b` is what peeling made of the same slot of `a` (see `spore_kept`).
pub open spec fn spores_kept(
    a: Seq<Option<EncodedSymbol>>,
    b: Seq<Option<EncodedSymbol>>,
    d: Seq<Option<Seq<u8>>>,
) -> bool {
    &&& a.len() == b.len()
    &&& forall|i: int| 0 <= i < a.len() ==> spore_kept(#[trigger] a[i], b[i], d)
}

/// No filed spore names a source that `after` has decoded and `before` had not.
pub open spec fn cleared(
    rcv: Seq<Option<EncodedSymbol>>,
    before: Seq<Option<Seq<u8>>>,
    after: Seq<Option<Seq<u8>>>,
) -> bool {
    forall|i: int, k: int|
        0 <= i < rcv.len() && rcv[i] is Some && 0 <= k < rcv[i]->0.neighbors@.len() ==> !(
        !decoded_at(before, #[trigger] rcv[i]->0.neighbors@[k]) && decoded_at(after, rcv[i]->0.neighbors@[k]))
}

/// Every filed spore that names an undecoded source is on that source's dependency list.
pub open spec fn graphs_complete(
    g: Seq<Vec<usize>>,
    d: Seq<Option<Seq<u8>>>,
    rcv: Seq<Option<EncodedSymbol>>,
) -> bool {
    forall|n: int, i: int|
        #![trigger g[n]@.contains(i as usize)]
        0 <= n < g.len() && n < d.len() && d[n] is None && 0 <= i < rcv.len() && rcv[i] is Some
            && rcv[i]->0.neighbors@.contains(n as u32) ==> g[n]@.contains(i as usize)
}

/// A list without repeats whose entries all equal `n`, and that holds `n`, is `[n]`.
proof fn lemma_lone_neighbour(nb: Seq<u32>, n: u32)
    requires
        nb.no_duplicates(),
        nb.contains(n),
        forall|k: int| 0 <= k < nb.len() ==> #[trigger] nb[k] == n,
    ensures
        nb =~= seq![n],
{
    if nb.len() >= 2 {
        assert(nb[0] == nb[1]);
    }
}

proof fn lemma_kept_refl(a: Seq<Option<EncodedSymbol>>, d: Seq<Option<Seq<u8>>>)
    ensures
        spores_kept(a, a, d),
{
    assert forall|i: int| 0 <= i < a.len() implies spore_kept(#[trigger] a[i], a[i], d) by {
        if let Some(s) = a[i] {
            assert forall|k: int| 0 <= k < s.neighbors@.len() implies s.neighbors@.contains(
                #[trigger] s.neighbors@[k],
            ) by {}
        }
    }
}

proof fn lemma_spore_kept_trans(
    a: Option<EncodedSymbol>,
    b: Option<EncodedSymbol>,
    c: Option<EncodedSymbol>,
    d1: Seq<Option<Seq<u8>>>,
    d2: Seq<Option<Seq<u8>>>,
)
    requires
        spore_kept(a, b, d1),
        spore_kept(b, c, d2),
        decoded_grows(d1, d2),
    ensures
        spore_kept(a, c, d2),
{
    if let Some(s) = a {
        let t = b->0;
        let u = c->0;
        assert forall|k: int| 0 <= k < u.neighbors@.len() implies s.neighbors@.contains(
            #[trigger] u.neighbors@[k],
        ) by {
            assert(t.neighbors@.contains(u.neighbors@[k]));
            let j = choose|j: int| 0 <= j < t.neighbors@.len() && t.neighbors@[j] == u.neighbors@[k];
            assert(s.neighbors@.contains(t.neighbors@[j]));
        }
        assert forall|k: int|
            0 <= k < s.neighbors@.len() && !decoded_at(d2, #[trigger] s.neighbors@[k]) implies u.neighbors@.contains(
            s.neighbors@[k],
        ) by {
            let n = s.neighbors@[k];
            if decoded_at(d1, n) {
                assert(d2[n as int] == d1[n as int]);
            }
            assert(t.neighbors@.contains(n));
            let j = choose|j: int| 0 <= j < t.neighbors@.len() && t.neighbors@[j] == n;
            assert(!decoded_at(d2, t.neighbors@[j]));
        }
    }
}

proof fn lemma_kept_trans(
    a: Seq<Option<EncodedSymbol>>,
    b: Seq<Option<EncodedSymbol>>,
    c: Seq<Option<EncodedSymbol>>,
    d1: Seq<Option<Seq<u8>>>,
    d2: Seq<Option<Seq<u8>>>,
)
    requires
        spores_kept(a, b, d1),
        spores_kept(b, c, d2),
        decoded_grows(d1, d2),
    ensures
        spores_kept(a, c, d2),
{
    assert forall|i: int| 0 <= i < a.len() implies spore_kept(#[trigger] a[i], c[i], d2) by {
        assert(spore_kept(a[i], b[i], d1));
        assert(spore_kept(b[i], c[i], d2));
        lemma_spore_kept_trans(a[i], b[i], c[i], d1, d2);
    }
}

proof fn lemma_cleared_trans(
    a: Seq<Option<EncodedSymbol>>,
    b: Seq<Option<EncodedSymbol>>,
    d0: Seq<Option<Seq<u8>>>,
    d1: Seq<Option<Seq<u8>>>,
    d2: Seq<Option<Seq<u8>>>,
)
    requires
        cleared(a, d0, d1),
        cleared(b, d1, d2),
        spores_kept(a, b, d2),
        decoded_grows(d0, d1),
    ensures
        cleared(b, d0, d2),
{
    assert forall|i: int, k: int|
        0 <= i < b.len() && b[i] is Some && 0 <= k < b[i]->0.neighbors@.len() implies !(
        !decoded_at(d0, #[trigger] b[i]->0.neighbors@[k]) && decoded_at(d2, b[i]->0.neighbors@[k])) by {
        let n = b[i]->0.neighbors@[k];
        assert(spore_kept(a[i], b[i], d2));
        assert(a[i] is Some);
        if !decoded_at(d0, n) && decoded_at(d2, n) {
            if decoded_at(d1, n) {
                assert(a[i]->0.neighbors@.contains(n));
                let j = choose|j: int| 0 <= j < a[i]->0.neighbors@.len() && a[i]->0.neighbors@[j] == n;
                assert(!(!decoded_at(d0, a[i]->0.neighbors@[j]) && decoded_at(d1, a[i]->0.neighbors@[j])));
            }
        }
    }
}

impl DecodingState {
    spec fn wf(&self) -> bool {
        &&& self.symbol_count >= 1
        &&& self.symbol_count <= u32::MAX as nat + 1
        &&& 2 * self.symbol_count <= usize::MAX
        &&& self.received_symbols@.len() == 2 * self.symbol_count
        &&& self.decoded_symbols@.len() == self.symbol_count
        &&& self.graph@.len() == self.symbol_count
        &&& self.is_decoded ==> all_decoded(decoded_view(self.decoded_symbols@))
    }

    spec fn cons(&self, src: Seq<Seq<u8>>, size: nat) -> bool {
        &&& src.len() == self.symbol_count
        &&& source_fits(src, size)
        &&& decoded_agree(self.decoded(), src)
        &&& spores_agree(self.received_symbols@, src, size)
        &&& graphs_exact(self.graph@, self.decoded(), self.received_symbols@)
        &&& graphs_complete(self.graph@, self.decoded(), self.received_symbols@)
    }

    spec fn decoded(&self) -> Seq<Option<Seq<u8>>> {
        decoded_view(self.decoded_symbols@)
    }

    /// Concatenates the decoded symbols and strips the trailing zero padding.
    fn assemble_data(&self) -> (r: Option<Vec<u8>>)
        requires
            self.wf(),
        ensures
            r is Some <==> all_decoded(self.decoded()),
            r matches Some(d) ==> d@ == strip_trailing_zeros(concat_decoded(self.decoded())),
    {
        let ghost dv = self.decoded();
        let mut data: Vec<u8> = Vec::new();
        let mut i: usize = 0;
        while i < self.decoded_symbols.len()
            invariant
                i <= self.decoded_symbols.len(),
                dv == self.decoded(),
                dv.len() == self.decoded_symbols.len(),
                data@ == concat_decoded(dv.take(i as int)),
                all_decoded(dv.take(i as int)),
            decreases self.decoded_symbols.len() - i,
        {
            assert(dv.take(i as int + 1).drop_last() =~= dv.take(i as int));
            match &self.decoded_symbols[i] {
                Some(sym) => {
                    let ghost before = data@;
                    let mut j: usize = 0;
                    while j < sym.len()
                        invariant
                            j <= sym.len(),
                            data@ == before + sym@.take(j as int),
                        decreases sym.len() - j,
                    {
                        data.push(sym[j]);
                        j = j + 1;
                        assert(data@ =~= before + sym@.take(j as int));
                    }
                    assert(sym@.take(j as int) =~= sym@);
                    assert(dv[i as int] == Some(sym@));
                    assert(all_decoded(dv.take(i as int + 1))) by {
                        assert forall|t: int| 0 <= t < i + 1 implies (#[trigger] dv.take(
                            i as int + 1,
                        )[t]) is Some by {
                            if t < i {
                                assert(dv.take(i as int)[t] is Some);
                            }
                        }
                    }
                },
                None => {
                    assert(!all_decoded(dv)) by {
                        assert(!(dv[i as int] is Some));
                    }
                    return None;
                },
            }
            i = i + 1;
        }
        assert(dv.take(i as int) =~= dv);
        let ghost full = data@;
        while data.len() > 0 && data[data.len() - 1] == 0u8
            invariant
                strip_trailing_zeros(data@) == strip_trailing_zeros(full),
            decreases data.len(),
        {
            let ghost before = data@;
            data.pop();
            assert(data@ =~= before.drop_last());
        }
        Some(data)
    }
}

/// `v` with every occurrence of `x` removed.
fn remove_neighbor(v: &Vec<u32>, x: usize) -> (r: Vec<u32>)
    ensures
        r@ == remove_all(v@, x as int),
{
    let mut r: Vec<u32> = Vec::new();
    let mut i: usize = 0;
    while i < v.len()
        invariant
            i <= v.len(),
            r@ == remove_all(v@.take(i as int), x as int),
        decreases v.len() - i,
    {
        assert(v@.take(i as int + 1).drop_last() =~= v@.take(i as int));
        if v[i] as usize != x {
            r.push(v[i]);
        }
        i = i + 1;
    }
    assert(v@.take(i as int) =~= v@);
    r
}

/// `a` with its first bytes XOR-ed with the bytes of `b`.
fn xor_into(a: &mut Vec<u8>, b: &Vec<u8>)
    ensures
        final(a)@.len() == old(a)@.len(),
        forall|i: int|
            0 <= i < old(a)@.len() ==> #[trigger] final(a)@[i] == old(a)@[i] ^ byte_at(b@, i),
{
    let mut i: usize = 0;
    while i < a.len()
        invariant
            i <= a.len(),
            a@.len() == old(a)@.len(),
            forall|t: int|
                0 <= t < a@.len() ==> #[trigger] a@[t] == (if t < i {
                    old(a)@[t] ^ byte_at(b@, t)
                } else {
                    old(a)@[t]
                }),
        decreases a.len() - i,
    {
        let v = if i < b.len() {
            a[i] ^ b[i]
        } else {
            let x = a[i];
            proof {
                lemma_xor_zero(x);
            }
            x
        };
        a.set(i, v);
        i = i + 1;
    }
}

impl FountainDecoder {
    /// The decoder has started a block.
    pub closed spec fn has_state(&self) -> bool {
        self.state is Some
    }

    /// Number of source symbols of the block being decoded.
    pub closed spec fn symbol_count(&self) -> nat {
        match self.state {
            Some(st) => st.symbol_count as nat,
            None => 0,
        }
    }

    /// The decoded source symbols (`None` where not yet known).
    pub closed spec fn decoded(&self) -> Seq<Option<Seq<u8>>> {
        match self.state {
            Some(st) => decoded_view(st.decoded_symbols@),
            None => Seq::empty(),
        }
    }

    /// The received spores, by index (`None` where none was received).
    pub closed spec fn received(&self) -> Seq<Option<EncodedSymbol>> {
        match self.state {
            Some(st) => st.received_symbols@,
            None => Seq::empty(),
        }
    }

    /// The symbol size the decoder was made for.
    pub closed spec fn symbol_size_spec(&self) -> usize {
        self.symbol_size
    }

    /// The decoder holds only what the source block `src`, of symbols of `size` bytes, explains: every decoded
    /// symbol is the source symbol at its place, every filed spore is the XOR of the
    /// distinct source symbols it names, and the dependency lists of undecoded sources
    /// name distinct filed spores that contain them.
    pub closed spec fn consistent_with(&self, src: Seq<Seq<u8>>, size: nat) -> bool {
        match self.state {
            Some(st) => st.cons(src, size),
            None => source_fits(src, size),
        }
    }

    /// No spore has been filed at `index` yet.
    pub open spec fn slot_free(&self, index: u32) -> bool {
        index as int >= self.received().len() || self.received()[index as int] is None
    }

    /// The filed spores `symbol` meets when it arrives: those already received, or,
    /// for a decoder that has not started, twice as many empty slots as the block
    /// that `symbol` implies has source symbols.
    pub open spec fn start_received(&self, symbol: EncodedSymbol) -> Seq<Option<EncodedSymbol>> {
        if self.has_state() {
            self.received()
        } else {
            Seq::new(2 * spec_block_width(symbol.neighbors@), |i: int| None)
        }
    }

    /// The decoded sources `symbol` meets when it arrives (none, for a decoder that
    /// has not started).
    pub open spec fn start_decoded(&self, symbol: EncodedSymbol) -> Seq<Option<Seq<u8>>> {
        if self.has_state() {
            self.decoded()
        } else {
            Seq::new(spec_block_width(symbol.neighbors@), |i: int| None)
        }
    }

    /// The decoder's internal invariant; in particular no filed spore can be peeled.
    pub closed spec fn wf(&self) -> bool {
        match self.state {
            Some(st) => st.wf() && stalled(st.received_symbols@, st.decoded()),
            None => true,
        }
    }

    /// What consistency with a source block gives a started decoder: the block has
    /// as many symbols as the decoder expects, all of `size` bytes; every decoded
    /// symbol is the block's symbol at its place; every filed spore is the XOR of
    /// the distinct source symbols it names.
    pub proof fn lemma_consistent(&self, src: Seq<Seq<u8>>, size: nat)
        requires
            self.has_state(),
            self.consistent_with(src, size),
        ensures
            src.len() == self.symbol_count(),
            source_fits(src, size),
            decoded_agree(self.decoded(), src),
            spores_agree(self.received(), src, size),
    {
    }

    /// No spore filed in a well-formed decoder can be peeled.
    pub proof fn lemma_stalled(&self)
        requires
            self.wf(),
        ensures
            stalled(self.received(), self.decoded()),
    {
    }

    /// A started decoder has one place per source symbol and twice as many slots
    /// for spores.
    pub proof fn lemma_shape(&self)
        requires
            self.wf(),
            self.has_state(),
        ensures
            self.symbol_count() >= 1,
            self.decoded().len() == self.symbol_count(),
            self.received().len() == 2 * self.symbol_count(),
    {
    }

    /// An empty decoder for symbols of `symbol_size` bytes.
    pub fn new(symbol_size: usize) -> (d: Self)
        ensures
            d.wf(),
            !d.has_state(),
            d.symbol_size_spec() == symbol_size,
            d.received().len() == 0,
            d.decoded().len() == 0,
            forall|src: Seq<Seq<u8>>, size: nat| source_fits(src, size) ==> #[trigger] d.consistent_with(src, size),
    {
        FountainDecoder { symbol_size, state: None }
    }

    /// Files a spore and peels as many source symbols as possible. Returns the
    /// reassembled data (zero padding stripped) once every source symbol is known.
    pub fn add_symbol(&mut self, symbol: EncodedSymbol) -> (r: Option<Vec<u8>>)
        requires
            old(self).wf(),
            !old(self).has_state() ==> forall|i: int|
                0 <= i < symbol.neighbors@.len() ==> #[trigger] symbol.neighbors@[i] < u32::MAX
                    && 2 * (symbol.neighbors@[i] + 1) <= usize::MAX,
        ensures
            final(self).wf(),
            final(self).has_state(),
            final(self).symbol_size_spec() == old(self).symbol_size_spec(),
            !old(self).has_state() ==> final(self).symbol_count() == spec_block_width(
                symbol.neighbors@,
            ),
            old(self).has_state() ==> final(self).symbol_count() == old(self).symbol_count(),
            old(self).has_state() ==> forall|i: int|
                0 <= i < old(self).decoded().len() && (#[trigger] old(self).decoded()[i]) is Some
                    ==> final(self).decoded()[i] == old(self).decoded()[i],
            stalled(final(self).received(), final(self).decoded()),
            final(self).decoded().len() == final(self).symbol_count(),
            final(self).received().len() == 2 * final(self).symbol_count(),
            final(self).received().len() == old(self).start_received(symbol).len(),
            decoded_grows(old(self).start_decoded(symbol), final(self).decoded()),
            old(self).has_state() && all_decoded(old(self).decoded()) ==> final(self).decoded()
                == old(self).decoded(),
            old(self).has_state() && all_decoded(old(self).decoded()) ==> (r matches Some(d) && d@
                == strip_trailing_zeros(concat_decoded(old(self).decoded()))),
            (symbol.index as int) < final(self).received().len() ==> spore_kept(
                Some(symbol),
                final(self).received()[symbol.index as int],
                final(self).decoded(),
            ),
            forall|i: int|
                0 <= i < final(self).received().len() && i != symbol.index ==> spore_kept(
                    old(self).start_received(symbol)[i],
                    #[trigger] final(self).received()[i],
                    final(self).decoded(),
                ),
            (symbol.index as int) >= final(self).received().len() || !peelable(
                Some(symbol),
                old(self).start_decoded(symbol),
            ) ==> final(self).decoded() == old(self).start_decoded(symbol),
            r is Some <==> all_decoded(final(self).decoded()),
            r matches Some(d) ==> d@ == strip_trailing_zeros(
                concat_decoded(final(self).decoded()),
            ),
            forall|src: Seq<Seq<u8>>, size: nat|
                old(self).consistent_with(src, size) && spore_matches(
                    symbol,
                    src,
                    size,
                ) && old(self).slot_free(symbol.index) && (!old(self).has_state() ==> src.len()
                    == spec_block_width(symbol.neighbors@)) ==> #[trigger] final(self).consistent_with(src, size),
            forall|src: Seq<Seq<u8>>, size: nat|
                #[trigger] old(self).consistent_with(src, size) && spore_matches(symbol, src, size)
                    && old(self).slot_free(symbol.index) && (!old(self).has_state() ==> src.len()
                    == spec_block_width(symbol.neighbors@)) ==> cleared(
                    final(self).received(),
                    old(self).start_decoded(symbol),
                    final(self).decoded(),
                ),
            forall|src: Seq<Seq<u8>>, size: nat|
                #[trigger] old(self).consistent_with(src, size) && spore_matches(symbol, src, size)
                    && old(self).slot_free(symbol.index) && (!old(self).has_state() ==> src.len()
                    == spec_block_width(symbol.neighbors@)) ==> (symbol.degree == 1 && (symbol.index as int)
                    < final(self).received().len() ==> decoded_at(final(self).decoded(), symbol.neighbors@[0])),
            forall|src: Seq<Seq<u8>>, size: nat|
                #[trigger] final(self).consistent_with(src, size) ==> (r matches Some(d) ==> d@
                    == strip_trailing_zeros(concat_source(src))),
    {
        let ghost pre = *old(self);
        let mut st = match self.state.take() {
            Some(st) => st,
            None => {
                let mut width: usize = 1;
                let mut i: usize = 0;
                while i < symbol.neighbors.len()
                    invariant
                        i <= symbol.neighbors.len(),
                        width == spec_block_width(symbol.neighbors@.take(i as int)),
                        1 <= width <= u32::MAX,
                        2 * width <= usize::MAX,
                        forall|k: int|
                            0 <= k < symbol.neighbors@.len() ==> #[trigger] symbol.neighbors@[k]
                                < u32::MAX && 2 * (symbol.neighbors@[k] + 1) <= usize::MAX,
                    decreases symbol.neighbors.len() - i,
                {
                    assert(symbol.neighbors@.take(i as int + 1).drop_last() =~= symbol.neighbors@.take(
                        i as int,
                    ));
                    if symbol.neighbors[i] as usize + 1 > width {
                        width = symbol.neighbors[i] as usize + 1;
                    }
                    i = i + 1;
                }
                assert(symbol.neighbors@.take(i as int) =~= symbol.neighbors@);
                let mut received_symbols: Vec<Option<EncodedSymbol>> = Vec::new();
                let mut k: usize = 0;
                while k < 2 * width
                    invariant
                        k <= 2 * width,
                        width <= u32::MAX,
                        2 * width <= usize::MAX,
                        received_symbols.len() == k,
                        forall|t: int| 0 <= t < k ==> (#[trigger] received_symbols@[t]) is None,
                    decreases 2 * width - k,
                {
                    received_symbols.push(None);
                    k = k + 1;
                }
                let mut decoded_symbols: Vec<Option<Vec<u8>>> = Vec::new();
                let mut graph: Vec<Vec<usize>> = Vec::new();
                let mut k: usize = 0;
                while k < width
                    invariant
                        k <= width,
                        decoded_symbols.len() == k,
                        graph.len() == k,
                        forall|t: int| 0 <= t < k ==> (#[trigger] decoded_symbols@[t]) is None,
                        forall|t: int| 0 <= t < k ==> (#[trigger] graph@[t])@.len() == 0,
                    decreases width - k,
                {
                    decoded_symbols.push(None);
                    graph.push(Vec::new());
                    k = k + 1;
                }
                DecodingState {
                    symbol_count: width,
                    received_symbols,
                    decoded_symbols,
                    graph,
                    is_decoded: false,
                }
            },
        };
        let ghost start_decoded = st.decoded();
        let ghost st0 = st;
        proof {
            assert(st0.received_symbols@ =~= pre.start_received(symbol));
            assert(st0.decoded() =~= pre.start_decoded(symbol));
            assert(stalled(st0.received_symbols@, st0.decoded()));
            // The state before filing the spore is consistent with every block the old
            // decoder was consistent with.
            assert forall|src: Seq<Seq<u8>>, size: nat|
                pre.consistent_with(src, size) && spore_matches(symbol, src, size)
                    && pre.slot_free(symbol.index)
                    && (!pre.has_state() ==> src.len() == spec_block_width(symbol.neighbors@))
                implies #[trigger] st0.cons(src, size)
                    && (symbol.index as int >= st0.received_symbols@.len()
                        || st0.received_symbols@[symbol.index as int] is None) by {
                if pre.state is None {
                    assert(decoded_agree(st0.decoded(), src));
                    assert(spores_agree(st0.received_symbols@, src, size));
                    assert forall|n: int|
                        0 <= n < st0.graph@.len() && n < st0.decoded().len() && (#[trigger] st0.decoded()[n]) is None
                        implies graph_exact(st0.graph@[n]@, n, st0.received_symbols@) by {
                        assert(st0.graph@[n]@.len() == 0);
                    }
                }
            }
        }
        let idx = symbol.index as usize;
        if idx < st.received_symbols.len() {
            let mut t: usize = 0;
            while t < symbol.neighbors.len()
                invariant
                    t <= symbol.neighbors.len(),
                    st.wf(),
                    st.decoded() == start_decoded,
                    st.symbol_count == st0.symbol_count,
                    st.received_symbols@ == st0.received_symbols@,
                    st.is_decoded == st0.is_decoded,
                    idx < st.received_symbols.len(),
                    symbol.neighbors@.no_duplicates() && (forall|q: int|
                        0 <= q < symbol.neighbors@.len() ==> (#[trigger] symbol.neighbors@[q] as int)
                            < st.symbol_count) ==> forall|n: int|
                        0 <= n < st.graph@.len() ==> #[trigger] st.graph@[n]@ == if symbol.neighbors@.take(
                            t as int,
                        ).contains(n as u32) {
                            st0.graph@[n]@.push(idx)
                        } else {
                            st0.graph@[n]@
                        },
                decreases symbol.neighbors.len() - t,
            {
                let n = symbol.neighbors[t] as usize;
                let ghost g_before = st.graph@;
                if n < st.graph.len() {
                    let mut deps: Vec<usize> = Vec::new();
                    std::mem::swap(&mut deps, &mut st.graph[n]);
                    deps.push(idx);
                    std::mem::swap(&mut deps, &mut st.graph[n]);
                }
                proof {
                    let nb = symbol.neighbors@;
                    if nb.no_duplicates() && (forall|q: int| 0 <= q < nb.len() ==> (#[trigger] nb[q] as int) < st.symbol_count) {
                        assert(nb[t as int] as int == n);
                        assert forall|m: int| 0 <= m < st.graph@.len() implies #[trigger] st.graph@[m]@
                            == if nb.take(t as int + 1).contains(m as u32) {
                            st0.graph@[m]@.push(idx)
                        } else {
                            st0.graph@[m]@
                        } by {
                            assert(nb.take(t as int + 1) =~= nb.take(t as int).push(nb[t as int]));
                            if m == n {
                                let s0 = nb.take(t as int);
                                assert(!s0.contains(n as u32)) by {
                                    if s0.contains(n as u32) {
                                        let j = choose|j: int| 0 <= j < s0.len() && #[trigger] s0[j] == n as u32;
                                        assert(nb[j] == nb[t as int]);
                                    }
                                }
                                assert(nb.take(t as int + 1)[t as int] == n as u32);
                            } else {
                                assert(g_before[m] == st.graph@[m]);
                                let ti: int = t as int;
                                let s1 = nb.take(ti + 1);
                                let s0 = nb.take(ti);
                                if s1.contains(m as u32) {
                                    let j = choose|j: int| 0 <= j < s1.len() && #[trigger] s1[j] == m as u32;
                                    assert(j < ti);
                                    assert(s0[j] == m as u32);
                                }
                                if s0.contains(m as u32) {
                                    let j = choose|j: int| 0 <= j < s0.len() && #[trigger] s0[j] == m as u32;
                                    assert(s1[j] == m as u32);
                                }
                            }
                        }
                    }
                }
                t = t + 1;
            }
            let ghost g1 = st.graph@;
            st.received_symbols.set(idx, Some(symbol));
            proof {
                let nb = symbol.neighbors@;
                assert(nb.take(nb.len() as int) =~= nb);
                assert forall|src: Seq<Seq<u8>>, size: nat|
                    #[trigger] st0.cons(src, size) && spore_matches(symbol, src, size)
                        && st0.received_symbols@[idx as int] is None
                    implies st.cons(src, size) by {
                    let rcv0 = st0.received_symbols@;
                    let rcv = st.received_symbols@;
                    assert(rcv == rcv0.update(idx as int, Some(symbol)));
                    assert forall|n: int, i: int|
                        0 <= n < st.graph@.len() && n < st.decoded().len() && st.decoded()[n] is None
                            && 0 <= i < rcv.len() && rcv[i] is Some && rcv[i]->0.neighbors@.contains(n as u32)
                        implies #[trigger] st.graph@[n]@.contains(i as usize) by {
                        let g0n = st0.graph@[n]@;
                        assert(st0.decoded()[n] is None);
                        if nb.contains(n as u32) {
                            assert(st.graph@[n]@ == g0n.push(idx));
                        } else {
                            assert(st.graph@[n]@ == g0n);
                        }
                        if i == idx {
                            assert(st.graph@[n]@ == g0n.push(idx));
                            assert(st.graph@[n]@[g0n.len() as int] == idx);
                        } else {
                            assert(rcv0[i] is Some);
                            assert(g0n.contains(i as usize));
                            let j = choose|j: int| 0 <= j < g0n.len() && g0n[j] == i as usize;
                            assert(st.graph@[n]@[j] == i as usize);
                        }
                    }
                    assert forall|i: int| 0 <= i < rcv.len() && (#[trigger] rcv[i]) is Some
                        implies spore_matches(rcv[i]->0, src, size) by {
                        if i != idx {
                            assert(rcv0[i] is Some);
                        }
                    }
                    assert forall|n: int|
                        0 <= n < st.graph@.len() && n < st.decoded().len() && (#[trigger] st.decoded()[n]) is None
                        implies graph_exact(st.graph@[n]@, n, rcv) by {
                        assert(st0.decoded()[n] is None);
                        let g0n = st0.graph@[n]@;
                        assert(graph_exact(g0n, n, rcv0));
                        assert(!g0n.contains(idx)) by {
                            if g0n.contains(idx) {
                                let j = choose|j: int| 0 <= j < g0n.len() && g0n[j] == idx;
                                assert(rcv0[g0n[j] as int] is Some);
                            }
                        }
                        assert forall|j: int| 0 <= j < g0n.len() implies (#[trigger] g0n[j]) != idx by {
                            if g0n[j] == idx {
                                assert(g0n.contains(idx));
                            }
                        }
                        if nb.contains(n as u32) {
                            let gn = g0n.push(idx);
                            assert(st.graph@[n]@ == gn);
                            assert forall|a: int, b: int| 0 <= a < b < gn.len() implies gn[a] != gn[b] by {
                                if b == g0n.len() {
                                    assert(g0n[a] != idx);
                                }
                            }
                            assert forall|k: int| 0 <= k < gn.len() implies {
                                &&& (#[trigger] gn[k] as int) < rcv.len()
                                &&& rcv[gn[k] as int] is Some
                                &&& rcv[gn[k] as int]->0.neighbors@.contains(n as u32)
                            } by {
                                if k < g0n.len() {
                                    assert(gn[k] == g0n[k]);
                                    assert(g0n[k] != idx);
                                }
                            }
                        } else {
                            assert(st.graph@[n]@ == g0n);
                            assert forall|k: int| 0 <= k < g0n.len() implies {
                                &&& (#[trigger] g0n[k] as int) < rcv.len()
                                &&& rcv[g0n[k] as int] is Some
                                &&& rcv[g0n[k] as int]->0.neighbors@.contains(n as u32)
                            } by {
                                assert(g0n[k] != idx);
                            }
                        }
                    }
                }
            }
        }
        let ghost st1 = st;
        proof {
            if (idx as int) < st0.received_symbols@.len() {
                assert(st1.received_symbols@ == st0.received_symbols@.update(idx as int, Some(symbol)));
            } else {
                assert(st1.received_symbols@ == st0.received_symbols@);
            }
            assert(st1.decoded() == st0.decoded());
            if (idx as int) >= st0.received_symbols@.len() || !peelable(Some(symbol), st0.decoded()) {
                assert forall|i: int| 0 <= i < st1.received_symbols@.len() implies !peelable(
                    #[trigger] st1.received_symbols@[i],
                    st1.decoded(),
                ) by {
                    if i != idx {
                        assert(st1.received_symbols@[i] == st0.received_symbols@[i]);
                    }
                }
            }
        }
        proof {
            assert forall|src: Seq<Seq<u8>>, size: nat|
                pre.consistent_with(src, size) && spore_matches(symbol, src, size)
                    && pre.slot_free(symbol.index)
                    && (!pre.has_state() ==> src.len() == spec_block_width(symbol.neighbors@))
                implies #[trigger] st1.cons(src, size) by {
                assert(st0.cons(src, size));
            }
        }
        let r = Self::try_decode(&mut st);
        self.state = Some(st);
        proof {
            assert forall|src: Seq<Seq<u8>>, size: nat|
                pre.consistent_with(src, size) && spore_matches(symbol, src, size)
                    && pre.slot_free(symbol.index)
                    && (!pre.has_state() ==> src.len() == spec_block_width(symbol.neighbors@))
                implies #[trigger] self.consistent_with(src, size) by {
                assert(st1.cons(src, size));
            }
            assert forall|src: Seq<Seq<u8>>, size: nat|
                #[trigger] pre.consistent_with(src, size) && spore_matches(symbol, src, size)
                    && pre.slot_free(symbol.index)
                    && (!pre.has_state() ==> src.len() == spec_block_width(symbol.neighbors@))
                implies cleared(self.received(), pre.start_decoded(symbol), self.decoded()) by {
                assert(st1.cons(src, size));
                assert(cleared(st.received_symbols@, st1.decoded(), st.decoded()));
            }
            assert forall|src: Seq<Seq<u8>>, size: nat|
                #[trigger] pre.consistent_with(src, size) && spore_matches(symbol, src, size)
                    && pre.slot_free(symbol.index)
                    && (!pre.has_state() ==> src.len() == spec_block_width(symbol.neighbors@))
                implies (symbol.degree == 1 && (symbol.index as int) < self.received().len() ==> decoded_at(
                    self.decoded(),
                    symbol.neighbors@[0],
                )) by {
                assert(st1.cons(src, size));
                if symbol.degree == 1 && (symbol.index as int) < self.received().len() {
                    let nb = symbol.neighbors@;
                    let n = nb[0];
                    assert(nb.len() == 1);
                    assert((n as int) < src.len());
                    let slot = st.received_symbols@[idx as int];
                    assert(spore_kept(Some(symbol), slot, st.decoded()));
                    if !decoded_at(st.decoded(), n) {
                        let t = slot->0;
                        assert(spore_matches(t, src, size));
                        assert(t.neighbors@.contains(n));
                        assert forall|k: int| 0 <= k < t.neighbors@.len() implies #[trigger] t.neighbors@[k] == n by {
                            assert(nb.contains(t.neighbors@[k]));
                        }
                        lemma_lone_neighbour(t.neighbors@, n);
                        assert(peelable(slot, st.decoded()));
                        assert(!peelable(st.received_symbols@[idx as int], st.decoded()));
                    }
                }
            }
            assert forall|i: int| 0 <= i < self.received().len() && i != symbol.index implies spore_kept(
                pre.start_received(symbol)[i],
                #[trigger] self.received()[i],
                self.decoded(),
            ) by {
                assert(spore_kept(st1.received_symbols@[i], st.received_symbols@[i], st.decoded()));
                assert(st1.received_symbols@[i] == st0.received_symbols@[i]);
            }
            assert forall|src: Seq<Seq<u8>>, size: nat| #[trigger] self.consistent_with(src, size) implies (r matches Some(d) ==> d@
                == strip_trailing_zeros(concat_source(src))) by {
                if r is Some {
                    lemma_concat_agree(st.decoded(), src);
                }
            }
        }
        r
    }

    /// Peels spores of degree one until none is left; returns the data once complete.
    fn try_decode(st: &mut DecodingState) -> (r: Option<Vec<u8>>)
        requires
            old(st).wf(),
        ensures
            final(st).wf(),
            final(st).symbol_count == old(st).symbol_count,
            forall|i: int|
                0 <= i < old(st).decoded().len() && (#[trigger] old(st).decoded()[i]) is Some
                    ==> final(st).decoded()[i] == old(st).decoded()[i],
            stalled(final(st).received_symbols@, final(st).decoded()),
            r is Some <==> all_decoded(final(st).decoded()),
            r matches Some(d) ==> d@ == strip_trailing_zeros(concat_decoded(final(st).decoded())),
            forall|src: Seq<Seq<u8>>, size: nat| #[trigger] old(st).cons(src, size) ==> final(st).cons(src, size),
            spores_kept(old(st).received_symbols@, final(st).received_symbols@, final(st).decoded()),
            stalled(old(st).received_symbols@, old(st).decoded()) ==> final(st).received_symbols@
                == old(st).received_symbols@ && final(st).decoded() == old(st).decoded(),
            forall|src: Seq<Seq<u8>>, size: nat| #[trigger] old(st).cons(src, size) ==> cleared(
                final(st).received_symbols@,
                old(st).decoded(),
                final(st).decoded(),
            ),
    {
        if st.is_decoded {
            proof {
                assert forall|i: int| 0 <= i < st.received_symbols@.len() implies !peelable(
                    #[trigger] st.received_symbols@[i],
                    st.decoded(),
                ) by {
                    if let Some(s) = st.received_symbols@[i] {
                        if s.degree == 1 && s.neighbors@.len() > 0 && (s.neighbors@[0] as int)
                            < st.decoded().len() {
                            assert(st.decoded()[s.neighbors@[0] as int] is Some);
                        }
                    }
                }
            }
            proof {
                lemma_kept_refl(st.received_symbols@, st.decoded());
            }
            return st.assemble_data();
        }
        let ghost start = st.decoded();
        let ghost orig = *st;
        proof {
            lemma_kept_refl(st.received_symbols@, st.decoded());
        }
        let mut changed = true;
        let mut iterations: usize = 0;
        let max_iterations = st.symbol_count * 2;
        proof {
            lemma_count_decoded_bound(st.decoded());
        }
        while changed && iterations < max_iterations
            invariant
                st.wf(),
                st.symbol_count == old(st).symbol_count,
                max_iterations == st.symbol_count * 2,
                iterations <= max_iterations,
                start == old(st).decoded(),
                orig == *old(st),
                start.len() == st.symbol_count,
                st.decoded().len() == st.symbol_count,
                forall|i: int|
                    0 <= i < start.len() && (#[trigger] start[i]) is Some ==> st.decoded()[i]
                        == start[i],
                changed ==> count_decoded(st.decoded()) >= iterations,
                !changed ==> stalled(st.received_symbols@, st.decoded()),
                forall|src: Seq<Seq<u8>>, size: nat| #[trigger] orig.cons(src, size) ==> st.cons(src, size),
                spores_kept(orig.received_symbols@, st.received_symbols@, st.decoded()),
                decoded_grows(start, st.decoded()),
                stalled(orig.received_symbols@, start) ==> st.received_symbols@ == orig.received_symbols@
                    && st.decoded() == start,
                forall|src: Seq<Seq<u8>>, size: nat| #[trigger] orig.cons(src, size) ==> cleared(
                    st.received_symbols@,
                    start,
                    st.decoded(),
                ),
            decreases max_iterations - iterations,
        {
            changed = false;
            iterations = iterations + 1;
            let ghost before = st.decoded();
            let ghost before_count = count_decoded(before);
            let ghost snap = *st;
            proof {
                lemma_kept_refl(snap.received_symbols@, before);
            }
            let mut idx: usize = 0;
            while idx < st.received_symbols.len()
                invariant_except_break
                    !changed,
                    *st == snap,
                    forall|i: int| 0 <= i < idx ==> !peelable(#[trigger] st.received_symbols@[i], before),
                invariant
                    st.wf(),
                    st.symbol_count == old(st).symbol_count,
                    idx <= st.received_symbols.len(),
                    before == snap.decoded(),
                    before.len() == st.decoded_symbols.len(),
                    before_count == count_decoded(before),
                    snap.wf(),
                    stalled(snap.received_symbols@, before) ==> !changed,
                ensures
                    changed ==> count_decoded(st.decoded()) == before_count + 1,
                    changed ==> forall|i: int|
                        0 <= i < before.len() && (#[trigger] before[i]) is Some ==> st.decoded()[i]
                            == before[i],
                    !changed ==> *st == snap,
                    !changed ==> stalled(st.received_symbols@, before),
                    forall|src: Seq<Seq<u8>>, size: nat| #[trigger] snap.cons(src, size) ==> st.cons(src, size),
                    spores_kept(snap.received_symbols@, st.received_symbols@, st.decoded()),
                    decoded_grows(before, st.decoded()),
                    stalled(snap.received_symbols@, before) ==> !changed,
                    forall|src: Seq<Seq<u8>>, size: nat| #[trigger] snap.cons(src, size) ==> cleared(
                        st.received_symbols@,
                        before,
                        st.decoded(),
                    ),
                decreases st.received_symbols.len() - idx,
            {
                let peel: Option<(usize, Vec<u8>)> = match &st.received_symbols[idx] {
                    Some(sym) => {
                        if sym.degree == 1 && sym.neighbors.len() > 0 && (sym.neighbors[0] as usize)
                            < st.decoded_symbols.len() && st.decoded_symbols[sym.neighbors[0] as usize].is_none() {
                            Some((sym.neighbors[0] as usize, sym.data.clone()))
                        } else {
                            None
                        }
                    },
                    None => None,
                };
                match peel {
                    Some((source, value)) => {
                        let ghost r0 = st.received_symbols@[idx as int]->0;
                        proof {
                            assert(!stalled(snap.received_symbols@, before)) by {
                                assert(peelable(snap.received_symbols@[idx as int], before));
                            }
                            lemma_count_decoded_fill(st.decoded(), source as int, value@);
                            assert forall|src: Seq<Seq<u8>>, size: nat| #[trigger] snap.cons(src, size) implies value@ == src[source as int] by {
                                assert(spore_matches(r0, src, size));
                                lemma_single_spore(r0, src, size);
                            }
                        }
                        st.decoded_symbols.set(source, Some(value.clone()));
                        assert(st.decoded() =~= before.update(source as int, Some(value@)));
                        let deps = st.graph[source].clone();
                        proof {
                            assert(deps@ == snap.graph@[source as int]@);
                            lemma_kept_refl(snap.received_symbols@, st.decoded());
                            assert(deps@.subrange(0, deps@.len() as int) =~= deps@);
                            assert forall|src: Seq<Seq<u8>>, size: nat| #[trigger] snap.cons(src, size) implies {
                                &&& st.cons(src, size)
                                &&& graph_exact(deps@, source as int, st.received_symbols@)
                                &&& forall|i: int|
                                    0 <= i < st.received_symbols@.len() && (#[trigger] st.received_symbols@[i]) is Some
                                        && st.received_symbols@[i]->0.neighbors@.contains(source as u32)
                                        ==> deps@.subrange(0, deps@.len() as int).contains(i as usize)
                            } by {
                                assert forall|i: int|
                                    0 <= i < st.received_symbols@.len() && (#[trigger] st.received_symbols@[i]) is Some
                                        && st.received_symbols@[i]->0.neighbors@.contains(source as u32)
                                    implies deps@.subrange(0, deps@.len() as int).contains(i as usize) by {
                                    assert(snap.graph@[source as int]@.contains(i as usize));
                                }
                                assert(before[source as int] is None);
                                assert(graph_exact(snap.graph@[source as int]@, source as int, snap.received_symbols@));
                                assert forall|n: int|
                                    0 <= n < st.graph@.len() && n < st.decoded().len() && (#[trigger] st.decoded()[n]) is None
                                    implies graph_exact(st.graph@[n]@, n, st.received_symbols@) by {
                                    assert(before[n] is None);
                                }
                                assert forall|i: int| 0 <= i < st.decoded().len() && (#[trigger] st.decoded()[i]) is Some
                                    implies st.decoded()[i] == Some(src[i]) by {
                                    if i != source {
                                        assert(before[i] is Some);
                                    }
                                }
                            }
                        }
                        let mut k: usize = 0;
                        while k < deps.len()
                            invariant
                                st.wf(),
                                st.symbol_count == old(st).symbol_count,
                                k <= deps.len(),
                                st.decoded() == before.update(source as int, Some(value@)),
                                (source as int) < st.symbol_count,
                                before.len() == st.symbol_count,
                                source <= u32::MAX,
                                st.received_symbols@.len() == snap.received_symbols@.len(),
                                spores_kept(snap.received_symbols@, st.received_symbols@, st.decoded()),
                                forall|src: Seq<Seq<u8>>, size: nat| #[trigger] snap.cons(src, size) ==> {
                                    &&& value@ == src[source as int]
                                    &&& st.cons(src, size)
                                    &&& forall|i: int|
                                        0 <= i < st.received_symbols@.len() && (#[trigger] st.received_symbols@[i]) is Some
                                            && st.received_symbols@[i]->0.neighbors@.contains(source as u32)
                                            ==> deps@.subrange(k as int, deps@.len() as int).contains(i as usize)
                                    &&& deps@.no_duplicates()
                                    &&& forall|j: int| k <= j < deps@.len() ==> {
                                        &&& (#[trigger] deps@[j] as int) < st.received_symbols@.len()
                                        &&& st.received_symbols@[deps@[j] as int] is Some
                                        &&& st.received_symbols@[deps@[j] as int]->0.neighbors@.contains(source as u32)
                                    }
                                },
                            decreases deps.len() - k,
                        {
                            let dep = deps[k];
                            let ghost rcv0 = st.received_symbols@;
                            if dep < st.received_symbols.len() {
                                let mut slot: Option<EncodedSymbol> = None;
                                st.received_symbols.set_and_swap(dep, &mut slot);
                                if let Some(mut s) = slot {
                                    let ghost s0 = s;
                                    xor_into(&mut s.data, &value);
                                    if s.degree > 0 {
                                        s.degree = s.degree - 1;
                                    }
                                    s.neighbors = remove_neighbor(&s.neighbors, source);
                                    proof {
                                        assert(rcv0[dep as int] == Some(s0));
                                        assert forall|t: int| 0 <= t < s.neighbors@.len() implies s0.neighbors@.contains(
                                            #[trigger] s.neighbors@[t],
                                        ) by {
                                            lemma_remove_all_contains(s0.neighbors@, source as int, s.neighbors@[t]);
                                            assert(s.neighbors@.contains(s.neighbors@[t]));
                                        }
                                        assert forall|t: int|
                                            0 <= t < s0.neighbors@.len() && !decoded_at(st.decoded(), #[trigger] s0.neighbors@[t])
                                            implies s.neighbors@.contains(s0.neighbors@[t]) by {
                                            lemma_remove_all_contains(s0.neighbors@, source as int, s0.neighbors@[t]);
                                            assert(s0.neighbors@.contains(s0.neighbors@[t]));
                                        }
                                        assert(spore_kept(rcv0[dep as int], Some(s), st.decoded()));
                                        assert(spore_kept(snap.received_symbols@[dep as int], rcv0[dep as int], st.decoded()));
                                        lemma_spore_kept_trans(snap.received_symbols@[dep as int], rcv0[dep as int], Some(s), st.decoded(), st.decoded());
                                    }
                                    proof {
                                        assert forall|src: Seq<Seq<u8>>, size: nat| #[trigger] snap.cons(src, size) implies
                                            spore_matches(s, src, size) by {
                                            assert(deps@[k as int] == dep);
                                            assert(rcv0[dep as int] == Some(s0));
                                            assert(spore_matches(s0, src, size));
                                            assert(s0.neighbors@.len() > 0) by {
                                                assert(s0.neighbors@.contains(source as u32));
                                            }
                                            lemma_reduce_spore(s0, s, src, size, source as int);
                                        }
                                    }
                                    slot = Some(s);
                                }
                                st.received_symbols.set_and_swap(dep, &mut slot);
                            }
                            proof {
                                assert(spores_kept(snap.received_symbols@, st.received_symbols@, st.decoded())) by {
                                    assert forall|i: int| 0 <= i < snap.received_symbols@.len() implies spore_kept(
                                        #[trigger] snap.received_symbols@[i],
                                        st.received_symbols@[i],
                                        st.decoded(),
                                    ) by {
                                        assert(spore_kept(snap.received_symbols@[i], rcv0[i], st.decoded()));
                                    }
                                }
                                assert forall|src: Seq<Seq<u8>>, size: nat| #[trigger] snap.cons(src, size) implies {
                                    &&& value@ == src[source as int]
                                    &&& st.cons(src, size)
                                    &&& forall|i: int|
                                        0 <= i < st.received_symbols@.len() && (#[trigger] st.received_symbols@[i]) is Some
                                            && st.received_symbols@[i]->0.neighbors@.contains(source as u32)
                                            ==> deps@.subrange(k + 1, deps@.len() as int).contains(i as usize)
                                    &&& deps@.no_duplicates()
                                    &&& forall|j: int| k + 1 <= j < deps@.len() ==> {
                                        &&& (#[trigger] deps@[j] as int) < st.received_symbols@.len()
                                        &&& st.received_symbols@[deps@[j] as int] is Some
                                        &&& st.received_symbols@[deps@[j] as int]->0.neighbors@.contains(source as u32)
                                    }
                                } by {
                                    assert(deps@[k as int] == dep);
                                    assert(dep < rcv0.len());
                                    let new_s = st.received_symbols@[dep as int]->0;
                                    assert(st.received_symbols@ == rcv0.update(dep as int, Some(new_s)));
                                    assert(new_s.neighbors@ == remove_all(rcv0[dep as int]->0.neighbors@, source as int));
                                    assert forall|i: int| 0 <= i < st.received_symbols@.len() && (#[trigger] st.received_symbols@[i]) is Some
                                        implies spore_matches(st.received_symbols@[i]->0, src, size) by {
                                        if i != dep {
                                            assert(rcv0[i] is Some);
                                        }
                                    }
                                    assert forall|n: int|
                                        0 <= n < st.graph@.len() && n < st.decoded().len() && (#[trigger] st.decoded()[n]) is None
                                        implies graph_exact(st.graph@[n]@, n, st.received_symbols@) by {
                                        let gn = st.graph@[n]@;
                                        assert(graph_exact(gn, n, rcv0));
                                        assert(st.decoded()[source as int] is Some);
                                        assert(n != source);
                                        assert forall|t: int| 0 <= t < gn.len() implies {
                                            &&& (#[trigger] gn[t] as int) < st.received_symbols@.len()
                                            &&& st.received_symbols@[gn[t] as int] is Some
                                            &&& st.received_symbols@[gn[t] as int]->0.neighbors@.contains(n as u32)
                                        } by {
                                            if gn[t] == dep {
                                                lemma_remove_all_contains(rcv0[dep as int]->0.neighbors@, source as int, n as u32);
                                            }
                                        }
                                    }
                                    assert forall|n: int, i: int|
                                        0 <= n < st.graph@.len() && n < st.decoded().len() && st.decoded()[n] is None
                                            && 0 <= i < st.received_symbols@.len() && st.received_symbols@[i] is Some
                                            && st.received_symbols@[i]->0.neighbors@.contains(n as u32)
                                        implies #[trigger] st.graph@[n]@.contains(i as usize) by {
                                        if i == dep {
                                            lemma_remove_all_contains(rcv0[dep as int]->0.neighbors@, source as int, n as u32);
                                        }
                                        assert(rcv0[i] is Some);
                                        assert(rcv0[i]->0.neighbors@.contains(n as u32));
                                    }
                                    assert forall|j: int| k + 1 <= j < deps@.len() implies {
                                        &&& (#[trigger] deps@[j] as int) < st.received_symbols@.len()
                                        &&& st.received_symbols@[deps@[j] as int] is Some
                                        &&& st.received_symbols@[deps@[j] as int]->0.neighbors@.contains(source as u32)
                                    } by {
                                        assert(deps@[j] != deps@[k as int]);
                                    }
                                    assert forall|i: int|
                                        0 <= i < st.received_symbols@.len() && (#[trigger] st.received_symbols@[i]) is Some
                                            && st.received_symbols@[i]->0.neighbors@.contains(source as u32)
                                        implies deps@.subrange(k + 1, deps@.len() as int).contains(i as usize) by {
                                        if i == dep {
                                            lemma_remove_all_contains(rcv0[dep as int]->0.neighbors@, source as int, source as u32);
                                        }
                                        assert(i != dep);
                                        assert(rcv0[i] is Some);
                                        let rest = deps@.subrange(k as int, deps@.len() as int);
                                        assert(rest.contains(i as usize));
                                        let j = choose|j: int| 0 <= j < rest.len() && rest[j] == i as usize;
                                        assert(j != 0);
                                        assert(deps@.subrange(k + 1, deps@.len() as int)[j - 1] == i as usize);
                                    }
                                }
                            }
                            k = k + 1;
                        }
                        proof {
                            assert(deps@.subrange(k as int, deps@.len() as int) =~= Seq::<usize>::empty());
                            assert forall|src: Seq<Seq<u8>>, size: nat| #[trigger] snap.cons(src, size) implies cleared(
                                st.received_symbols@,
                                before,
                                st.decoded(),
                            ) by {
                                let rcv = st.received_symbols@;
                                assert forall|i: int, q: int|
                                    0 <= i < rcv.len() && rcv[i] is Some && 0 <= q < rcv[i]->0.neighbors@.len() implies !(
                                    !decoded_at(before, #[trigger] rcv[i]->0.neighbors@[q]) && decoded_at(
                                        st.decoded(),
                                        rcv[i]->0.neighbors@[q],
                                    )) by {
                                    let n = rcv[i]->0.neighbors@[q];
                                    if !decoded_at(before, n) && decoded_at(st.decoded(), n) {
                                        assert(n as int == source as int);
                                        assert(rcv[i]->0.neighbors@.contains(source as u32));
                                        assert(deps@.subrange(k as int, deps@.len() as int).contains(i as usize));
                                    }
                                }
                            }
                        }
                        changed = true;
                        assert(count_decoded(st.decoded()) == before_count + 1);
                        break;
                    },
                    None => {},
                }
                idx = idx + 1;
            }
            proof {
                lemma_count_decoded_bound(st.decoded());
                if !changed {
                    assert(st.decoded() == before);
                }
                assert forall|i: int|
                    0 <= i < start.len() && (#[trigger] start[i]) is Some implies st.decoded()[i]
                        == start[i] by {
                    assert(before[i] == start[i]);
                }
                assert forall|src: Seq<Seq<u8>>, size: nat| #[trigger] orig.cons(src, size) implies st.cons(src, size) by {
                    assert(snap.cons(src, size));
                }
                assert forall|src: Seq<Seq<u8>>, size: nat| #[trigger] orig.cons(src, size) implies cleared(
                    st.received_symbols@,
                    start,
                    st.decoded(),
                ) by {
                    assert(snap.cons(src, size));
                    assert(cleared(snap.received_symbols@, start, before));
                    lemma_cleared_trans(snap.received_symbols@, st.received_symbols@, start, before, st.decoded());
                }
            }
        }
        proof {
            if changed {
                lemma_count_decoded_bound(st.decoded());
                assert(false);
            }
        }
        if all_decoded_exec(&st.decoded_symbols) {
            st.is_decoded = true;
            proof {
                assert forall|src: Seq<Seq<u8>>, size: nat| #[trigger] orig.cons(src, size) implies st.cons(src, size) by {
                }
            }
            return st.assemble_data();
        }
        None
    }

    /// Decoding progress of `block_id`: the number of decoded source symbols and the
    /// number of source symbols, or `None` when no spore of that block was filed.
    pub fn decoding_progress(&self, block_id: [u8; 32]) -> (p: Option<(usize, usize)>)
        requires
            self.wf(),
        ensures
            p is Some <==> self.has_state() && block_id@ == Seq::new(32, |i: int| 0u8),
            p matches Some((d, c)) ==> d == count_decoded(self.decoded()) && c
                == self.symbol_count(),
            p matches Some((d, c)) ==> d <= c && (d == c <==> all_decoded(self.decoded())),
    {
        let mut zero = true;
        let mut i: usize = 0;
        while i < 32
            invariant
                i <= 32,
                zero <==> forall|t: int| 0 <= t < i ==> block_id@[t] == 0u8,
            decreases 32 - i,
        {
            if block_id[i] != 0u8 {
                zero = false;
            }
            i = i + 1;
        }
        assert(zero <==> block_id@ =~= Seq::new(32, |i: int| 0u8));
        if !zero {
            return None;
        }
        match &self.state {
            Some(st) => {
                let ghost dv = st.decoded();
                let mut n: usize = 0;
                let mut k: usize = 0;
                while k < st.decoded_symbols.len()
                    invariant
                        k <= st.decoded_symbols.len(),
                        dv == st.decoded(),
                        dv.len() == st.decoded_symbols.len(),
                        n == count_decoded(dv.take(k as int)),
                        n <= k,
                    decreases st.decoded_symbols.len() - k,
                {
                    assert(dv.take(k as int + 1).drop_last() =~= dv.take(k as int));
                    if st.decoded_symbols[k].is_some() {
                        n = n + 1;
                    }
                    k = k + 1;
                }
                assert(dv.take(k as int) =~= dv);
                proof {
                    lemma_count_decoded_bound(dv);
                }
                Some((n, st.symbol_count))
            },
            None => None,
        }
    }
}

/// Every slot holds a decoded symbol.
fn all_decoded_exec(d: &Vec<Option<Vec<u8>>>) -> (b: bool)
    ensures
        b == all_decoded(decoded_view(d@)),
{
    let ghost dv = decoded_view(d@);
    let mut i: usize = 0;
    while i < d.len()
        invariant
            i <= d.len(),
            dv == decoded_view(d@),
            forall|t: int| 0 <= t < i ==> (#[trigger] dv[t]) is Some,
        decreases d.len() - i,
    {
        if d[i].is_none() {
            assert(!(dv[i as int] is Some));
            return false;
        }
        i = i + 1;
    }
    true
}


// ---------------------------------------------------------------------------
// Genetic memory
// ---------------------------------------------------------------------------

/// Statistics of a genetic memory.
#[derive(Debug)]
pub struct MemoryStats {
    pub total_spores: usize,
    pub estimated_data_size: usize,
    pub stored_blocks: usize,
}

/// Distributed storage of data blocks as fountain-coded spores.
pub struct GeneticMemory {
    codec: FountainCodec,
    decoder: FountainDecoder,
    stored_blocks: Vec<SourceBlock>,
    spore_storage: Vec<EncodedSymbol>,
}

/// The first `total` bytes of `data` followed by zeros.
pub open spec fn zero_pad(data: Seq<u8>, total: nat) -> Seq<u8> {
    Seq::new(total, |j: int| byte_at(data, j))
}

proof fn lemma_concat_split_prefix(data: Seq<u8>, size: nat, k: nat)
    requires
        size > 0,
        k <= spec_symbol_count(data.len(), size),
    ensures
        concat_source(spec_split(data, size).take(k as int)) =~= zero_pad(data, k * size),
    decreases k,
{
    let sp = spec_split(data, size);
    if k == 0 {
        assert(sp.take(0) =~= Seq::<Seq<u8>>::empty());
        assert(k * size == 0) by (nonlinear_arith)
            requires
                k == 0,
        ;
        assert(zero_pad(data, k * size) =~= Seq::<u8>::empty());
    } else {
        let kk: int = k - 1;
        lemma_concat_split_prefix(data, size, (k - 1) as nat);
        let t = sp.take(k as int);
        assert(t.drop_last() =~= sp.take(kk));
        let m: int = kk * size;
        assert(m + size == k * size) by (nonlinear_arith)
            requires
                m == kk * size,
                kk == k - 1,
        ;
        let chunk = spec_chunk(data, kk, size);
        assert(t.last() == chunk);
        let lhs = zero_pad(data, (k - 1) as nat * size) + chunk;
        assert(lhs.len() == k * size);
        assert forall|j: int| 0 <= j < k * size implies lhs[j] == zero_pad(data, k * size)[j] by {
            if j >= m {
                assert(chunk[j - m] == byte_at(data, kk * size + (j - m)));
            }
        }
        assert(lhs =~= zero_pad(data, k * size));
        assert(t.len() == k);
        assert(concat_source(t) == concat_source(t.drop_last()) + t.last());
    }
}

proof fn lemma_strip_zero_pad(data: Seq<u8>, total: nat)
    requires
        total >= data.len(),
    ensures
        strip_trailing_zeros(zero_pad(data, total)) == strip_trailing_zeros(data),
    decreases total,
{
    let z = zero_pad(data, total);
    if total == data.len() {
        assert(z =~= data);
    } else {
        assert(z.drop_last() =~= zero_pad(data, (total - 1) as nat));
        assert(z.last() == 0u8);
        lemma_strip_zero_pad(data, (total - 1) as nat);
    }
}

/// A block cut into symbols of `size` bytes and put back together gives the data
/// back, up to trailing zero bytes (the padding of the last symbol is zeros).
pub proof fn lemma_split_reassembles(data: Seq<u8>, size: nat)
    requires
        size > 0,
    ensures
        strip_trailing_zeros(concat_source(spec_split(data, size))) == strip_trailing_zeros(data),
{
    let n = spec_symbol_count(data.len(), size);
    let sp = spec_split(data, size);
    lemma_concat_split_prefix(data, size, n);
    assert(sp.take(n as int) =~= sp);
    let q = ((data.len() + size - 1) as nat) / size;
    let r = ((data.len() + size - 1) as nat) % size;
    vstd::arithmetic::div_mod::lemma_fundamental_div_mod((data.len() + size - 1) as int, size as int);
    assert(q == n);
    assert(n * size >= data.len()) by (nonlinear_arith)
        requires
            data.len() + size - 1 == size * q + r,
            r < size,
            q == n,
    ;
    lemma_strip_zero_pad(data, n * size);
}

/// Every spore of `spores` is a spore of the block `src` (symbols of `size` bytes),
/// no two share an index, none lands on a slot `decoder` has filled, and, for a
/// decoder that has not started, the first spore names the block's last symbol.
pub open spec fn spores_fit(
    decoder: FountainDecoder,
    spores: Seq<EncodedSymbol>,
    src: Seq<Seq<u8>>,
    size: nat,
) -> bool {
    &&& forall|j: int| 0 <= j < spores.len() ==> spore_matches(#[trigger] spores[j], src, size)
    &&& forall|j: int, k: int|
        0 <= j < k < spores.len() ==> #[trigger] spores[j].index != #[trigger] spores[k].index
    &&& forall|j: int| 0 <= j < spores.len() ==> decoder.slot_free(#[trigger] spores[j].index)
    &&& !decoder.has_state() && spores.len() > 0 ==> src.len() == spec_block_width(spores[0].neighbors@)
}

/// The spore index `k` places after `start` (indices count up by one and wrap).
pub open spec fn index_after(start: u32, k: nat) -> u32
    decreases k,
{
    if k == 0 {
        start
    } else {
        index_after(start, (k - 1) as nat).wrapping_add(1)
    }
}

/// No spore after the `j`-th of `spores` carries its index (so when the spores are
/// fed in order, the `j`-th is the last one filed at that index).
pub open spec fn last_at_index(spores: Seq<EncodedSymbol>, j: int) -> bool {
    forall|k: int| j < k < spores.len() ==> #[trigger] spores[k].index != spores[j].index
}

/// Feeding `spores` in order to the decoder `before` gave `after`: whenever `before`
/// agrees with a block `src` that all of `spores` fit (see `spores_fit`), `after`
/// agrees with it too, and every spore of degree one that was filed has its source
/// decoded.
pub open spec fn fed_from(before: FountainDecoder, after: FountainDecoder, spores: Seq<EncodedSymbol>) -> bool {
    forall|src: Seq<Seq<u8>>, size: nat|
        #[trigger] before.consistent_with(src, size) && spores_fit(before, spores, src, size) ==> {
            &&& after.consistent_with(src, size)
            &&& forall|j: int|
                0 <= j < spores.len() && (#[trigger] spores[j]).degree == 1 && (spores[j].index as int)
                    < after.received().len() ==> decoded_at(after.decoded(), spores[j].neighbors@[0])
        }
}

/// Two spores carry the same index, degree, neighbours, bytes and checksum.
pub open spec fn same_spore(a: EncodedSymbol, b: EncodedSymbol) -> bool {
    &&& a.index == b.index
    &&& a.degree == b.degree
    &&& a.neighbors@ == b.neighbors@
    &&& a.data@ == b.data@
    &&& a.checksum == b.checksum
}

/// The spore's neighbours are small enough for a decoder to size a block from them.
pub open spec fn spore_sane(s: EncodedSymbol) -> bool {
    forall|i: int|
        0 <= i < s.neighbors@.len() ==> #[trigger] s.neighbors@[i] < u32::MAX && 2 * (
        s.neighbors@[i] + 1) <= usize::MAX
}

/// Every spore of `picked` is a copy of some spore of `pool`.
pub open spec fn drawn_from(picked: Seq<EncodedSymbol>, pool: Seq<EncodedSymbol>) -> bool {
    forall|i: int|
        0 <= i < picked.len() ==> exists|j: int|
            0 <= j < pool.len() && same_spore(#[trigger] picked[i], pool[j])
}

/// Number of spores generated for a block of `n` symbols: one and a half per symbol,
/// rounded down.
pub open spec fn spec_spore_count(n: nat) -> nat {
    n + n / 2
}

/// `storage` followed by the incoming spores whose index it does not hold yet
/// (checked in order, so the first of two incoming spores with one index wins).
pub open spec fn spec_integrate(storage: Seq<EncodedSymbol>, incoming: Seq<EncodedSymbol>) -> Seq<
    EncodedSymbol,
>
    decreases incoming.len(),
{
    if incoming.len() == 0 {
        storage
    } else {
        let acc = spec_integrate(storage, incoming.drop_last());
        if exists|j: int| 0 <= j < acc.len() && (#[trigger] acc[j]).index == incoming.last().index {
            acc
        } else {
            acc.push(incoming.last())
        }
    }
}

/// The ids of the stored blocks.
pub open spec fn block_ids(b: Seq<SourceBlock>) -> Seq<Seq<u8>> {
    b.map_values(|x: SourceBlock| x.id@)
}

/// Copies a spore field by field.
fn copy_spore(s: &EncodedSymbol) -> (r: EncodedSymbol)
    ensures
        same_spore(r, *s),
{
    let neighbors = s.neighbors.clone();
    let data = s.data.clone();
    assert(neighbors@ =~= s.neighbors@);
    assert(data@ =~= s.data@);
    EncodedSymbol { index: s.index, degree: s.degree, neighbors, data, checksum: s.checksum }
}

/// The two ids are equal.
fn ids_equal(a: &[u8; 32], b: &[u8; 32]) -> (r: bool)
    ensures
        r == (a@ == b@),
{
    let mut i: usize = 0;
    while i < 32
        invariant
            i <= 32,
            forall|t: int| 0 <= t < i ==> a@[t] == b@[t],
        decreases 32 - i,
    {
        if a[i] != b[i] {
            return false;
        }
        i = i + 1;
    }
    assert(a@ =~= b@);
    true
}

impl GeneticMemory {
    /// The spores held in storage.
    pub closed spec fn spores(&self) -> Seq<EncodedSymbol> {
        self.spore_storage@
    }

    /// The ids of the stored blocks (each appears once).
    pub closed spec fn blocks(&self) -> Seq<Seq<u8>> {
        block_ids(self.stored_blocks@)
    }

    /// The index the next spore made here will carry.
    pub closed spec fn next_spore_index(&self) -> u32 {
        self.codec.next_index_spec()
    }

    /// The memory's decoder.
    pub closed spec fn decoder_spec(&self) -> FountainDecoder {
        self.decoder
    }

    /// A well-formed memory's decoder is well formed and made for symbols of
    /// `DEFAULT_SYMBOL_SIZE` bytes (its shape then follows from `lemma_shape`).
    pub proof fn lemma_decoder(&self)
        requires
            self.wf(),
        ensures
            self.decoder_spec().wf(),
            self.decoder_spec().symbol_size_spec() == DEFAULT_SYMBOL_SIZE,
    {
    }

    /// The memory's internal invariant.
    pub closed spec fn wf(&self) -> bool {
        &&& self.decoder.wf()
        &&& self.codec.symbol_size == DEFAULT_SYMBOL_SIZE
        &&& self.decoder.symbol_size == DEFAULT_SYMBOL_SIZE
        &&& !self.decoder.has_state() && self.spore_storage@.len() > 0 ==> spore_sane(self.spore_storage@[0])
        &&& block_ids(self.stored_blocks@).no_duplicates()
    }

    /// An empty memory.
    pub fn new() -> (m: Self)
        ensures
            m.wf(),
            m.spores().len() == 0,
            m.blocks().len() == 0,
            !m.decoder_spec().has_state(),
            m.decoder_spec().received().len() == 0,
            m.next_spore_index() == 0,
            forall|src: Seq<Seq<u8>>, size: nat|
                source_fits(src, size) ==> #[trigger] m.decoder_spec().consistent_with(src, size),
    {
        GeneticMemory {
            codec: FountainCodec::new(),
            decoder: FountainDecoder::new(DEFAULT_SYMBOL_SIZE),
            stored_blocks: Vec::new(),
            spore_storage: Vec::new(),
        }
    }

    /// Number of source symbols a block of `len` bytes is cut into.
    pub fn symbol_count_for(len: usize) -> (n: usize)
        requires
            len + DEFAULT_SYMBOL_SIZE <= usize::MAX,
        ensures
            n == spec_symbol_count(len as nat, DEFAULT_SYMBOL_SIZE as nat),
    {
        (len + DEFAULT_SYMBOL_SIZE - 1) / DEFAULT_SYMBOL_SIZE
    }

    /// Number of spores generated when a block of `len` bytes is stored.
    pub fn spore_count_for(len: usize) -> (n: usize)
        requires
            len + DEFAULT_SYMBOL_SIZE <= usize::MAX,
        ensures
            n == spec_spore_count(spec_symbol_count(len as nat, DEFAULT_SYMBOL_SIZE as nat)),
    {
        let k = Self::symbol_count_for(len);
        k + k / 2
    }

    /// Stores `data`: encodes it, generates one and a half spores per symbol (their
    /// degrees, drawn from the codec's distribution, are the first entries of
    /// `degrees`), keeps the spores and the block, and returns the block id.
    pub fn store(&mut self, data: &[u8], degrees: &[usize]) -> (id: [u8; 32])
        requires
            old(self).wf(),
            data.len() + DEFAULT_SYMBOL_SIZE <= usize::MAX,
            spec_symbol_count(data.len() as nat, DEFAULT_SYMBOL_SIZE as nat) < u32::MAX,
            2 * spec_symbol_count(data.len() as nat, DEFAULT_SYMBOL_SIZE as nat) <= usize::MAX,
            degrees.len() >= spec_spore_count(spec_symbol_count(data.len() as nat, DEFAULT_SYMBOL_SIZE as nat)),
            forall|i: int|
                0 <= i < degrees.len() ==> 1 <= #[trigger] degrees@[i] <= spec_symbol_count(
                    data.len() as nat,
                    DEFAULT_SYMBOL_SIZE as nat,
                ) && degrees@[i] <= u16::MAX,
        ensures
            final(self).wf(),
            id@ == blake3_digest(data@),
            final(self).decoder_spec() == old(self).decoder_spec(),
            final(self).spores().len() == old(self).spores().len() + spec_spore_count(
                spec_symbol_count(data.len() as nat, DEFAULT_SYMBOL_SIZE as nat),
            ),
            final(self).spores().take(old(self).spores().len() as int) == old(self).spores(),
            forall|i: int|
                old(self).spores().len() <= i < final(self).spores().len() ==> {
                    let s = #[trigger] final(self).spores()[i];
                    &&& s.degree == degrees@[i - old(self).spores().len()]
                    &&& s.index == index_after(old(self).next_spore_index(), (i - old(self).spores().len()) as nat)
                    &&& spore_matches(s, spec_split(data@, DEFAULT_SYMBOL_SIZE as nat), DEFAULT_SYMBOL_SIZE as nat)
                    &&& s.checksum == spec_checksum(s.data@)
                },
            final(self).next_spore_index() == index_after(
                old(self).next_spore_index(),
                spec_spore_count(spec_symbol_count(data.len() as nat, DEFAULT_SYMBOL_SIZE as nat)),
            ),
            final(self).blocks().contains(blake3_digest(data@)),
            forall|b: Seq<u8>| #[trigger] final(self).blocks().contains(b) <==> (old(self).blocks().contains(b) || b == blake3_digest(data@)),
    {
        let block = self.codec.encode(data);
        let id = block.id;
        let n = block.symbol_count;
        proof {
            assert(block.symbols_view().len() == block.symbols@.len());
            assert(n == spec_symbol_count(data.len() as nat, DEFAULT_SYMBOL_SIZE as nat));
        }
        let spore_count = n + n / 2;
        let mut spores: Vec<EncodedSymbol> = Vec::new();
        let ghost old_storage = self.spore_storage@;
        let ghost src = block.symbols_view();
        let mut i: usize = 0;
        while i < spore_count
            invariant
                i <= spore_count,
                spore_count == n + n / 2,
                n == block.symbol_count,
                n == block.symbols.len(),
                n == spec_symbol_count(data.len() as nat, DEFAULT_SYMBOL_SIZE as nat),
                src == block.symbols_view(),
                src == spec_split(data@, DEFAULT_SYMBOL_SIZE as nat),
                source_fits(src, DEFAULT_SYMBOL_SIZE as nat),
                n < u32::MAX,
                2 * n <= usize::MAX,
                degrees.len() >= spore_count,
                forall|i: int| 0 <= i < degrees.len() ==> 1 <= #[trigger] degrees@[i] <= n && degrees@[i] <= u16::MAX,
                self.codec.symbol_size == DEFAULT_SYMBOL_SIZE,
                self.decoder == old(self).decoder,
                self.stored_blocks@ == old(self).stored_blocks@,
                old(self).wf(),
                self.spore_storage@.len() == old_storage.len() + i,
                self.spore_storage@.take(old_storage.len() as int) == old_storage,
                forall|t: int| old_storage.len() <= t < self.spore_storage@.len() ==> spore_sane(#[trigger] self.spore_storage@[t]),
                forall|t: int|
                    old_storage.len() <= t < self.spore_storage@.len() ==> {
                        let s = #[trigger] self.spore_storage@[t];
                        &&& s.degree == degrees@[t - old_storage.len()]
                        &&& s.index == index_after(old(self).codec.next_index_spec(), (t - old_storage.len()) as nat)
                        &&& spore_matches(s, src, DEFAULT_SYMBOL_SIZE as nat)
                        &&& s.checksum == spec_checksum(s.data@)
                    },
                self.codec.next_index_spec() == index_after(old(self).codec.next_index_spec(), i as nat),
            decreases spore_count - i,
        {
            let s = self.codec.generate_symbol(&block, degrees[i]);
            proof {
                assert forall|k: int| 0 <= k < s.neighbors@.len() implies #[trigger] s.neighbors@[k] < u32::MAX && 2 * (
                    s.neighbors@[k] + 1) <= usize::MAX by {
                    assert((s.neighbors@[k] as nat) < n);
                }
            }
            let ghost before = self.spore_storage@;
            self.spore_storage.push(s);
            proof {
                assert(self.spore_storage@.take(old_storage.len() as int) =~= before.take(old_storage.len() as int));
            }
            i = i + 1;
        }
        // Keep the block, replacing one with the same id.
        let ghost old_blocks = self.stored_blocks@;
        let mut k: usize = 0;
        let mut found = false;
        while k < self.stored_blocks.len()
            invariant_except_break
                !found,
            invariant
                k <= self.stored_blocks.len(),
                self.stored_blocks@ == old_blocks,
                forall|t: int| 0 <= t < k ==> (#[trigger] self.stored_blocks@[t]).id@ != id@,
            ensures
                found ==> k < self.stored_blocks.len() && self.stored_blocks@[k as int].id@ == id@,
                !found ==> k == self.stored_blocks.len(),
            decreases self.stored_blocks.len() - k,
        {
            if ids_equal(&self.stored_blocks[k].id, &id) {
                found = true;
                break;
            }
            k = k + 1;
        }
        let ghost bid = blake3_digest(data@);
        if found && k < self.stored_blocks.len() {
            let mut b = block;
            self.stored_blocks.set_and_swap(k, &mut b);
            proof {
                assert(block_ids(self.stored_blocks@) =~= block_ids(old_blocks).update(k as int, bid));
                assert(block_ids(old_blocks)[k as int] == bid);
                assert(block_ids(self.stored_blocks@) =~= block_ids(old_blocks));
                assert(block_ids(self.stored_blocks@)[k as int] == bid);
            }
        } else {
            self.stored_blocks.push(block);
            proof {
                assert(block_ids(self.stored_blocks@) =~= block_ids(old_blocks).push(bid));
                assert(!block_ids(old_blocks).contains(bid)) by {
                    if block_ids(old_blocks).contains(bid) {
                        let j = choose|j: int| 0 <= j < block_ids(old_blocks).len() && block_ids(old_blocks)[j] == bid;
                        assert(old_blocks[j].id@ == bid);
                    }
                }
                assert(block_ids(self.stored_blocks@)[old_blocks.len() as int] == bid);
                assert forall|b: Seq<u8>| #[trigger] block_ids(self.stored_blocks@).contains(b) <==> (block_ids(old_blocks).contains(b) || b == bid) by {
                    if block_ids(self.stored_blocks@).contains(b) {
                        let j = choose|j: int| 0 <= j < block_ids(self.stored_blocks@).len() && block_ids(self.stored_blocks@)[j] == b;
                        if j < old_blocks.len() {
                            assert(block_ids(old_blocks)[j] == b);
                        }
                    }
                    if block_ids(old_blocks).contains(b) {
                        let j = choose|j: int| 0 <= j < block_ids(old_blocks).len() && block_ids(old_blocks)[j] == b;
                        assert(block_ids(self.stored_blocks@)[j] == b);
                    }
                }
            }
        }
        id
    }

    /// Feeds every stored spore to the decoder and returns each reassembled result.
    pub fn recover(&mut self) -> (recovered: Vec<Vec<u8>>)
        requires
            old(self).wf(),
        ensures
            final(self).wf(),
            final(self).spores() == old(self).spores(),
            final(self).blocks() == old(self).blocks(),
            final(self).next_spore_index() == old(self).next_spore_index(),
            recovered@.len() <= old(self).spores().len(),
            recovered@.len() > 0 <==> old(self).spores().len() > 0 && all_decoded(
                final(self).decoder_spec().decoded(),
            ),
            forall|i: int|
                0 <= i < recovered@.len() ==> (#[trigger] recovered@[i])@ == strip_trailing_zeros(
                    concat_decoded(final(self).decoder_spec().decoded()),
                ),
            old(self).decoder_spec().has_state() ==> decoded_grows(
                old(self).decoder_spec().decoded(),
                final(self).decoder_spec().decoded(),
            ),
            fed_from(old(self).decoder_spec(), final(self).decoder_spec(), old(self).spores()),
            stalled(final(self).decoder_spec().received(), final(self).decoder_spec().decoded()),
            old(self).decoder_spec().has_state() || old(self).spores().len() > 0
                ==> final(self).decoder_spec().has_state(),
            forall|j: int|
                0 <= j < old(self).spores().len() && (old(self).spores()[j].index as int)
                    < final(self).decoder_spec().received().len() && last_at_index(old(self).spores(), j)
                    ==> spore_kept(
                    Some(#[trigger] old(self).spores()[j]),
                    final(self).decoder_spec().received()[old(self).spores()[j].index as int],
                    final(self).decoder_spec().decoded(),
                ),
            forall|src: Seq<Seq<u8>>, size: nat|
                #[trigger] old(self).decoder_spec().consistent_with(src, size) && spores_fit(
                    old(self).decoder_spec(),
                    old(self).spores(),
                    src,
                    size,
                ) ==> forall|t: int|
                    0 <= t < recovered@.len() ==> (#[trigger] recovered@[t])@ == strip_trailing_zeros(
                        concat_source(src),
                    ),
    {
        let ghost dec0 = self.decoder;
        let ghost sp = self.spore_storage@;
        let mut recovered: Vec<Vec<u8>> = Vec::new();
        let mut i: usize = 0;
        while i < self.spore_storage.len()
            invariant
                i <= self.spore_storage.len(),
                self.wf(),
                self.spore_storage@ == old(self).spore_storage@,
                self.codec == old(self).codec,
                self.stored_blocks@ == old(self).stored_blocks@,
                recovered@.len() <= i,
                i > 0 ==> self.decoder.has_state(),
                i > 0 ==> (recovered@.len() > 0 <==> all_decoded(self.decoder.decoded())),
                i == 0 ==> recovered@.len() == 0,
                recovered@.len() > 0 ==> all_decoded(self.decoder.decoded()),
                forall|t: int|
                    0 <= t < recovered@.len() ==> (#[trigger] recovered@[t])@ == strip_trailing_zeros(
                        concat_decoded(self.decoder.decoded()),
                    ),
                dec0 == old(self).decoder,
                sp == old(self).spore_storage@,
                !self.decoder.has_state() ==> i == 0 && self.decoder == dec0,
                dec0.has_state() ==> decoded_grows(dec0.decoded(), self.decoder.decoded()),
                i > 0 ==> stalled(self.decoder.received(), self.decoder.decoded()),
                forall|j: int|
                    0 <= j < i && (sp[j].index as int) < self.decoder.received().len() && (forall|k: int|
                        j < k < i ==> #[trigger] sp[k].index != sp[j].index) ==> spore_kept(
                        Some(#[trigger] sp[j]),
                        self.decoder.received()[sp[j].index as int],
                        self.decoder.decoded(),
                    ),
                forall|src: Seq<Seq<u8>>, size: nat|
                    #[trigger] dec0.consistent_with(src, size) && spores_fit(dec0, sp, src, size) ==> {
                        &&& self.decoder.consistent_with(src, size)
                        &&& forall|j: int| i <= j < sp.len() ==> self.decoder.slot_free(#[trigger] sp[j].index)
                        &&& forall|j: int|
                            0 <= j < i && (#[trigger] sp[j]).degree == 1 && (sp[j].index as int)
                                < self.decoder.received().len() ==> decoded_at(self.decoder.decoded(), sp[j].neighbors@[0])
                    },
            decreases self.spore_storage.len() - i,
        {
            let spore = copy_spore(&self.spore_storage[i]);
            assert(!self.decoder.has_state() ==> spore_sane(self.spore_storage@[i as int]));
            let ghost dec_before = self.decoder.decoded();
            let ghost had = self.decoder.has_state();
            let ghost d_before = self.decoder;
            let ghost spv = spore;
            let r = self.decoder.add_symbol(spore);
            proof {
                let dn = self.decoder;
                assert(same_spore(spv, sp[i as int]));
                assert forall|j: int|
                    0 <= j < i + 1 && (sp[j].index as int) < dn.received().len() && (forall|k: int|
                        j < k < i + 1 ==> #[trigger] sp[k].index != sp[j].index) implies spore_kept(
                        Some(#[trigger] sp[j]),
                        dn.received()[sp[j].index as int],
                        dn.decoded(),
                    ) by {
                    let x = sp[j].index as int;
                    if j == i {
                        assert(spore_kept(Some(spv), dn.received()[x], dn.decoded()));
                    } else {
                        assert(sp[i as int].index != sp[j].index);
                        assert(d_before.has_state());
                        assert(d_before.received().len() == dn.received().len());
                        assert(forall|k: int| j < k < i ==> #[trigger] sp[k].index != sp[j].index);
                        assert(spore_kept(Some(sp[j]), d_before.received()[x], d_before.decoded()));
                        assert(spore_kept(d_before.start_received(spv)[x], dn.received()[x], dn.decoded()));
                        lemma_spore_kept_trans(Some(sp[j]), d_before.received()[x], dn.received()[x], d_before.decoded(), dn.decoded());
                    }
                }
                if dec0.has_state() {
                    assert(decoded_grows(d_before.decoded(), self.decoder.decoded()));
                    assert forall|t: int| 0 <= t < dec0.decoded().len() && (#[trigger] dec0.decoded()[t]) is Some
                        implies self.decoder.decoded()[t] == dec0.decoded()[t] by {
                        assert(d_before.decoded()[t] == dec0.decoded()[t]);
                    }
                }
                assert forall|src: Seq<Seq<u8>>, size: nat|
                    #[trigger] dec0.consistent_with(src, size) && spores_fit(dec0, sp, src, size) implies {
                        &&& self.decoder.consistent_with(src, size)
                        &&& forall|j: int| i + 1 <= j < sp.len() ==> self.decoder.slot_free(#[trigger] sp[j].index)
                        &&& forall|j: int|
                            0 <= j < i + 1 && (#[trigger] sp[j]).degree == 1 && (sp[j].index as int)
                                < self.decoder.received().len() ==> decoded_at(self.decoder.decoded(), sp[j].neighbors@[0])
                    } by {
                    assert(same_spore(spv, sp[i as int]));
                    assert(spore_matches(sp[i as int], src, size));
                    assert(spore_matches(spv, src, size));
                    assert(i == 0 ==> sp[0].neighbors@ == spv.neighbors@);
                    assert(d_before.slot_free(sp[i as int].index));
                    assert(d_before.consistent_with(src, size));
                    let dn = self.decoder;
                    assert(dn.consistent_with(src, size));
                    assert(decoded_grows(d_before.start_decoded(spv), dn.decoded()));
                    assert forall|j: int| i + 1 <= j < sp.len() implies dn.slot_free(#[trigger] sp[j].index) by {
                        assert(sp[j].index != sp[i as int].index);
                        assert(d_before.slot_free(sp[j].index));
                        let x = sp[j].index as int;
                        if x < dn.received().len() {
                            assert(spore_kept(d_before.start_received(spv)[x], dn.received()[x], dn.decoded()));
                        }
                    }
                    assert forall|j: int|
                        0 <= j < i + 1 && (#[trigger] sp[j]).degree == 1 && (sp[j].index as int)
                            < dn.received().len() implies decoded_at(dn.decoded(), sp[j].neighbors@[0]) by {
                        if j < i {
                            assert(d_before.has_state());
                            assert(decoded_at(d_before.decoded(), sp[j].neighbors@[0]));
                        }
                    }
                }
                if had && all_decoded(dec_before) {
                    assert(self.decoder.decoded() =~= dec_before) by {
                        assert forall|t: int| 0 <= t < dec_before.len() implies self.decoder.decoded()[t] == dec_before[t] by {
                            assert(dec_before[t] is Some);
                        }
                    }
                }
            }
            match r {
                Some(d) => {
                    recovered.push(d);
                },
                None => {},
            }
            i = i + 1;
        }
        proof {
            if i == 0 {
                self.decoder.lemma_stalled();
            }
            assert forall|j: int|
                0 <= j < sp.len() && (sp[j].index as int) < self.decoder.received().len() && last_at_index(sp, j)
                implies spore_kept(Some(#[trigger] sp[j]), self.decoder.received()[sp[j].index as int], self.decoder.decoded()) by {
                assert(forall|k: int| j < k < i ==> #[trigger] sp[k].index != sp[j].index);
            }
            assert forall|src: Seq<Seq<u8>>, size: nat|
                #[trigger] dec0.consistent_with(src, size) && spores_fit(dec0, sp, src, size) implies forall|t: int|
                    0 <= t < recovered@.len() ==> (#[trigger] recovered@[t])@ == strip_trailing_zeros(
                        concat_source(src),
                    ) by {
                if recovered@.len() > 0 {
                    self.decoder.lemma_shape();
                    self.decoder.lemma_consistent(src, size);
                    lemma_concat_agree(self.decoder.decoded(), src);
                }
            }
        }
        recovered
    }

    /// Picks `min(count, spores)` stored spores at random (with repetition) for sending.
    pub fn get_spores_to_broadcast(&self, count: usize) -> (picked: Vec<EncodedSymbol>)
        ensures
            picked@.len() == if count < self.spores().len() {
                count as nat
            } else {
                self.spores().len()
            },
            drawn_from(picked@, self.spores()),
    {
        let n = if count < self.spore_storage.len() {
            count
        } else {
            self.spore_storage.len()
        };
        let mut picked: Vec<EncodedSymbol> = Vec::new();
        let mut i: usize = 0;
        while i < n
            invariant
                i <= n,
                n <= self.spore_storage.len(),
                picked@.len() == i,
                n <= self.spores().len(),
                drawn_from(picked@, self.spores()),
            decreases n - i,
        {
            let j = random_below(self.spore_storage.len());
            let s = copy_spore(&self.spore_storage[j]);
            let ghost before = picked@;
            picked.push(s);
            proof {
                assert forall|t: int| 0 <= t < picked@.len() implies exists|q: int|
                    0 <= q < self.spores().len() && same_spore(#[trigger] picked@[t], self.spores()[q]) by {
                    if t < before.len() {
                        assert(picked@[t] == before[t]);
                    } else {
                        assert(same_spore(picked@[t], self.spores()[j as int]));
                    }
                }
            }
            i = i + 1;
        }
        picked
    }

    /// Adds the incoming spores whose index is not stored yet; when any was added,
    /// tries to recover data. Returns the number of spores added.
    pub fn integrate_spores(&mut self, incoming_spores: Vec<EncodedSymbol>) -> (added: usize)
        requires
            old(self).wf(),
            !old(self).decoder_spec().has_state() && old(self).spores().len() == 0 && incoming_spores@.len() > 0
                ==> spore_sane(incoming_spores@[0]),
        ensures
            final(self).wf(),
            final(self).spores() == spec_integrate(old(self).spores(), incoming_spores@),
            added == final(self).spores().len() - old(self).spores().len(),
            final(self).blocks() == old(self).blocks(),
            final(self).next_spore_index() == old(self).next_spore_index(),
            added == 0 ==> final(self).decoder_spec() == old(self).decoder_spec(),
            added > 0 ==> fed_from(old(self).decoder_spec(), final(self).decoder_spec(), final(self).spores()),
            added > 0 ==> stalled(final(self).decoder_spec().received(), final(self).decoder_spec().decoded()),
            added > 0 ==> final(self).decoder_spec().has_state(),
            added > 0 ==> forall|j: int|
                0 <= j < final(self).spores().len() && (final(self).spores()[j].index as int)
                    < final(self).decoder_spec().received().len() && last_at_index(final(self).spores(), j)
                    ==> spore_kept(
                    Some(#[trigger] final(self).spores()[j]),
                    final(self).decoder_spec().received()[final(self).spores()[j].index as int],
                    final(self).decoder_spec().decoded(),
                ),
            old(self).decoder_spec().has_state() ==> decoded_grows(
                old(self).decoder_spec().decoded(),
                final(self).decoder_spec().decoded(),
            ),
    {
        let start_len = self.spore_storage.len();
        let ghost start = self.spore_storage@;
        let ghost inc = incoming_spores@;
        let in_len = incoming_spores.len();
        assert(inc.len() == in_len);
        let mut rest = incoming_spores;
        let mut i: usize = 0;
        while rest.len() > 0
            invariant
                i <= inc.len(),
                rest@ == inc.skip(i as int),
                self.wf(),
                !old(self).decoder.has_state() && start.len() == 0 && inc.len() > 0 ==> spore_sane(inc[0]),
                start == old(self).spore_storage@,
                self.stored_blocks@ == old(self).stored_blocks@,
                self.decoder == old(self).decoder,
                self.codec == old(self).codec,
                self.spore_storage@ == spec_integrate(start, inc.take(i as int)),
                self.spore_storage@.len() >= start.len(),
                start_len == start.len(),
                inc.len() <= usize::MAX,
            decreases rest.len(),
        {
            let ghost acc = self.spore_storage@;
            let s = rest.remove(0);
            assert(s == inc[i as int]);
            let mut exists = false;
            let mut j: usize = 0;
            while j < self.spore_storage.len()
                invariant
                    j <= self.spore_storage.len(),
                    self.spore_storage@ == acc,
                    !exists ==> forall|t: int| 0 <= t < j ==> (#[trigger] acc[t]).index != s.index,
                    exists ==> exists|t: int| 0 <= t < acc.len() && (#[trigger] acc[t]).index == s.index,
                decreases self.spore_storage.len() - j,
            {
                if self.spore_storage[j].index == s.index {
                    exists = true;
                    assert(acc[j as int].index == s.index);
                }
                j = j + 1;
            }
            proof {
                let pre = inc.take(i as int + 1);
                assert(pre.drop_last() =~= inc.take(i as int));
                assert(pre.last() == s);
                assert(rest@ =~= inc.skip(i as int + 1));
            }
            if !exists {
                proof {
                    if acc.len() == 0 && start.len() == 0 {
                        assert(i == 0) by {
                            if i > 0 {
                                assert(spec_integrate(start, inc.take(i as int)).len() > 0);
                            }
                        }
                    }
                }
                self.spore_storage.push(s);
            }
            i = i + 1;
        }
        assert(inc.take(i as int) =~= inc);
        let added = self.spore_storage.len() - start_len;
        if added > 0 {
            let _recovered = self.recover();
        }
        added
    }

    /// Drops spores beyond the first `max_spores`; returns how many were dropped.
    pub fn prune_old_spores(&mut self, max_spores: usize) -> (removed: usize)
        requires
            old(self).wf(),
        ensures
            final(self).wf(),
            final(self).spores() == if old(self).spores().len() > max_spores {
                old(self).spores().take(max_spores as int)
            } else {
                old(self).spores()
            },
            removed == old(self).spores().len() - final(self).spores().len(),
            final(self).blocks() == old(self).blocks(),
            final(self).next_spore_index() == old(self).next_spore_index(),
            final(self).decoder_spec() == old(self).decoder_spec(),
    {
        let original_len = self.spore_storage.len();
        if self.spore_storage.len() > max_spores {
            self.spore_storage.truncate(max_spores);
        }
        original_len - self.spore_storage.len()
    }

    /// Number of spores, their estimated size in bytes and the number of stored blocks.
    pub fn memory_stats(&self) -> (st: MemoryStats)
        requires
            self.spores().len() * DEFAULT_SYMBOL_SIZE <= usize::MAX,
        ensures
            st.total_spores == self.spores().len(),
            st.estimated_data_size == self.spores().len() * DEFAULT_SYMBOL_SIZE,
            st.stored_blocks == self.blocks().len(),
    {
        MemoryStats {
            total_spores: self.spore_storage.len(),
            estimated_data_size: self.spore_storage.len() * DEFAULT_SYMBOL_SIZE,
            stored_blocks: self.stored_blocks.len(),
        }
    }
}

impl Default for GeneticMemory {
    fn default() -> (m: Self)
        ensures
            m.wf(),
            m.spores().len() == 0,
            m.blocks().len() == 0,
    {
        Self::new()
    }
}

} // verus!
