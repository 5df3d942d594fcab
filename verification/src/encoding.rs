//! Text encodings used on the air: base32 (RFC 4648, unpadded) and hexadecimal.

use vstd::prelude::*;

verus! {

/// The unpadded RFC 4648 base32 text of `data`, as ASCII bytes.
pub uninterp spec fn base32_text(data: Seq<u8>) -> Seq<u8>;

/// What `base32::decode` gives for the text `text` with the unpadded RFC 4648 alphabet.
pub uninterp spec fn base32_parse(text: Seq<char>) -> Option<Seq<u8>>;

/// The bytes read as characters, one for one.
pub open spec fn ascii_chars(b: Seq<u8>) -> Seq<char> {
    b.map_values(|c: u8| c as char)
}

/// A byte of the RFC 4648 base32 alphabet (`A`-`Z`, `2`-`7`).
pub open spec fn is_base32_byte(c: u8) -> bool {
    (65 <= c <= 90) || (50 <= c <= 55)
}

/// Calls `base32::encode` with the unpadded RFC 4648 alphabet and returns the
/// text's bytes.
/// Trusted: the text is a function of `data`; it has `(8 * len + 4) / 5`
/// characters, all from the alphabet (the crate emits eight characters per five
/// bytes and cuts the unused ones of the last group).
#[verifier::external_body]
pub(crate) fn base32_encode(data: &[u8]) -> (text: Vec<u8>)
    ensures
        text@ == base32_text(data@),
        text@.len() == (8 * data@.len() + 4) / 5,
        forall|i: int| 0 <= i < text@.len() ==> is_base32_byte(#[trigger] text@[i]),
{
    base32::encode(base32::Alphabet::RFC4648 { padding: false }, data).into_bytes()
}

/// Calls `base32::decode` with the unpadded RFC 4648 alphabet.
/// Trusted: the result is a function of the text; the text of `x`, as made by
/// `base32::encode` with the same alphabet, decodes to `x` (the crate's own
/// round-trip test states this).
#[verifier::external_body]
pub(crate) fn base32_decode(text: &str) -> (r: Option<Vec<u8>>)
    ensures
        r is Some <==> base32_parse(text@) is Some,
        r is Some ==> base32_parse(text@) == Some(r.unwrap()@),
        forall|x: Seq<u8>| text@ == ascii_chars(#[trigger] base32_text(x)) ==> r is Some && r.unwrap()@ == x,
{
    base32::decode(base32::Alphabet::RFC4648 { padding: false }, text)
}


/// The lowercase hexadecimal digit for `d` (below 16).
pub open spec fn hex_digit(d: nat) -> u8 {
    if d < 10 {
        (48 + d) as u8
    } else {
        (87 + d) as u8
    }
}

/// The lowercase hexadecimal digits of `n`, without leading zeros ("0" for zero).
pub open spec fn spec_hex(n: nat) -> Seq<u8>
    decreases n,
{
    if n < 16 {
        seq![hex_digit(n)]
    } else {
        spec_hex(n / 16).push(hex_digit(n % 16))
    }
}

/// The hexadecimal digits of `n`, left-padded with zeros to at least `width`.
pub open spec fn spec_hex_padded(n: nat, width: nat) -> Seq<u8> {
    let d = spec_hex(n);
    if d.len() < width {
        Seq::new((width - d.len()) as nat, |i: int| 48u8) + d
    } else {
        d
    }
}

/// The value of one hexadecimal digit (either case), if it is one.
pub open spec fn hex_value(c: u8) -> Option<nat> {
    if 48 <= c <= 57 {
        Some((c - 48) as nat)
    } else if 97 <= c <= 102 {
        Some((c - 87) as nat)
    } else if 65 <= c <= 70 {
        Some((c - 55) as nat)
    } else {
        None
    }
}

/// Every byte is a hexadecimal digit.
pub open spec fn all_hex(s: Seq<u8>) -> bool {
    forall|i: int| 0 <= i < s.len() ==> (#[trigger] hex_value(s[i])) is Some
}

/// The number the hexadecimal digits spell.
pub open spec fn hex_number(s: Seq<u8>) -> nat
    decreases s.len(),
{
    if s.len() == 0 {
        0
    } else {
        hex_number(s.drop_last()) * 16 + hex_value(s.last()).unwrap()
    }
}

/// `usize::from_str_radix(s, 16)`: an optional `+`, then one or more hexadecimal
/// digits whose value fits in a `usize`.
pub open spec fn spec_parse_hex_usize(s: Seq<u8>) -> Option<nat> {
    let digits = if s.len() > 0 && s[0] == 43u8 {
        s.drop_first()
    } else {
        s
    };
    if digits.len() > 0 && all_hex(digits) && hex_number(digits) <= usize::MAX {
        Some(hex_number(digits))
    } else {
        None
    }
}

/// The lowercase hexadecimal digits of `n`, without leading zeros.
pub fn hex_digits(n: u64) -> (r: Vec<u8>)
    ensures
        r@ == spec_hex(n as nat),
    decreases n,
{
    let d = (n % 16) as u8;
    let c: u8 = if d < 10 {
        48 + d
    } else {
        87 + d
    };
    if n < 16 {
        let mut v: Vec<u8> = Vec::new();
        v.push(c);
        v
    } else {
        let mut v = hex_digits(n / 16);
        v.push(c);
        v
    }
}

/// `format!("{:08x}", n)`: the lowercase hexadecimal digits of `n`, left-padded
/// with zeros to eight.
pub fn hex_padded8(n: u64) -> (r: Vec<u8>)
    ensures
        r@ == spec_hex_padded(n as nat, 8),
{
    let d = hex_digits(n);
    if d.len() < 8 {
        let mut v: Vec<u8> = Vec::new();
        let pad = 8 - d.len();
        let mut i: usize = 0;
        while i < pad
            invariant
                i <= pad,
                v@ == Seq::new(i as nat, |j: int| 48u8),
            decreases pad - i,
        {
            v.push(48u8);
            assert(v@ =~= Seq::new((i + 1) as nat, |j: int| 48u8));
            i = i + 1;
        }
        let mut k: usize = 0;
        let ghost zeros = v@;
        while k < d.len()
            invariant
                k <= d@.len(),
                v@ == zeros + d@.take(k as int),
            decreases d@.len() - k,
        {
            v.push(d[k]);
            assert(d@.take(k + 1) =~= d@.take(k as int).push(d@[k as int]));
            k = k + 1;
        }
        assert(d@.take(k as int) =~= d@);
        v
    } else {
        d
    }
}

/// `usize::from_str_radix(s, 16)`, with `None` for an error.
pub fn parse_hex_usize(s: &[u8]) -> (r: Option<usize>)
    ensures
        r is Some <==> spec_parse_hex_usize(s@) is Some,
        r matches Some(v) ==> spec_parse_hex_usize(s@) == Some(v as nat),
{
    let start: usize = if s.len() > 0 && s[0] == 43u8 {
        1
    } else {
        0
    };
    let ghost digits = if s@.len() > 0 && s@[0] == 43u8 {
        s@.drop_first()
    } else {
        s@
    };
    assert(digits =~= s@.subrange(start as int, s@.len() as int));
    if start >= s.len() {
        return None;
    }
    let mut acc: usize = 0;
    let mut i: usize = start;
    while i < s.len()
        invariant
            start <= i <= s@.len(),
            digits == s@.subrange(start as int, s@.len() as int),
            digits == (if s@.len() > 0 && s@[0] == 43u8 {
                s@.drop_first()
            } else {
                s@
            }),
            all_hex(s@.subrange(start as int, i as int)),
            acc as nat == hex_number(s@.subrange(start as int, i as int)),
        decreases s@.len() - i,
    {
        let c = s[i];
        let v: usize = if 48 <= c && c <= 57 {
            (c - 48) as usize
        } else if 97 <= c && c <= 102 {
            (c - 87) as usize
        } else if 65 <= c && c <= 70 {
            (c - 55) as usize
        } else {
            proof {
                assert(!all_hex(digits)) by {
                    assert(digits[i - start] == c);
                    assert(hex_value(digits[i - start]) is None);
                }
            }
            return None;
        };
        let ghost pre = s@.subrange(start as int, i as int);
        let ghost next = s@.subrange(start as int, i + 1);
        assert(next.drop_last() =~= pre);
        assert(next.last() == c);
        if acc > (usize::MAX - v) / 16 {
            proof {
                assert(hex_number(next) > usize::MAX) by (nonlinear_arith)
                    requires
                        hex_number(next) == acc * 16 + v,
                        acc > (usize::MAX - v) / 16,
                        v < 16,
                ;
                if all_hex(digits) {
                    lemma_hex_number_grows(digits, (i + 1 - start) as nat);
                    assert(digits.take((i + 1 - start) as int) =~= next);
                }
            }
            return None;
        }
        assert(acc * 16 + v <= usize::MAX) by (nonlinear_arith)
            requires
                acc <= (usize::MAX - v) / 16,
                v < 16,
        ;
        acc = acc * 16 + v;
        assert forall|t: int| 0 <= t < next.len() implies (#[trigger] hex_value(next[t])) is Some by {
            if t < pre.len() {
                assert(next[t] == pre[t]);
            }
        }
        i = i + 1;
    }
    Some(acc)
}

proof fn lemma_hex_number_grows(s: Seq<u8>, k: nat)
    requires
        k <= s.len(),
        all_hex(s),
    ensures
        hex_number(s.take(k as int)) <= hex_number(s),
    decreases s.len(),
{
    if k < s.len() {
        lemma_hex_number_grows(s.drop_last(), k);
        assert(s.drop_last().take(k as int) =~= s.take(k as int));
        assert(hex_value(s[s.len() - 1]) is Some);
        assert(hex_number(s.drop_last()) <= hex_number(s)) by (nonlinear_arith)
            requires
                hex_number(s) == hex_number(s.drop_last()) * 16 + hex_value(s.last()).unwrap(),
        ;
    } else {
        assert(s.take(k as int) =~= s);
    }
}

proof fn lemma_hex_digit_value(d: nat)
    requires
        d < 16,
    ensures
        hex_value(hex_digit(d)) == Some(d),
{
}

/// The hexadecimal digits of `n` are digits, at least one, and spell `n`.
pub proof fn lemma_hex_round_trip(n: nat)
    ensures
        spec_hex(n).len() > 0,
        all_hex(spec_hex(n)),
        hex_number(spec_hex(n)) == n,
    decreases n,
{
    if n < 16 {
        lemma_hex_digit_value(n);
        let s = spec_hex(n);
        assert(s =~= seq![hex_digit(n)]);
        assert(s.drop_last() =~= Seq::<u8>::empty());
        assert(hex_number(s.drop_last()) == 0);
        assert(s.last() == hex_digit(n));
        assert(hex_number(s) == 0 * 16 + n);
    } else {
        lemma_hex_round_trip(n / 16);
        lemma_hex_digit_value(n % 16);
        let p = spec_hex(n / 16);
        let s = spec_hex(n);
        assert(s == p.push(hex_digit(n % 16)));
        assert(s.drop_last() =~= p);
        assert forall|i: int| 0 <= i < s.len() implies (#[trigger] hex_value(s[i])) is Some by {
            if i < p.len() {
                assert(s[i] == p[i]);
            }
        }
        assert(s.last() == hex_digit(n % 16));
        assert(hex_number(s) == hex_number(p) * 16 + (n % 16));
        assert((n / 16) * 16 + n % 16 == n);
    }
}

proof fn lemma_zeros_number(k: nat, s: Seq<u8>)
    ensures
        hex_number(Seq::new(k, |i: int| 48u8) + s) == hex_number(s),
    decreases s.len(), k,
{
    let z = Seq::new(k, |i: int| 48u8);
    if s.len() == 0 {
        assert(z + s =~= z);
        if k > 0 {
            assert(z.drop_last() =~= Seq::new((k - 1) as nat, |i: int| 48u8));
            lemma_zeros_number((k - 1) as nat, s);
            assert(Seq::new((k - 1) as nat, |i: int| 48u8) + s =~= Seq::new((k - 1) as nat, |i: int| 48u8));
        }
    } else {
        lemma_zeros_number(k, s.drop_last());
        assert((z + s).drop_last() =~= z + s.drop_last());
    }
}

/// The zero-padded hexadecimal digits of `n` are digits, at least one.
pub proof fn lemma_hex_padded_digits(n: nat, width: nat)
    ensures
        spec_hex_padded(n, width).len() > 0,
        all_hex(spec_hex_padded(n, width)),
{
    lemma_hex_round_trip(n);
    let d = spec_hex(n);
    let p = spec_hex_padded(n, width);
    if d.len() < width {
        let z = Seq::new((width - d.len()) as nat, |i: int| 48u8);
        assert forall|i: int| 0 <= i < p.len() implies (#[trigger] hex_value(p[i])) is Some by {
            if i >= z.len() {
                assert(p[i] == d[i - z.len()]);
            }
        }
    }
}

/// Reading back the zero-padded hexadecimal digits of `n` gives `n`, whenever
/// it fits in a `usize`.
pub proof fn lemma_hex_padded_round_trip(n: nat, width: nat)
    requires
        n <= usize::MAX,
    ensures
        spec_parse_hex_usize(spec_hex_padded(n, width)) == Some(n),
{
    lemma_hex_round_trip(n);
    let d = spec_hex(n);
    let p = spec_hex_padded(n, width);
    if d.len() < width {
        let z = Seq::new((width - d.len()) as nat, |i: int| 48u8);
        lemma_zeros_number((width - d.len()) as nat, d);
        assert forall|i: int| 0 <= i < p.len() implies (#[trigger] hex_value(p[i])) is Some by {
            if i >= z.len() {
                assert(p[i] == d[i - z.len()]);
            }
        }
        assert(p[0] == 48u8);
    } else {
        assert(d[0] != 43u8) by {
            assert(hex_value(d[0]) is Some);
        }
    }
}

} // verus!
