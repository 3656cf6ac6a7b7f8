//! Shared byte-level primitives: first-occurrence search, hexadecimal
//! rendering of digests, and decimal rendering/parsing of lengths.

use vstd::prelude::*;

verus! {

/// ASCII newline.
pub const NL: u8 = 10;

/// ASCII space.
pub const SP: u8 = 32;

/// The NUL byte.
pub const NUL: u8 = 0;

// ---------------------------------------------------------------------------
// Byte search
// ---------------------------------------------------------------------------

/// Index of the first occurrence of `b` in `s` at or after `start`.
pub open spec fn spec_find(s: Seq<u8>, b: u8, start: int) -> Option<int>
    decreases s.len() - start,
{
    if start < 0 || start >= s.len() {
        None
    } else if s[start] == b {
        Some(start)
    } else {
        spec_find(s, b, start + 1)
    }
}

/// `spec_find` returns exactly the first occurrence at or after `start`.
pub proof fn lemma_find_props(s: Seq<u8>, b: u8, start: int)
    requires
        0 <= start,
    ensures
        match spec_find(s, b, start) {
            Some(i) => start <= i < s.len() && s[i] == b && (forall|j: int|
                start <= j < i ==> s[j] != b),
            None => forall|j: int| start <= j < s.len() ==> s[j] != b,
        },
    decreases s.len() - start,
{
    if start < s.len() && s[start] != b {
        lemma_find_props(s, b, start + 1);
    }
}

/// If `i` is an occurrence with none before it, the search finds `i`.
pub proof fn lemma_find_is(s: Seq<u8>, b: u8, start: int, i: int)
    requires
        0 <= start <= i < s.len(),
        s[i] == b,
        forall|j: int| start <= j < i ==> s[j] != b,
    ensures
        spec_find(s, b, start) == Some(i),
    decreases i - start,
{
    if start < i {
        lemma_find_is(s, b, start + 1, i);
    }
}

/// If `b` does not occur at or after `start`, the search fails.
pub proof fn lemma_find_is_none(s: Seq<u8>, b: u8, start: int)
    requires
        0 <= start,
        forall|j: int| start <= j < s.len() ==> s[j] != b,
    ensures
        spec_find(s, b, start) is None,
    decreases s.len() - start,
{
    if start < s.len() {
        lemma_find_is_none(s, b, start + 1);
    }
}

/// First occurrence of `b` in `v` at or after `start`, as an absolute index.
pub fn find_byte(v: &Vec<u8>, b: u8, start: usize) -> (r: Option<usize>)
    ensures
        match r {
            Some(i) => spec_find(v@, b, start as int) == Some(i as int),
            None => spec_find(v@, b, start as int) is None,
        },
{
    let mut i: usize = start;
    while i < v.len()
        invariant
            start <= i,
            forall|j: int| start <= j < i ==> v@[j] != b,
        decreases v@.len() - i,
    {
        if v[i] == b {
            proof {
                lemma_find_is(v@, b, start as int, i as int);
            }
            return Some(i);
        }
        i = i + 1;
    }
    proof {
        lemma_find_is_none(v@, b, start as int);
    }
    None
}

// ---------------------------------------------------------------------------
// Hexadecimal rendering
// ---------------------------------------------------------------------------

/// ASCII code of the lowercase hexadecimal digit for a nibble.
pub open spec fn hex_digit(n: u8) -> u8
    recommends
        n < 16,
{
    if n < 10 {
        (48 + n) as u8
    } else {
        (87 + n) as u8
    }
}

/// Lowercase hexadecimal expansion of a byte sequence, as ASCII bytes:
/// two digits per byte, high nibble first.
pub open spec fn hex_bytes_of(s: Seq<u8>) -> Seq<u8> {
    Seq::new(2 * s.len(), |i: int|
        if i % 2 == 0 {
            hex_digit(s[i / 2] / 16)
        } else {
            hex_digit(s[i / 2] % 16)
        })
}

/// Lowercase hexadecimal expansion of a byte sequence, as characters.
pub open spec fn hex_of(s: Seq<u8>) -> Seq<char> {
    hex_bytes_of(s).map_values(|b: u8| b as char)
}

fn hex_digit_exec(n: u8) -> (r: u8)
    requires
        n < 16,
    ensures
        r == hex_digit(n),
        r < 128,
{
    if n < 10 {
        48 + n
    } else {
        87 + n
    }
}

/// Lowercase hexadecimal expansion of `v`, as ASCII bytes.
pub fn hex_bytes(v: &Vec<u8>) -> (r: Vec<u8>)
    ensures
        r@ == hex_bytes_of(v@),
        forall|i: int| 0 <= i < r@.len() ==> r@[i] < 128,
{
    let mut r: Vec<u8> = Vec::new();
    let mut i: usize = 0;
    while i < v.len()
        invariant
            i <= v@.len(),
            r@.len() == 2 * i,
            forall|j: int| 0 <= j < r@.len() ==> r@[j] == hex_bytes_of(v@)[j],
            forall|j: int| 0 <= j < r@.len() ==> r@[j] < 128,
        decreases v@.len() - i,
    {
        let b = v[i];
        r.push(hex_digit_exec(b / 16));
        r.push(hex_digit_exec(b % 16));
        i = i + 1;
    }
    proof {
        assert(r@ =~= hex_bytes_of(v@));
    }
    r
}

/// The bytes of an ASCII character sequence.
pub open spec fn ascii_bytes(s: Seq<char>) -> Seq<u8> {
    s.map_values(|c: char| c as u8)
}

/// The UTF-8 bytes of an ASCII string: one byte per character.
pub fn str_bytes(s: &str) -> (r: Vec<u8>)
    requires
        s.is_ascii(),
    ensures
        r@ == ascii_bytes(s@),
{
    proof {
        vstd::string::is_ascii_spec_bytes(s);
    }
    let r = vstd::slice::slice_to_vec(s.as_bytes());
    proof {
        assert(r@ =~= ascii_bytes(s@));
    }
    r
}

/// Relies on `String::from_utf8` of std: decoding bytes below 128 yields
/// exactly those code points, one character per byte.
#[verifier::external_body]
pub(crate) fn ascii_to_string(v: Vec<u8>) -> (r: String)
    requires
        forall|i: int| 0 <= i < v@.len() ==> v@[i] < 128,
    ensures
        r@.len() == v@.len(),
        forall|i: int| 0 <= i < v@.len() ==> r@[i] == v@[i] as char,
        r.is_ascii(),
{
    match String::from_utf8(v) {
        Ok(s) => s,
        Err(_) => String::new(),
    }
}

/// Lowercase hexadecimal rendering of `v`: two characters per byte, every
/// byte contributing in full.
pub fn hex(v: &Vec<u8>) -> (r: String)
    ensures
        r@ == hex_of(v@),
        r@.len() == 2 * v@.len(),
        r.is_ascii(),
{
    let b = hex_bytes(v);
    let r = ascii_to_string(b);
    proof {
        assert(r@ =~= hex_of(v@));
    }
    r
}

// ---------------------------------------------------------------------------
// Decimal rendering and parsing
// ---------------------------------------------------------------------------

/// Decimal ASCII digits of `n`, most significant first, no leading zeros.
pub open spec fn dec_digits(n: nat) -> Seq<u8>
    decreases n,
{
    if n < 10 {
        seq![(48 + n) as u8]
    } else {
        dec_digits(n / 10).push((48 + (n % 10)) as u8)
    }
}

/// `s` is a nonempty run of decimal ASCII digits.
pub open spec fn is_dec_digits(s: Seq<u8>) -> bool {
    s.len() > 0 && forall|i: int| 0 <= i < s.len() ==> 48 <= #[trigger] s[i] <= 57
}

/// Numeric value of a run of decimal ASCII digits.
pub open spec fn dec_val(s: Seq<u8>) -> int
    decreases s.len(),
{
    if s.len() == 0 {
        0
    } else {
        dec_val(s.drop_last()) * 10 + (s.last() - 48)
    }
}

/// The digits of `n` are digits, with no space or NUL among them, and they
/// evaluate back to `n`.
pub proof fn lemma_dec_digits(n: nat)
    ensures
        is_dec_digits(dec_digits(n)),
        dec_val(dec_digits(n)) == n,
    decreases n,
{
    if n < 10 {
        let s = dec_digits(n);
        assert(s == seq![(48 + n) as u8]);
        assert(s.drop_last() =~= Seq::<u8>::empty());
        assert(s.last() == (48 + n) as u8);
        assert(dec_val(s) == dec_val(s.drop_last()) * 10 + (s.last() - 48));
        assert(dec_val(s.drop_last()) == 0);
        assert(dec_val(s) == n);
    } else {
        lemma_dec_digits(n / 10);
        assert(dec_digits(n).drop_last() =~= dec_digits(n / 10));
        assert(dec_digits(n).last() == (48 + (n % 10)) as u8);
        assert(dec_val(dec_digits(n)) == (n / 10) * 10 + (n % 10));
        assert((n / 10) * 10 + (n % 10) == n) by {
            assert(n == 10 * (n / 10) + n % 10);
        };
    }
}

/// The value of a digit run is nonnegative.
pub proof fn lemma_dec_val_nonneg(s: Seq<u8>)
    requires
        forall|i: int| 0 <= i < s.len() ==> 48 <= #[trigger] s[i],
    ensures
        dec_val(s) >= 0,
    decreases s.len(),
{
    if s.len() > 0 {
        lemma_dec_val_nonneg(s.drop_last());
    }
}

/// Extending a digit run never lowers its value.
pub proof fn lemma_dec_val_prefix(s: Seq<u8>, j: int)
    requires
        0 <= j <= s.len(),
        forall|i: int| 0 <= i < s.len() ==> 48 <= #[trigger] s[i] <= 57,
    ensures
        dec_val(s) >= dec_val(s.take(j)),
    decreases s.len() - j,
{
    if j < s.len() {
        lemma_dec_val_prefix(s, j + 1);
        assert(s.take(j + 1).drop_last() =~= s.take(j));
        assert(s.take(j + 1).last() == s[j]);
        lemma_dec_val_nonneg(s.take(j));
    } else {
        assert(s.take(j) =~= s);
    }
}

/// Decimal ASCII digits of `n`, most significant first.
pub fn decimal_bytes(n: usize) -> (r: Vec<u8>)
    ensures
        r@ == dec_digits(n as nat),
    decreases n,
{
    if n < 10 {
        let mut r: Vec<u8> = Vec::new();
        r.push(48 + (n as u8));
        proof {
            assert(r@ =~= dec_digits(n as nat));
        }
        r
    } else {
        let mut r = decimal_bytes(n / 10);
        r.push(48 + ((n % 10) as u8));
        proof {
            assert(r@ =~= dec_digits(n as nat));
        }
        r
    }
}

/// Decimal digits of `n`, as characters.
pub open spec fn dec_chars(n: nat) -> Seq<char> {
    dec_digits(n).map_values(|b: u8| b as char)
}

/// Decimal rendering of `n` as a string of digits.
pub fn decimal_string(n: usize) -> (r: String)
    ensures
        r@ == dec_chars(n as nat),
{
    let b = decimal_bytes(n);
    proof {
        lemma_dec_digits(n as nat);
    }
    let r = ascii_to_string(b);
    proof {
        assert(r@ =~= dec_chars(n as nat));
    }
    r
}

/// Parses a run of decimal ASCII digits as a `usize`. Returns `None` when
/// the run is empty, holds a non-digit, or names a value above `usize::MAX`.
pub fn parse_dec(s: &[u8]) -> (r: Option<usize>)
    ensures
        match r {
            Some(x) => is_dec_digits(s@) && dec_val(s@) == x as int,
            None => !is_dec_digits(s@) || dec_val(s@) > usize::MAX as int,
        },
{
    if s.len() == 0 {
        return None;
    }
    let mut acc: usize = 0;
    let mut i: usize = 0;
    while i < s.len()
        invariant
            0 < s@.len(),
            i <= s@.len(),
            forall|j: int| 0 <= j < i ==> 48 <= #[trigger] s@[j] <= 57,
            acc as int == dec_val(s@.take(i as int)),
        decreases s@.len() - i,
    {
        let b = s[i];
        if b < 48 || b > 57 {
            return None;
        }
        let d: usize = (b - 48) as usize;
        proof {
            assert(s@.take(i + 1).drop_last() =~= s@.take(i as int));
            assert(s@.take(i + 1).last() == s@[i as int]);
        }
        if acc > (usize::MAX - d) / 10 {
            proof {
                let t = s@.take(i + 1);
                assert(dec_val(t) == acc * 10 + d);
                assert(acc * 10 + d > usize::MAX as int) by {
                    let m = (usize::MAX - d) as int;
                    assert(m == 10 * (m / 10) + m % 10);
                    assert(acc as int >= m / 10 + 1);
                    assert(acc as int * 10 >= (m / 10 + 1) * 10);
                    assert((m / 10 + 1) * 10 == 10 * (m / 10) + 10);
                };
                if is_dec_digits(s@) {
                    lemma_dec_val_prefix(s@, i + 1);
                }
            }
            return None;
        }
        proof {
            let m = (usize::MAX - d) as int;
            assert(acc as int <= m / 10);
            assert(acc as int * 10 <= (m / 10) * 10);
            assert((m / 10) * 10 == 10 * (m / 10));
            assert(10 * (m / 10) <= m);
        }
        acc = acc * 10 + d;
        i = i + 1;
    }
    proof {
        assert(s@.take(i as int) =~= s@);
    }
    Some(acc)
}

} // verus!
