//! Character- and byte-level text primitives shared by the gateway's parsers and renderers.
use vstd::prelude::*;
use vstd::string::*;
use vstd::utf8::*;

verus! {

/// Appends one character to a `String`.
#[verifier::external_body]
pub(crate) fn push_char(s: &mut String, c: char)
    ensures
        final(s)@ == old(s)@.push(c),
{
    s.push(c);
}

/// The characters of `s`, in order.
pub fn chars_of(s: &str) -> (r: Vec<char>)
    ensures
        r@ == s@,
{
    let mut out: Vec<char> = Vec::new();
    for c in it: s.chars()
        invariant
            out@ == it.seq().take(it.index() as int),
            it.seq() == s@,
    {
        out.push(c);
        assert(it.seq().take(it.index() + 1) == it.seq().take(it.index() as int).push(c));
    }
    assert(out@ == s@);
    out
}

/// A `String` holding exactly the given characters.
pub fn string_of(cs: &[char]) -> (r: String)
    ensures
        r@ == cs@,
{
    let mut out = String::new();
    let mut i: usize = 0;
    while i < cs.len()
        invariant
            i <= cs.len(),
            out@ == cs@.take(i as int),
        decreases cs.len() - i,
    {
        push_char(&mut out, cs[i]);
        assert(cs@.take(i + 1) == cs@.take(i as int).push(cs@[i as int]));
        i = i + 1;
    }
    assert(cs@.take(cs.len() as int) == cs@);
    out
}


/// The UTF-8 bytes of a character sequence.
pub open spec fn utf8_bytes(s: Seq<char>) -> Seq<u8> {
    encode_utf8(s)
}

/// The UTF-8 byte length of a character sequence (what `str::len` reports).
pub open spec fn blen(s: Seq<char>) -> nat {
    encode_utf8(s).len()
}

/// UTF-8 encoding distributes over concatenation.
pub proof fn lemma_encode_concat(a: Seq<char>, b: Seq<char>)
    ensures
        encode_utf8(a + b) == encode_utf8(a) + encode_utf8(b),
    decreases a.len(),
{
    if a.len() == 0 {
        assert(a + b == b);
    } else {
        lemma_encode_concat(a.drop_first(), b);
        assert((a + b).drop_first() == a.drop_first() + b);
        assert((a + b)[0] == a[0]);
    }
}

/// Byte length is additive.
pub proof fn lemma_blen_concat(a: Seq<char>, b: Seq<char>)
    ensures
        blen(a + b) == blen(a) + blen(b),
{
    lemma_encode_concat(a, b);
}

/// An ASCII character sequence has as many bytes as characters.
pub open spec fn all_ascii(s: Seq<char>) -> bool {
    forall|i: int| 0 <= i < s.len() ==> (s[i] as u32) < 128
}

pub proof fn lemma_blen_ascii(s: Seq<char>)
    requires
        all_ascii(s),
    ensures
        blen(s) == s.len(),
    decreases s.len(),
{
    if s.len() > 0 {
        assert(all_ascii(s.drop_first()));
        lemma_blen_ascii(s.drop_first());
    }
}

/// The ASCII digit for `d < 10`.
pub open spec fn digit_char(d: nat) -> char {
    if d == 0 { '0' } else if d == 1 { '1' } else if d == 2 { '2' } else if d == 3 { '3' }
    else if d == 4 { '4' } else if d == 5 { '5' } else if d == 6 { '6' } else if d == 7 { '7' }
    else if d == 8 { '8' } else { '9' }
}

/// The shortest decimal rendering of `n` (what `format!("{n}")` prints).
pub open spec fn decimal(n: nat) -> Seq<char>
    decreases n,
{
    if n < 10 {
        seq![digit_char(n)]
    } else {
        decimal(n / 10).push(digit_char(n % 10))
    }
}

pub proof fn lemma_decimal_ascii(n: nat)
    ensures
        all_ascii(decimal(n)),
        decimal(n).len() >= 1,
    decreases n,
{
    if n >= 10 {
        lemma_decimal_ascii(n / 10);
    }
}

/// A number below `10^k` has at most `k` digits; in particular a `u64` has at most 20.
pub proof fn lemma_decimal_len_u64(n: nat)
    requires
        n <= u64::MAX,
    ensures
        decimal(n).len() <= 20,
{
    reveal_with_fuel(pow10, 21);
    assert(pow10(20) == 100000000000000000000);
    lemma_decimal_len_bound(n, 20, 100000000000000000000);
}

proof fn lemma_decimal_len_bound(n: nat, k: nat, p: nat)
    requires
        n < p,
        k >= 1,
        p == pow10(k),
    ensures
        decimal(n).len() <= k,
    decreases k,
{
    if n >= 10 {
        assert(k > 1) by {
            if k == 1 {
                assert(pow10(1) == 10 * pow10(0));
            }
        }
        let p1 = pow10((k - 1) as nat);
        assert(p == 10 * p1);
        assert(n / 10 < p1) by (nonlinear_arith)
            requires n < p, p == 10 * p1;
        lemma_decimal_len_bound(n / 10, (k - 1) as nat, p1);
    }
}

pub open spec fn pow10(k: nat) -> nat
    decreases k,
{
    if k == 0 { 1 } else { 10 * pow10((k - 1) as nat) }
}

fn digit(d: u64) -> (c: char)
    requires
        d < 10,
    ensures
        c == digit_char(d as nat),
{
    if d == 0 { '0' } else if d == 1 { '1' } else if d == 2 { '2' } else if d == 3 { '3' }
    else if d == 4 { '4' } else if d == 5 { '5' } else if d == 6 { '6' } else if d == 7 { '7' }
    else if d == 8 { '8' } else { '9' }
}

/// Appends the decimal rendering of `n`.
pub fn push_decimal(out: &mut String, n: u64)
    ensures
        final(out)@ == old(out)@ + decimal(n as nat),
    decreases n,
{
    if n >= 10 {
        push_decimal(out, n / 10);
    }
    push_char(out, digit(n % 10));
    assert(decimal(n as nat) == if n < 10 { seq![digit_char(n as nat)] } else {
        decimal((n / 10) as nat).push(digit_char((n % 10) as nat))
    });
}

/// Appends every character of `s`.
pub fn push_str(out: &mut String, s: &str)
    ensures
        final(out)@ == old(out)@ + s@,
{
    out.append(s);
}


/// The lower-case hex digit for `d < 16`.
pub open spec fn hex_digit_char(d: nat) -> char {
    if d < 10 {
        digit_char(d)
    } else if d == 10 { 'a' } else if d == 11 { 'b' } else if d == 12 { 'c' } else if d == 13 { 'd' }
    else if d == 14 { 'e' } else { 'f' }
}

/// Lower-case hex rendering of a byte sequence, two digits per byte.
pub open spec fn hex_lower_spec(b: Seq<u8>) -> Seq<char>
    decreases b.len(),
{
    if b.len() == 0 {
        Seq::empty()
    } else {
        seq![hex_digit_char((b[0] / 16) as nat), hex_digit_char((b[0] % 16) as nat)]
            + hex_lower_spec(b.drop_first())
    }
}

pub proof fn lemma_hex_lower_push(b: Seq<u8>, x: u8)
    ensures
        hex_lower_spec(b.push(x)) == hex_lower_spec(b) + seq![
            hex_digit_char((x / 16) as nat),
            hex_digit_char((x % 16) as nat),
        ],
    decreases b.len(),
{
    if b.len() == 0 {
        assert(b.push(x).drop_first() == b);
        assert(hex_lower_spec(b) == Seq::<char>::empty());
    } else {
        lemma_hex_lower_push(b.drop_first(), x);
        assert(b.push(x).drop_first() == b.drop_first().push(x));
    }
}

pub proof fn lemma_hex_lower_len(b: Seq<u8>)
    ensures
        hex_lower_spec(b).len() == 2 * b.len(),
        all_ascii(hex_lower_spec(b)),
    decreases b.len(),
{
    if b.len() > 0 {
        lemma_hex_lower_len(b.drop_first());
    }
}

fn hex_digit(d: u8) -> (c: char)
    requires
        d < 16,
    ensures
        c == hex_digit_char(d as nat),
{
    if d < 10 {
        digit(d as u64)
    } else if d == 10 { 'a' } else if d == 11 { 'b' } else if d == 12 { 'c' } else if d == 13 { 'd' }
    else if d == 14 { 'e' } else { 'f' }
}

/// Lower-case hex of `bytes`.
pub fn hex_lower(bytes: &[u8]) -> (r: String)
    ensures
        r@ == hex_lower_spec(bytes@),
{
    let mut out = String::new();
    let mut i: usize = 0;
    while i < bytes.len()
        invariant
            i <= bytes.len(),
            out@ == hex_lower_spec(bytes@.take(i as int)),
        decreases bytes.len() - i,
    {
        let b = bytes[i];
        proof {
            assert(bytes@.take(i + 1) == bytes@.take(i as int).push(b));
            lemma_hex_lower_push(bytes@.take(i as int), b);
        }
        push_char(&mut out, hex_digit(b / 16));
        push_char(&mut out, hex_digit(b % 16));
        assert(out@ == hex_lower_spec(bytes@.take(i as int)) + seq![
            hex_digit_char((b / 16) as nat),
            hex_digit_char((b % 16) as nat),
        ]);
        i = i + 1;
    }
    assert(bytes@.take(bytes.len() as int) == bytes@);
    out
}

/// The value of one ASCII hex digit byte (either case), as `char::to_digit(16)` reads it.
pub open spec fn hex_value_spec(b: u8) -> Option<u8> {
    if 48 <= b <= 57 {
        Some((b - 48) as u8)
    } else if 97 <= b <= 102 {
        Some((b - 87) as u8)
    } else if 65 <= b <= 70 {
        Some((b - 55) as u8)
    } else {
        None
    }
}

pub fn hex_value(b: u8) -> (r: Option<u8>)
    ensures
        r == hex_value_spec(b),
{
    if 48 <= b && b <= 57 {
        Some(b - 48)
    } else if 97 <= b && b <= 102 {
        Some(b - 87)
    } else if 65 <= b && b <= 70 {
        Some(b - 55)
    } else {
        None
    }
}

/// Whether every byte of `b` is a hex digit.
pub open spec fn all_hex(b: Seq<u8>) -> bool {
    forall|i: int| 0 <= i < b.len() ==> hex_value_spec(#[trigger] b[i]) is Some
}

/// The bytes that a string of `2n` hex digits denotes (high nibble first).
pub open spec fn hex_decode_spec(b: Seq<u8>) -> Seq<u8> {
    Seq::new(
        b.len() / 2,
        |i: int| (hex_value_spec(b[2 * i])->0 * 16 + hex_value_spec(b[2 * i + 1])->0) as u8,
    )
}

/// An ASCII character sequence encodes as one byte per character, the character's value.
pub proof fn lemma_encode_ascii(s: Seq<char>)
    requires
        all_ascii(s),
    ensures
        encode_utf8(s).len() == s.len(),
        forall|i: int| 0 <= i < s.len() ==> #[trigger] encode_utf8(s)[i] == (s[i] as u32) as u8,
    decreases s.len(),
{
    if s.len() > 0 {
        let t = s.drop_first();
        assert(all_ascii(t)) by {
            assert forall|i: int| 0 <= i < t.len() implies ((t[i] as u32) < 128) by {
                assert(t[i] == s[i + 1]);
            }
        }
        lemma_encode_ascii(t);
        let v = s[0] as u32;
        assert(v < 128);
        assert((v & 0x7F) as u8 == v as u8) by (bit_vector)
            requires
                v < 128,
        ;
        assert(encode_scalar(v) == seq![v as u8]);
        assert forall|i: int| 0 <= i < s.len() implies #[trigger] encode_utf8(s)[i] == (s[i] as u32) as u8 by {
            if i > 0 {
                assert(s[i] == t[i - 1]);
                assert(encode_utf8(s)[i] == encode_utf8(t)[i - 1]);
            }
        }
    }
}

proof fn lemma_hex_digit_value(d: nat)
    requires
        d < 16,
    ensures
        (hex_digit_char(d) as u32) < 128,
        hex_value_spec((hex_digit_char(d) as u32) as u8) == Some(d as u8),
{
}

proof fn lemma_hex_lower_at(b: Seq<u8>)
    ensures
        forall|k: int| 0 <= k < b.len() ==> #[trigger] hex_lower_spec(b)[2 * k] == hex_digit_char((b[k] / 16) as nat)
            && hex_lower_spec(b)[2 * k + 1] == hex_digit_char((b[k] % 16) as nat),
    decreases b.len(),
{
    lemma_hex_lower_len(b);
    if b.len() > 0 {
        let t = b.drop_first();
        lemma_hex_lower_at(t);
        lemma_hex_lower_len(t);
        let h = hex_lower_spec(b);
        assert forall|k: int| 0 <= k < b.len() implies #[trigger] hex_lower_spec(b)[2 * k] == hex_digit_char((b[k] / 16) as nat)
            && hex_lower_spec(b)[2 * k + 1] == hex_digit_char((b[k] % 16) as nat) by {
            if k > 0 {
                assert(b[k] == t[k - 1]);
                assert(hex_lower_spec(t)[2 * (k - 1)] == hex_digit_char((t[k - 1] / 16) as nat));
                assert(h[2 * k] == hex_lower_spec(t)[2 * (k - 1)]);
                assert(h[2 * k + 1] == hex_lower_spec(t)[2 * (k - 1) + 1]);
            }
        }
    }
}

/// Hex round-trips: the lower-case hex of any bytes is all hex digits, twice as long, and
/// decodes back to the same bytes — so [`hex_to_32`] of [`hex_lower`] of 32 bytes gives them
/// back.
pub proof fn law_hex_round_trips(b: Seq<u8>)
    ensures
        encode_utf8(hex_lower_spec(b)).len() == 2 * b.len(),
        all_hex(encode_utf8(hex_lower_spec(b))),
        hex_decode_spec(encode_utf8(hex_lower_spec(b))) == b,
{
    let h = hex_lower_spec(b);
    lemma_hex_lower_len(b);
    lemma_hex_lower_at(b);
    lemma_encode_ascii(h);
    let e = encode_utf8(h);
    assert forall|k: int| 0 <= k < b.len() implies hex_value_spec(#[trigger] e[2 * k]) == Some((b[k] / 16) as u8)
        && hex_value_spec(e[2 * k + 1]) == Some((b[k] % 16) as u8) by {
        lemma_hex_digit_value((b[k] / 16) as nat);
        lemma_hex_digit_value((b[k] % 16) as nat);
        assert(e[2 * k] == (h[2 * k] as u32) as u8);
        assert(e[2 * k + 1] == (h[2 * k + 1] as u32) as u8);
    }
    assert forall|i: int| 0 <= i < e.len() implies hex_value_spec(#[trigger] e[i]) is Some by {
        let k = i / 2;
        assert(i == 2 * k || i == 2 * k + 1);
        assert(hex_value_spec(e[2 * k]) is Some);
    }
    assert forall|k: int| 0 <= k < b.len() implies #[trigger] hex_decode_spec(e)[k] == b[k] by {
        assert(hex_value_spec(e[2 * k]) is Some);
        assert(b[k] == (b[k] / 16) * 16 + b[k] % 16);
    }
    assert(hex_decode_spec(e) =~= b);
}

/// Decode a 64-hex-digit string (either case) into 32 bytes; `None` for any other length or
/// any non-hex byte.
pub fn hex_to_32(s: &str) -> (r: Option<[u8; 32]>)
    ensures
        match r {
            Some(a) => s.spec_bytes().len() == 64 && all_hex(s.spec_bytes())
                && a@ == hex_decode_spec(s.spec_bytes()),
            None => !(s.spec_bytes().len() == 64 && all_hex(s.spec_bytes())),
        },
{
    let b = s.as_bytes();
    if b.len() != 64 {
        return None;
    }
    let mut out = [0u8; 32];
    let mut i: usize = 0;
    while i < 32
        invariant
            b@ == s.spec_bytes(),
            b.len() == 64,
            i <= 32,
            out@.len() == 32,
            forall|j: int| 0 <= j < 2 * i ==> hex_value_spec(#[trigger] b@[j]) is Some,
            forall|j: int| 0 <= j < i ==> #[trigger] out@[j] == hex_decode_spec(b@)[j],
        decreases 32 - i,
    {
        let hi = hex_value(b[2 * i]);
        let lo = hex_value(b[2 * i + 1]);
        match (hi, lo) {
            (Some(h), Some(l)) => {
                assert(h < 16 && l < 16);
                out[i] = h * 16 + l;
                assert(out@[i as int] == hex_decode_spec(b@)[i as int]);
            },
            _ => {
                return None;
            },
        }
        i = i + 1;
    }
    assert(out@ =~= hex_decode_spec(b@));
    Some(out)
}


/// The text `String::from_utf8_lossy` makes of `bytes`.
pub uninterp spec fn utf8_lossy(bytes: Seq<u8>) -> Seq<char>;

/// `String::from_utf8_lossy`: decodes `bytes` as UTF-8, replacing each invalid sequence with
/// U+FFFD. The contract names the result and states what the documentation promises: valid
/// UTF-8 decodes unchanged. How invalid sequences are replaced is left unsaid.
#[verifier::external_body]
pub(crate) fn from_utf8_lossy(bytes: &[u8]) -> (r: String)
    ensures
        r@ == utf8_lossy(bytes@),
        valid_utf8(bytes@) ==> r@ == decode_utf8(bytes@),
{
    String::from_utf8_lossy(bytes).into_owned()
}


// ----- character-sequence search -------------------------------------------------------------

/// Whether `s` begins with `p`.
pub open spec fn starts_with(s: Seq<char>, p: Seq<char>) -> bool {
    p.len() <= s.len() && s.take(p.len() as int) == p
}

/// The position of the LAST occurrence of `c` in `s`.
pub open spec fn last_index_of(s: Seq<char>, c: char) -> Option<int>
    decreases s.len(),
{
    if s.len() == 0 {
        None
    } else if s.last() == c {
        Some(s.len() - 1)
    } else {
        last_index_of(s.drop_last(), c)
    }
}

/// The position of the FIRST occurrence of `c` in `s`.
pub open spec fn first_index_of(s: Seq<char>, c: char) -> Option<int>
    decreases s.len(),
{
    if s.len() == 0 {
        None
    } else if s[0] == c {
        Some(0)
    } else {
        match first_index_of(s.drop_first(), c) {
            Some(i) => Some(i + 1),
            None => None,
        }
    }
}

pub proof fn lemma_last_index_of(s: Seq<char>, c: char)
    ensures
        match last_index_of(s, c) {
            Some(i) => 0 <= i < s.len() && s[i] == c && forall|j: int| i < j < s.len() ==> s[j] != c,
            None => forall|j: int| 0 <= j < s.len() ==> s[j] != c,
        },
    decreases s.len(),
{
    if s.len() > 0 && s.last() != c {
        let t = s.drop_last();
        lemma_last_index_of(t, c);
        match last_index_of(t, c) {
            Some(i) => {
                assert forall|j: int| i < j < s.len() implies s[j] != c by {
                    if j < s.len() - 1 {
                        assert(s[j] == t[j]);
                    }
                }
            },
            None => {
                assert forall|j: int| 0 <= j < s.len() implies s[j] != c by {
                    if j < s.len() - 1 {
                        assert(s[j] == t[j]);
                    }
                }
            },
        }
    }
}

pub proof fn lemma_first_index_of(s: Seq<char>, c: char)
    ensures
        match first_index_of(s, c) {
            Some(i) => 0 <= i < s.len() && s[i] == c && forall|j: int| 0 <= j < i ==> s[j] != c,
            None => forall|j: int| 0 <= j < s.len() ==> s[j] != c,
        },
    decreases s.len(),
{
    if s.len() > 0 && s[0] != c {
        lemma_first_index_of(s.drop_first(), c);
        match first_index_of(s.drop_first(), c) {
            Some(i) => {
                assert forall|j: int| 0 <= j < i + 1 implies s[j] != c by {
                    if j > 0 {
                        assert(s[j] == s.drop_first()[j - 1]);
                    }
                }
            },
            None => {
                assert forall|j: int| 0 <= j < s.len() implies s[j] != c by {
                    if j > 0 {
                        assert(s[j] == s.drop_first()[j - 1]);
                    }
                }
            },
        }
    }
}

/// Finds the last occurrence of `c`.
pub fn find_last(s: &[char], c: char) -> (r: Option<usize>)
    ensures
        r == (match last_index_of(s@, c) { Some(i) => Some(i as usize), None => None::<usize> }),
{
    proof { lemma_last_index_of(s@, c); }
    let mut i = s.len();
    while i > 0
        invariant
            i <= s.len(),
            forall|j: int| i <= j < s.len() ==> s@[j] != c,
        decreases i,
    {
        if s[i - 1] == c {
            proof {
                lemma_last_index_of(s@, c);
                match last_index_of(s@, c) {
                    Some(k) => {
                        if k < i - 1 { assert(s@[i - 1] != c); }
                    },
                    None => {},
                }
            }
            return Some(i - 1);
        }
        i = i - 1;
    }
    None
}

/// Finds the first occurrence of `c`.
pub fn find_first(s: &[char], c: char) -> (r: Option<usize>)
    ensures
        r == (match first_index_of(s@, c) { Some(i) => Some(i as usize), None => None::<usize> }),
{
    proof { lemma_first_index_of(s@, c); }
    let mut i: usize = 0;
    while i < s.len()
        invariant
            i <= s.len(),
            forall|j: int| 0 <= j < i ==> s@[j] != c,
        decreases s.len() - i,
    {
        if s[i] == c {
            proof {
                lemma_first_index_of(s@, c);
                match first_index_of(s@, c) {
                    Some(k) => {
                        if k > i { assert(s@[i as int] != c); }
                    },
                    None => {},
                }
            }
            return Some(i);
        }
        i = i + 1;
    }
    None
}

/// Whether two character slices are equal.
pub fn chars_eq(a: &[char], b: &[char]) -> (r: bool)
    ensures
        r == (a@ == b@),
{
    if a.len() != b.len() {
        return false;
    }
    let mut i: usize = 0;
    while i < a.len()
        invariant
            a.len() == b.len(),
            i <= a.len(),
            forall|j: int| 0 <= j < i ==> a@[j] == b@[j],
        decreases a.len() - i,
    {
        if a[i] != b[i] {
            return false;
        }
        i = i + 1;
    }
    assert(a@ =~= b@);
    true
}

/// Whether `s` starts with the characters of `p`.
pub fn chars_start_with(s: &[char], p: &[char]) -> (r: bool)
    ensures
        r == starts_with(s@, p@),
{
    if p.len() > s.len() {
        return false;
    }
    let mut i: usize = 0;
    while i < p.len()
        invariant
            p.len() <= s.len(),
            i <= p.len(),
            forall|j: int| 0 <= j < i ==> s@[j] == p@[j],
        decreases p.len() - i,
    {
        if s[i] != p[i] {
            assert(s@.take(p.len() as int)[i as int] != p@[i as int]);
            return false;
        }
        i = i + 1;
    }
    assert(s@.take(p.len() as int) =~= p@);
    true
}

/// Whether the text of `s` equals the literal `lit`.
pub fn str_eq(s: &str, lit: &str) -> (r: bool)
    ensures
        r == (s@ == lit@),
{
    let a = chars_of(s);
    let b = chars_of(lit);
    chars_eq(a.as_slice(), b.as_slice())
}

/// A `String` of the characters `s[lo..hi]`.
pub fn sub_string(s: &[char], lo: usize, hi: usize) -> (r: String)
    requires
        lo <= hi <= s.len(),
    ensures
        r@ == s@.subrange(lo as int, hi as int),
{
    let mut out = String::new();
    let mut i = lo;
    while i < hi
        invariant
            lo <= i <= hi <= s.len(),
            out@ == s@.subrange(lo as int, i as int),
        decreases hi - i,
    {
        push_char(&mut out, s[i]);
        assert(s@.subrange(lo as int, i + 1) == s@.subrange(lo as int, i as int).push(s@[i as int]));
        i = i + 1;
    }
    out
}

// ----- unsigned integer parsing ----------------------------------------------------------------

pub open spec fn is_digit(c: char) -> bool {
    '0' <= c && c <= '9'
}

/// The value of a string of decimal digits.
pub open spec fn digits_value(d: Seq<char>) -> nat
    decreases d.len(),
{
    if d.len() == 0 {
        0
    } else {
        digits_value(d.drop_last()) * 10 + ((d.last() as u32) - 48) as nat
    }
}

/// What `str::parse` makes of `s` for an unsigned integer type whose maximum is `max`: an
/// optional leading `+`, then one or more decimal digits whose value is at most `max`.
pub open spec fn parse_uint_spec(s: Seq<char>, max: nat) -> Option<nat> {
    let d = strip_plus(s);
    if d.len() > 0 && all_digits(d) && digits_value(d) <= max {
        Some(digits_value(d))
    } else {
        None
    }
}

/// `s` without one leading `+`.
pub open spec fn strip_plus(s: Seq<char>) -> Seq<char> {
    if s.len() > 0 && s[0] == '+' { s.drop_first() } else { s }
}

pub open spec fn all_digits(d: Seq<char>) -> bool {
    forall|i: int| 0 <= i < d.len() ==> is_digit(#[trigger] d[i])
}

/// Parse an unsigned integer no larger than `max` the way `str::parse` does.
pub fn parse_uint(s: &[char], max: u64) -> (r: Option<u64>)
    requires
        max <= u32::MAX,
    ensures
        r == (match parse_uint_spec(s@, max as nat) { Some(v) => Some(v as u64), None => None::<u64> }),
{
    let start: usize = if s.len() > 0 && s[0] == '+' { 1 } else { 0 };
    let ghost d = strip_plus(s@);
    assert(d == s@.skip(start as int));
    if start >= s.len() {
        assert(d.len() == 0);
        return None;
    }
    let mut v: u64 = 0;
    let mut i = start;
    while i < s.len()
        invariant
            start <= i <= s.len(),
            d == s@.skip(start as int),
            d == strip_plus(s@),
            max <= u32::MAX,
            forall|j: int| start <= j < i ==> is_digit(#[trigger] s@[j]),
            v == (if digits_value(s@.subrange(start as int, i as int)) > max { (max + 1) as nat } else { digits_value(s@.subrange(start as int, i as int)) }),
        decreases s.len() - i,
    {
        let c = s[i];
        if !('0' <= c && c <= '9') {
            assert(d[i - start] == c);
            assert(!is_digit(d[i - start]));
            assert(!all_digits(d));
            return None;
        }
        let dig: u64 = (c as u32 - 48) as u64;
        let ghost pre = s@.subrange(start as int, i as int);
        let ghost nxt = s@.subrange(start as int, i + 1);
        assert(nxt.drop_last() == pre);
        assert(nxt.last() == c);
        if v <= max {
            v = v * 10 + dig;
            if v > max {
                v = max + 1;
            }
        } else {
            assert(digits_value(nxt) >= digits_value(pre));
        }
        i = i + 1;
    }
    assert(s@.subrange(start as int, s.len() as int) == d);
    if v > max {
        None
    } else {
        Some(v)
    }
}


proof fn lemma_digit_char(d: nat)
    requires
        d < 10,
    ensures
        digit_char(d) as u32 == 48 + d,
        is_digit(digit_char(d)),
        digit_char(d) != '+',
        digit_char(d) != ':',
{
}

/// A rendered decimal reads back as the same number.
pub proof fn lemma_decimal_roundtrip(n: nat)
    ensures
        all_digits(decimal(n)),
        digits_value(decimal(n)) == n,
        decimal(n).len() > 0,
        decimal(n)[0] != '+',
        forall|i: int| 0 <= i < decimal(n).len() ==> decimal(n)[i] != ':',
    decreases n,
{
    lemma_digit_char(n % 10);
    if n < 10 {
        let d = decimal(n);
        assert(d.drop_last() == Seq::<char>::empty());
        assert(n % 10 == n);
        assert(d.last() == digit_char(n));
        assert(digits_value(d) == digits_value(d.drop_last()) * 10 + ((d.last() as u32) - 48) as nat);
    }
    if n >= 10 {
        lemma_decimal_roundtrip(n / 10);
        let d = decimal(n);
        assert(n == (n / 10) * 10 + n % 10);
        assert(d.last() == digit_char(n % 10));
        assert(digits_value(d) == digits_value(d.drop_last()) * 10 + ((d.last() as u32) - 48) as nat);
        assert(d.drop_last() == decimal(n / 10));
        assert(d[0] == decimal(n / 10)[0]);
        assert forall|i: int| 0 <= i < d.len() implies is_digit(#[trigger] d[i]) && d[i] != ':' by {
            if i < d.len() - 1 {
                assert(d[i] == decimal(n / 10)[i]);
            }
        }
    }
}

/// `parse` reads a rendered decimal back, whenever it is in range.
pub proof fn lemma_parse_decimal(n: nat, max: nat)
    requires
        n <= max,
    ensures
        parse_uint_spec(decimal(n), max) == Some(n),
{
    lemma_decimal_roundtrip(n);
}


// ----- replace / strip -------------------------------------------------------------------------

/// `s` with every non-overlapping occurrence of `pat` (scanning left to right) replaced by
/// `rep` — what `str::replace` returns for a non-empty pattern.
pub open spec fn replace_all(s: Seq<char>, pat: Seq<char>, rep: Seq<char>) -> Seq<char>
    recommends
        pat.len() > 0,
    decreases s.len(),
{
    if s.len() == 0 || pat.len() == 0 {
        s
    } else if starts_with(s, pat) {
        rep + replace_all(s.skip(pat.len() as int), pat, rep)
    } else {
        seq![s[0]] + replace_all(s.drop_first(), pat, rep)
    }
}

/// `str::replace` for a non-empty pattern.
pub fn replace_str(s: &str, pat: &str, rep: &str) -> (r: String)
    requires
        pat@.len() > 0,
    ensures
        r@ == replace_all(s@, pat@, rep@),
{
    let cs = chars_of(s);
    let ps = chars_of(pat);
    let mut out = String::new();
    let mut i: usize = 0;
    assert(cs@.skip(0) == cs@);
    assert(Seq::<char>::empty() + replace_all(s@, pat@, rep@) == replace_all(s@, pat@, rep@));
    while i < cs.len()
        invariant
            cs@ == s@,
            ps@ == pat@,
            ps@.len() > 0,
            i <= cs@.len(),
            out@ + replace_all(cs@.skip(i as int), ps@, rep@) == replace_all(s@, pat@, rep@),
        decreases cs.len() - i,
    {
        let rest = &cs.as_slice()[i..cs.len()];
        assert(rest@ == cs@.skip(i as int));
        if chars_start_with(rest, ps.as_slice()) {
            proof {
                assert(cs@.skip(i as int).skip(ps@.len() as int) == cs@.skip(i + ps@.len()));
                assert(out@ + (rep@ + replace_all(cs@.skip(i + ps@.len()), ps@, rep@)) == (out@ + rep@) + replace_all(cs@.skip(i + ps@.len()), ps@, rep@));
            }
            push_str(&mut out, rep);
            i = i + ps.len();
        } else {
            proof {
                assert(cs@.skip(i as int).drop_first() == cs@.skip(i + 1));
                assert(cs@.skip(i as int)[0] == cs@[i as int]);
                assert(out@ + (seq![cs@[i as int]] + replace_all(cs@.skip(i + 1), ps@, rep@)) == out@.push(cs@[i as int]) + replace_all(cs@.skip(i + 1), ps@, rep@));
            }
            push_char(&mut out, cs[i]);
            i = i + 1;
        }
    }
    assert(cs@.skip(i as int).len() == 0);
    assert(out@ + replace_all(cs@.skip(i as int), ps@, rep@) == out@);
    out
}

/// Number of leading copies of `c` in `s`.
pub open spec fn leading_count(s: Seq<char>, c: char) -> nat
    decreases s.len(),
{
    if s.len() > 0 && s[0] == c {
        1 + leading_count(s.drop_first(), c)
    } else {
        0
    }
}

/// `str::trim_start_matches(c)`.
pub open spec fn trim_start_char(s: Seq<char>, c: char) -> Seq<char> {
    s.skip(leading_count(s, c) as int)
}

pub fn count_leading(s: &[char], c: char) -> (r: usize)
    ensures
        r == leading_count(s@, c),
        r <= s.len(),
{
    let mut i: usize = 0;
    assert(s@.skip(0) == s@);
    while i < s.len() && s[i] == c
        invariant
            i <= s.len(),
            leading_count(s@, c) == i + leading_count(s@.skip(i as int), c),
        decreases s.len() - i,
    {
        assert(s@.skip(i as int).drop_first() == s@.skip(i + 1));
        i = i + 1;
    }
    assert(s@.skip(0) == s@);
    i
}


// ----- whitespace, case, substrings, lines -----------------------------------------------------

/// `char::is_whitespace`: the Unicode `White_Space` property.
pub open spec fn is_ws(c: char) -> bool {
    let u = c as u32;
    (9 <= u && u <= 13) || u == 32 || u == 0x85 || u == 0xA0 || u == 0x1680
        || (0x2000 <= u && u <= 0x200A) || u == 0x2028 || u == 0x2029 || u == 0x202F
        || u == 0x205F || u == 0x3000
}

pub fn is_whitespace(c: char) -> (r: bool)
    ensures
        r == is_ws(c),
{
    let u = c as u32;
    (9 <= u && u <= 13) || u == 32 || u == 0x85 || u == 0xA0 || u == 0x1680
        || (0x2000 <= u && u <= 0x200A) || u == 0x2028 || u == 0x2029 || u == 0x202F
        || u == 0x205F || u == 0x3000
}

/// Number of leading whitespace characters.
pub open spec fn lead_ws(s: Seq<char>) -> nat
    decreases s.len(),
{
    if s.len() > 0 && is_ws(s[0]) { 1 + lead_ws(s.drop_first()) } else { 0 }
}

/// Number of trailing whitespace characters.
pub open spec fn trail_ws(s: Seq<char>) -> nat
    decreases s.len(),
{
    if s.len() > 0 && is_ws(s.last()) { 1 + trail_ws(s.drop_last()) } else { 0 }
}

/// `str::trim`: `s` without leading and trailing whitespace.
pub open spec fn trim(s: Seq<char>) -> Seq<char> {
    let a = s.skip(lead_ws(s) as int);
    a.take(a.len() - trail_ws(a))
}

proof fn lemma_lead_ws_le(s: Seq<char>)
    ensures
        lead_ws(s) <= s.len(),
    decreases s.len(),
{
    if s.len() > 0 && is_ws(s[0]) {
        lemma_lead_ws_le(s.drop_first());
    }
}

proof fn lemma_trail_ws_le(s: Seq<char>)
    ensures
        trail_ws(s) <= s.len(),
    decreases s.len(),
{
    if s.len() > 0 && is_ws(s.last()) {
        lemma_trail_ws_le(s.drop_last());
    }
}

pub open spec fn all_ws(w: Seq<char>) -> bool {
    forall|i: int| 0 <= i < w.len() ==> is_ws(#[trigger] w[i])
}

proof fn lemma_lead_ws_concat(x: Seq<char>, y: Seq<char>)
    ensures
        lead_ws(x + y) == (if lead_ws(x) == x.len() { x.len() + lead_ws(y) } else { lead_ws(x) }),
    decreases x.len(),
{
    lemma_lead_ws_le(x);
    if x.len() == 0 {
        assert(x + y =~= y);
    } else {
        assert((x + y)[0] == x[0]);
        if is_ws(x[0]) {
            assert((x + y).drop_first() =~= x.drop_first() + y);
            lemma_lead_ws_concat(x.drop_first(), y);
        }
    }
}

proof fn lemma_trail_ws_concat(x: Seq<char>, y: Seq<char>)
    ensures
        trail_ws(x + y) == (if trail_ws(y) == y.len() { y.len() + trail_ws(x) } else { trail_ws(y) }),
    decreases y.len(),
{
    lemma_trail_ws_le(y);
    if y.len() == 0 {
        assert(x + y =~= x);
    } else {
        assert((x + y).last() == y.last());
        if is_ws(y.last()) {
            assert((x + y).drop_last() =~= x + y.drop_last());
            lemma_trail_ws_concat(x, y.drop_last());
        }
    }
}

proof fn lemma_lead_ws_all(w: Seq<char>)
    requires
        all_ws(w),
    ensures
        lead_ws(w) == w.len(),
        trail_ws(w) == w.len(),
    decreases w.len(),
{
    if w.len() > 0 {
        assert(all_ws(w.drop_first()));
        assert(all_ws(w.drop_last()));
        lemma_lead_ws_all(w.drop_first());
        lemma_lead_ws_all(w.drop_last());
    }
}

/// Trimming ignores leading whitespace.
pub proof fn lemma_trim_ws_prefix(w: Seq<char>, x: Seq<char>)
    requires
        all_ws(w),
    ensures
        trim(w + x) == trim(x),
{
    lemma_lead_ws_all(w);
    lemma_lead_ws_concat(w, x);
    lemma_lead_ws_le(x);
    assert((w + x).skip(lead_ws(w + x) as int) =~= x.skip(lead_ws(x) as int));
}

/// Trimming ignores trailing whitespace.
pub proof fn lemma_trim_ws_suffix(x: Seq<char>, w: Seq<char>)
    requires
        all_ws(w),
    ensures
        trim(x + w) == trim(x),
{
    lemma_lead_ws_all(w);
    lemma_lead_ws_concat(x, w);
    lemma_lead_ws_le(x);
    let l = lead_ws(x) as int;
    if l == x.len() {
        let a = (x + w).skip(lead_ws(x + w) as int);
        assert(a.len() == 0);
        let b = x.skip(l);
        assert(b.len() == 0);
        lemma_trail_ws_le(a);
        lemma_trail_ws_le(b);
        assert(trim(x + w) =~= Seq::<char>::empty());
        assert(trim(x) =~= Seq::<char>::empty());
    } else {
        let b = x.skip(l);
        assert((x + w).skip(l) =~= b + w);
        lemma_trail_ws_concat(b, w);
        lemma_trail_ws_le(b);
        assert((b + w).take((b + w).len() - trail_ws(b + w)) =~= b.take(b.len() - trail_ws(b)));
    }
}

/// The characters before `leading_count` are all `c`, and the next one is not.
pub proof fn lemma_leading_count(s: Seq<char>, c: char)
    ensures
        leading_count(s, c) <= s.len(),
        forall|i: int| 0 <= i < leading_count(s, c) ==> #[trigger] s[i] == c,
        leading_count(s, c) < s.len() ==> s[leading_count(s, c) as int] != c,
    decreases s.len(),
{
    if s.len() > 0 && s[0] == c {
        let t = s.drop_first();
        lemma_leading_count(t, c);
        assert forall|i: int| 0 <= i < leading_count(s, c) implies #[trigger] s[i] == c by {
            if i > 0 {
                assert(s[i] == t[i - 1]);
            }
        }
    }
}

/// The trimmed characters of `s`.
pub fn trim_chars(s: &[char]) -> (r: Vec<char>)
    ensures
        r@ == trim(s@),
{
    let mut a: usize = 0;
    assert(s@.skip(0) == s@);
    while a < s.len() && is_whitespace(s[a])
        invariant
            a <= s.len(),
            lead_ws(s@) == a + lead_ws(s@.skip(a as int)),
        decreases s.len() - a,
    {
        assert(s@.skip(a as int).drop_first() == s@.skip(a + 1));
        a = a + 1;
    }
    let ghost t = s@.skip(a as int);
    let mut b: usize = s.len();
    assert(t.take(t.len() as int) == t);
    while b > a && is_whitespace(s[b - 1])
        invariant
            a <= b <= s.len(),
            t == s@.skip(a as int),
            trail_ws(t) == (s.len() - b) + trail_ws(t.take(b - a)),
        decreases b,
    {
        assert(t.take(b - a).drop_last() == t.take(b - a - 1));
        assert(t.take(b - a).last() == s@[b - 1]);
        b = b - 1;
    }
    proof {
        lemma_trail_ws_le(t);
    }
    let mut out: Vec<char> = Vec::new();
    let mut i = a;
    while i < b
        invariant
            a <= i <= b <= s.len(),
            out@ == s@.subrange(a as int, i as int),
        decreases b - i,
    {
        out.push(s[i]);
        assert(s@.subrange(a as int, i + 1) == s@.subrange(a as int, i as int).push(s@[i as int]));
        i = i + 1;
    }
    assert(out@ =~= trim(s@));
    out
}

/// `str::trim` as a `String`.
pub fn trim_string(s: &str) -> (r: String)
    ensures
        r@ == trim(s@),
{
    let cs = chars_of(s);
    let t = trim_chars(cs.as_slice());
    string_of(t.as_slice())
}

/// ASCII lower-casing of one character.
pub open spec fn ascii_lower(c: char) -> char {
    if 'A' <= c && c <= 'Z' { ((c as u32) + 32) as char } else { c }
}

/// `str::eq_ignore_ascii_case`.
pub open spec fn eq_ignore_case(a: Seq<char>, b: Seq<char>) -> bool {
    a.len() == b.len() && forall|i: int| 0 <= i < a.len() ==> ascii_lower(#[trigger] a[i]) == ascii_lower(b[i])
}

fn to_ascii_lower(c: char) -> (r: char)
    ensures
        r == ascii_lower(c),
{
    if 'A' <= c && c <= 'Z' {
        let b: u8 = ((c as u32) + 32) as u8;
        b as char
    } else {
        c
    }
}

pub fn chars_eq_ignore_case(a: &[char], b: &[char]) -> (r: bool)
    ensures
        r == eq_ignore_case(a@, b@),
{
    if a.len() != b.len() {
        return false;
    }
    let mut i: usize = 0;
    while i < a.len()
        invariant
            a.len() == b.len(),
            i <= a.len(),
            forall|j: int| 0 <= j < i ==> ascii_lower(#[trigger] a@[j]) == ascii_lower(b@[j]),
        decreases a.len() - i,
    {
        if to_ascii_lower(a[i]) != to_ascii_lower(b[i]) {
            return false;
        }
        i = i + 1;
    }
    true
}

/// The position of the first occurrence of the non-empty pattern `p` in `s`.
pub open spec fn find_substr(s: Seq<char>, p: Seq<char>) -> Option<int>
    decreases s.len(),
{
    if starts_with(s, p) {
        Some(0)
    } else if s.len() == 0 {
        None
    } else {
        match find_substr(s.drop_first(), p) {
            Some(i) => Some(i + 1),
            None => None,
        }
    }
}

pub proof fn lemma_find_substr_range(s: Seq<char>, p: Seq<char>)
    ensures
        find_substr(s, p) matches Some(i) ==> 0 <= i && i + p.len() <= s.len() && starts_with(s.skip(i), p),
    decreases s.len(),
{
    if starts_with(s, p) {
        assert(s.skip(0) == s);
    } else if s.len() > 0 {
        lemma_find_substr_range(s.drop_first(), p);
        if let Some(i) = find_substr(s.drop_first(), p) {
            assert(s.drop_first().skip(i) == s.skip(i + 1));
        }
    }
}

pub fn find_str(s: &[char], p: &[char]) -> (r: Option<usize>)
    ensures
        r == (match find_substr(s@, p@) { Some(i) => Some(i as usize), None => None::<usize> }),
        match r {
            Some(i) => find_substr(s@, p@) == Some(i as int) && i + p@.len() <= s@.len(),
            None => find_substr(s@, p@) is None,
        },
{
    proof { lemma_find_substr_range(s@, p@); }
    let mut i: usize = 0;
    assert(s@.skip(0) == s@);
    while i < s.len()
        invariant
            i <= s.len(),
            find_substr(s@, p@) == (match find_substr(s@.skip(i as int), p@) { Some(k) => Some(k + i), None => None::<int> }),
        decreases s.len() - i,
    {
        let rest = &s[i..s.len()];
        assert(rest@ == s@.skip(i as int));
        if chars_start_with(rest, p) {
            return Some(i);
        }
        assert(s@.skip(i as int).drop_first() == s@.skip(i + 1));
        i = i + 1;
    }
    let rest = &s[i..s.len()];
    assert(rest@ == s@.skip(i as int));
    if chars_start_with(rest, p) {
        Some(i)
    } else {
        None
    }
}

// ----- lexicographic order ---------------------------------------------------------------------

/// The order of `String`'s `Ord`: lexicographic over characters (equivalently over UTF-8 bytes).
pub open spec fn seq_lt(a: Seq<char>, b: Seq<char>) -> bool
    decreases a.len(),
{
    if a.len() == 0 {
        b.len() > 0
    } else if b.len() == 0 {
        false
    } else if a[0] != b[0] {
        a[0] < b[0]
    } else {
        seq_lt(a.drop_first(), b.drop_first())
    }
}

pub proof fn lemma_seq_lt_irreflexive(a: Seq<char>)
    ensures
        !seq_lt(a, a),
    decreases a.len(),
{
    if a.len() > 0 {
        lemma_seq_lt_irreflexive(a.drop_first());
    }
}

pub proof fn lemma_seq_lt_transitive(a: Seq<char>, b: Seq<char>, c: Seq<char>)
    requires
        seq_lt(a, b),
        seq_lt(b, c),
    ensures
        seq_lt(a, c),
    decreases a.len(),
{
    if a.len() > 0 && b.len() > 0 && c.len() > 0 && a[0] == b[0] && b[0] == c[0] {
        lemma_seq_lt_transitive(a.drop_first(), b.drop_first(), c.drop_first());
    }
}

pub proof fn lemma_seq_lt_total(a: Seq<char>, b: Seq<char>)
    ensures
        a == b || seq_lt(a, b) || seq_lt(b, a),
    decreases a.len(),
{
    if a.len() == 0 && b.len() == 0 {
        assert(a =~= b);
    } else if a.len() > 0 && b.len() > 0 && a[0] == b[0] {
        lemma_seq_lt_total(a.drop_first(), b.drop_first());
        if a.drop_first() == b.drop_first() {
            assert(a.len() == b.len()) by {
                assert(a.drop_first().len() == b.drop_first().len());
            }
            assert(a =~= b) by {
                assert forall|i: int| 0 <= i < a.len() implies a[i] == b[i] by {
                    if i > 0 {
                        assert(a[i] == a.drop_first()[i - 1]);
                        assert(b[i] == b.drop_first()[i - 1]);
                    }
                }
            }
        }
    } else if a.len() > 0 && b.len() > 0 {
        assert(a[0] < b[0] || b[0] < a[0]);
    }
}

pub proof fn lemma_seq_lt_asymmetric(a: Seq<char>, b: Seq<char>)
    requires
        seq_lt(a, b),
    ensures
        !seq_lt(b, a),
{
    if seq_lt(b, a) {
        lemma_seq_lt_transitive(a, b, a);
        lemma_seq_lt_irreflexive(a);
    }
}

/// `a < b` in `String`'s order.
pub fn str_less(a: &str, b: &str) -> (r: bool)
    ensures
        r == seq_lt(a@, b@),
{
    let x = chars_of(a);
    let y = chars_of(b);
    let mut i: usize = 0;
    assert(x@.skip(0) == x@ && y@.skip(0) == y@);
    while i < x.len() && i < y.len()
        invariant
            i <= x.len(),
            i <= y.len(),
            x@ == a@,
            y@ == b@,
            seq_lt(a@, b@) == seq_lt(x@.skip(i as int), y@.skip(i as int)),
        decreases x.len() - i,
    {
        assert(x@.skip(i as int)[0] == x@[i as int]);
        assert(y@.skip(i as int)[0] == y@[i as int]);
        if x[i] != y[i] {
            return x[i] < y[i];
        }
        assert(x@.skip(i as int).drop_first() == x@.skip(i + 1));
        assert(y@.skip(i as int).drop_first() == y@.skip(i + 1));
        i = i + 1;
    }
    i < y.len()
}

/// The position of the LAST occurrence of the pattern `p` in `s` (`str::rfind`).
pub open spec fn rfind_substr(s: Seq<char>, p: Seq<char>) -> Option<int>
    decreases s.len(),
{
    if s.len() < p.len() {
        None
    } else if starts_with(s.skip(s.len() - p.len()), p) {
        Some(s.len() - p.len())
    } else if s.len() == 0 {
        None
    } else {
        rfind_substr(s.drop_last(), p)
    }
}

pub proof fn lemma_rfind_substr(s: Seq<char>, p: Seq<char>)
    ensures
        match rfind_substr(s, p) {
            Some(k) => 0 <= k && k + p.len() <= s.len() && starts_with(s.skip(k), p)
                && forall|j: int| k < j && j + p.len() <= s.len() ==> !starts_with(#[trigger] s.skip(j), p),
            None => forall|j: int| 0 <= j && j + p.len() <= s.len() ==> !starts_with(#[trigger] s.skip(j), p),
        },
    decreases s.len(),
{
    if s.len() == 0 && p.len() == 0 {
        assert(s.skip(0).take(0) =~= p);
    } else if s.len() >= p.len() && !starts_with(s.skip(s.len() - p.len()), p) {
        if p.len() == 0 {
            assert(s.skip(s.len() - p.len()).take(0) =~= p);
        }
        let t = s.drop_last();
        lemma_rfind_substr(t, p);
        assert forall|j: int| 0 <= j && j + p.len() <= t.len() implies starts_with(#[trigger] s.skip(j), p) == starts_with(t.skip(j), p) by {
            assert(s.skip(j).take(p.len() as int) == t.skip(j).take(p.len() as int));
        }
        assert forall|j: int| 0 <= j && j + p.len() == s.len() implies !starts_with(#[trigger] s.skip(j), p) by {}
        match rfind_substr(t, p) {
            Some(k) => {
                assert(s.skip(k).take(p.len() as int) == t.skip(k).take(p.len() as int));
                assert forall|j: int| k < j && j + p.len() <= s.len() implies !starts_with(#[trigger] s.skip(j), p) by {
                    if j + p.len() <= t.len() {
                        assert(!starts_with(t.skip(j), p));
                    }
                }
            },
            None => {
                assert forall|j: int| 0 <= j && j + p.len() <= s.len() implies !starts_with(#[trigger] s.skip(j), p) by {
                    if j + p.len() <= t.len() {
                        assert(!starts_with(t.skip(j), p));
                    }
                }
            },
        }
    }
}

/// Finds the last occurrence of the pattern `p`.
pub fn rfind_str(s: &[char], p: &[char]) -> (r: Option<usize>)
    ensures
        r == (match rfind_substr(s@, p@) { Some(k) => Some(k as usize), None => None::<usize> }),
{
    proof { lemma_rfind_substr(s@, p@); }
    if p.len() > s.len() {
        return None;
    }
    let mut k: usize = s.len() - p.len();
    loop
        invariant
            p.len() <= s.len(),
            k + p.len() <= s.len(),
            forall|j: int| k < j && j + p.len() <= s.len() ==> !starts_with(#[trigger] s@.skip(j), p@),
        decreases k,
    {
        let rest = &s[k..s.len()];
        assert(rest@ == s@.skip(k as int));
        if chars_start_with(rest, p) {
            proof {
                lemma_rfind_substr(s@, p@);
                match rfind_substr(s@, p@) {
                    Some(m) => {
                        if m < k { assert(starts_with(s@.skip(k as int), p@)); }
                    },
                    None => { assert(starts_with(s@.skip(k as int), p@)); },
                }
            }
            return Some(k);
        }
        if k == 0 {
            proof {
                lemma_rfind_substr(s@, p@);
                if let Some(m) = rfind_substr(s@, p@) {
                    if m == 0 { assert(!starts_with(s@.skip(0), p@)); }
                }
            }
            return None;
        }
        k = k - 1;
    }
}

/// The pieces of `s` between `'\n'` characters (a trailing newline leaves an empty last piece).
pub open spec fn split_newlines(s: Seq<char>) -> Seq<Seq<char>>
    decreases s.len(),
{
    match first_index_of(s, '\n') {
        None => seq![s],
        Some(k) => {
            proof {
                lemma_first_index_of(s, '\n');
            }
            seq![s.take(k)] + split_newlines(s.skip(k + 1))
        },
    }
}

pub fn split_lines(s: &[char]) -> (r: Vec<Vec<char>>)
    ensures
        r@.len() == split_newlines(s@).len(),
        forall|i: int| 0 <= i < r@.len() ==> #[trigger] r@[i]@ == split_newlines(s@)[i],
{
    let mut out: Vec<Vec<char>> = Vec::new();
    let mut start: usize = 0;
    let mut cur: Vec<char> = Vec::new();
    let mut i: usize = 0;
    assert(s@.skip(0) == s@);
    while i < s.len()
        invariant
            start <= i <= s.len(),
            cur@ == s@.subrange(start as int, i as int),
            forall|j: int| start <= j < i ==> s@[j] != '\n',
            split_newlines(s@) == out@.map_values(|v: Vec<char>| v@) + split_newlines(s@.skip(start as int)),
        decreases s.len() - i,
    {
        if s[i] == '\n' {
            proof {
                let t = s@.skip(start as int);
                lemma_first_index_of(t, '\n');
                assert(t[i - start] == '\n');
                assert forall|j: int| 0 <= j < i - start implies t[j] != '\n' by {
                    assert(t[j] == s@[start + j]);
                }
                match first_index_of(t, '\n') {
                    Some(k) => {
                        if k < i - start { assert(t[k] != '\n'); }
                        if k > i - start { assert(t[i - start] != '\n'); }
                    },
                    None => {},
                }
                assert(t.take(i - start) == cur@);
                assert(t.skip(i - start + 1) == s@.skip(i + 1));
                let ghost prev = out@.map_values(|v: Vec<char>| v@);
                assert(out@.push(cur).map_values(|v: Vec<char>| v@) == prev.push(cur@));
                assert(prev + (seq![cur@] + split_newlines(s@.skip(i + 1))) == prev.push(cur@) + split_newlines(s@.skip(i + 1)));
            }
            out.push(cur);
            cur = Vec::new();
            start = i + 1;
        } else {
            cur.push(s[i]);
            assert(s@.subrange(start as int, i + 1) == s@.subrange(start as int, i as int).push(s@[i as int]));
        }
        i = i + 1;
    }
    proof {
        let t = s@.skip(start as int);
        lemma_first_index_of(t, '\n');
        assert forall|j: int| 0 <= j < t.len() implies t[j] != '\n' by {
            assert(t[j] == s@[start + j]);
        }
        assert(first_index_of(t, '\n') is None);
        assert(t == cur@);
        let ghost prev = out@.map_values(|v: Vec<char>| v@);
        assert(out@.push(cur).map_values(|v: Vec<char>| v@) == prev.push(cur@));
    }
    out.push(cur);
    assert(split_newlines(s@) =~= out@.map_values(|v: Vec<char>| v@));
    out
}

/// The `Debug` rendering of a string: quoted, with escapes.
pub uninterp spec fn debug_str(s: Seq<char>) -> Seq<char>;

/// `<str as Debug>::fmt` via `format!("{s:?}")`: the quoted, escaped rendering used in error
/// messages. The contract names the result; the escaping rules are not stated.
#[verifier::external_body]
pub(crate) fn debug_quoted(s: &str) -> (r: String)
    ensures
        r@ == debug_str(s@),
{
    format!("{s:?}")
}

} // verus!
