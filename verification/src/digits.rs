//! Decimal and hexadecimal numerals as bytes.
//!
//! Object records carry payload lengths as decimal ASCII, and object ids
//! travel as lowercase hexadecimal. Both directions are defined here as spec
//! functions with verified encoders and parsers.

use crate::asciistr::all_ascii;
use vstd::prelude::*;

verus! {

/// Appends a byte slice to a vector.
pub fn push_bytes(out: &mut Vec<u8>, s: &[u8])
    ensures
        final(out)@ == old(out)@ + s@,
{
    let mut i: usize = 0;
    while i < s.len()
        invariant
            i <= s@.len(),
            out@ == old(out)@ + s@.subrange(0, i as int),
        decreases s@.len() - i,
    {
        out.push(s[i]);
        i = i + 1;
        proof {
            assert(out@ =~= old(out)@ + s@.subrange(0, i as int));
        }
    }
    proof {
        assert(out@ =~= old(out)@ + s@);
    }
}

/// The position of the first occurrence of `b` in `data` at an index in
/// `[from, end)`, or `-1` when there is none.
pub open spec fn find_byte_in(data: Seq<u8>, b: u8, from: int, end: int) -> int
    decreases end - from,
{
    if from < 0 || from >= end || from >= data.len() {
        -1
    } else if data[from] == b {
        from
    } else {
        find_byte_in(data, b, from + 1, end)
    }
}

/// Scanning may start past any range known to be free of `b`.
pub proof fn lemma_find_byte_skip(data: Seq<u8>, b: u8, from: int, end: int, upto: int)
    requires
        0 <= from <= upto <= end,
        forall|j: int| from <= j < upto && j < data.len() ==> data[j] != b,
    ensures
        find_byte_in(data, b, from, end) == find_byte_in(data, b, upto, end),
    decreases upto - from,
{
    if from < upto {
        if from >= data.len() {
            assert(find_byte_in(data, b, from, end) == -1);
            lemma_find_byte_past(data, b, upto, end);
        } else {
            lemma_find_byte_skip(data, b, from + 1, end, upto);
        }
    }
}

proof fn lemma_find_byte_past(data: Seq<u8>, b: u8, from: int, end: int)
    requires
        from >= data.len(),
    ensures
        find_byte_in(data, b, from, end) == -1,
    decreases end - from,
{
    if 0 <= from && from < end {
        lemma_find_byte_past(data, b, from + 1, end);
    }
}

/// Bounds on a successful find: the hit is first in the scanned range.
pub proof fn lemma_find_byte_props(data: Seq<u8>, b: u8, from: int, end: int)
    requires
        0 <= from,
    ensures
        ({
            let p = find_byte_in(data, b, from, end);
            &&& p >= 0 ==> from <= p < end && p < data.len() && data[p] == b && (forall|j: int|
                from <= j < p ==> data[j] != b)
            &&& p < 0 ==> forall|j: int| from <= j < end && j < data.len() ==> data[j] != b
        }),
    decreases end - from,
{
    if from >= end || from >= data.len() {
    } else if data[from] == b {
    } else {
        lemma_find_byte_props(data, b, from + 1, end);
    }
}

/// Finds the first occurrence of `b` in `data[from..end]`.
pub fn find_byte(data: &[u8], b: u8, from: usize, end: usize) -> (r: Option<usize>)
    requires
        from <= end <= data@.len(),
    ensures
        match r {
            Some(p) => find_byte_in(data@, b, from as int, end as int) == p,
            None => find_byte_in(data@, b, from as int, end as int) == -1,
        },
{
    let mut i: usize = from;
    while i < end
        invariant
            from <= i <= end <= data@.len(),
            forall|j: int| from <= j < i ==> data@[j] != b,
        decreases end - i,
    {
        if data[i] == b {
            proof {
                lemma_find_byte_skip(data@, b, from as int, end as int, i as int);
            }
            return Some(i);
        }
        i = i + 1;
    }
    proof {
        lemma_find_byte_skip(data@, b, from as int, end as int, end as int);
    }
    None
}

// ---------------------------------------------------------------------------
// Decimal
// ---------------------------------------------------------------------------

/// An ASCII decimal digit.
pub open spec fn is_dec_digit(b: u8) -> bool {
    48 <= b <= 57
}

pub open spec fn all_dec_digits(s: Seq<u8>) -> bool {
    forall|i: int| 0 <= i < s.len() ==> is_dec_digit(#[trigger] s[i])
}

/// The shortest decimal numeral of `n`, most significant digit first.
pub open spec fn dec_bytes(n: nat) -> Seq<u8>
    decreases n,
{
    if n < 10 {
        seq![(48 + n) as u8]
    } else {
        dec_bytes(n / 10) + seq![(48 + n % 10) as u8]
    }
}

/// The value of a decimal numeral, most significant digit first.
pub open spec fn dec_val(s: Seq<u8>) -> nat
    decreases s.len(),
{
    if s.len() == 0 {
        0
    } else {
        (dec_val(s.drop_last()) * 10 + (s.last() - 48)) as nat
    }
}

pub proof fn lemma_dec_bytes_digits(n: nat)
    ensures
        all_dec_digits(dec_bytes(n)),
        dec_bytes(n).len() >= 1,
    decreases n,
{
    if n < 10 {
    } else {
        lemma_dec_bytes_digits(n / 10);
        assert forall|i: int| 0 <= i < dec_bytes(n).len() implies is_dec_digit(
            #[trigger] dec_bytes(n)[i],
        ) by {
            if i < dec_bytes(n / 10).len() {
                assert(dec_bytes(n)[i] == dec_bytes(n / 10)[i]);
            } else {
                assert(dec_bytes(n)[i] == (48 + n % 10) as u8);
            }
        }
    }
}

/// Encoding then evaluating a decimal numeral returns the number.
pub proof fn lemma_dec_val_dec_bytes(n: nat)
    ensures
        dec_val(dec_bytes(n)) == n,
    decreases n,
{
    if n < 10 {
        assert(dec_bytes(n).len() == 1);
        assert(((48 + n) as u8) == 48 + n);
        assert(dec_bytes(n).last() == (48 + n) as u8);
        assert(dec_bytes(n).drop_last() =~= Seq::<u8>::empty());
        assert(dec_val(Seq::<u8>::empty()) == 0);
        assert(dec_val(dec_bytes(n)) == (dec_val(dec_bytes(n).drop_last()) * 10 + (dec_bytes(
            n,
        ).last() - 48)) as nat);
    } else {
        lemma_dec_val_dec_bytes(n / 10);
        assert(((48 + n % 10) as u8) == 48 + n % 10);
        assert(dec_bytes(n).drop_last() =~= dec_bytes(n / 10));
        assert(dec_bytes(n).last() == (48 + n % 10) as u8);
        assert(dec_val(dec_bytes(n)) == (dec_val(dec_bytes(n).drop_last()) * 10 + (dec_bytes(
            n,
        ).last() - 48)) as nat);
        assert((n / 10) * 10 + n % 10 == n);
    }
}

/// Powers of ten, for bounding numeral lengths.
pub open spec fn pow10(k: nat) -> nat
    decreases k,
{
    if k == 0 {
        1
    } else {
        10 * pow10((k - 1) as nat)
    }
}

pub proof fn lemma_dec_bytes_len(n: nat, k: nat)
    requires
        k >= 1,
        n < pow10(k),
    ensures
        dec_bytes(n).len() <= k,
    decreases n,
{
    if n < 10 {
    } else {
        assert(pow10(k) == 10 * pow10((k - 1) as nat));
        assert(n / 10 < pow10((k - 1) as nat)) by {
            if n / 10 >= pow10((k - 1) as nat) {
                assert(n >= 10 * (n / 10)) by (nonlinear_arith);
                assert(10 * (n / 10) >= 10 * pow10((k - 1) as nat)) by (nonlinear_arith)
                    requires
                        n / 10 >= pow10((k - 1) as nat),
                ;
            }
        }
        assert(k - 1 >= 1) by {
            if k == 1 {
                assert(pow10(1nat) == 10);
            }
        }
        lemma_dec_bytes_len(n / 10, (k - 1) as nat);
    }
}

/// Any `u64` has at most twenty decimal digits.
pub proof fn lemma_dec_bytes_len_u64(n: nat)
    requires
        n <= u64::MAX,
    ensures
        dec_bytes(n).len() <= 20,
{
    reveal_with_fuel(pow10, 21);
    assert(pow10(20) == 100000000000000000000);
    lemma_dec_bytes_len(n, 20);
}

/// A later digit only grows the value of a numeral.
pub proof fn lemma_dec_val_prefix(s: Seq<u8>, j: int)
    requires
        all_dec_digits(s),
        0 <= j <= s.len(),
    ensures
        dec_val(s.subrange(0, j)) <= dec_val(s),
    decreases s.len() - j,
{
    if j == s.len() {
        assert(s.subrange(0, j) =~= s);
    } else {
        let t = s.subrange(0, j + 1);
        assert(t.drop_last() =~= s.subrange(0, j));
        assert(dec_val(s.subrange(0, j)) <= dec_val(t)) by {
            assert(dec_val(t) == (dec_val(t.drop_last()) * 10 + (t.last() - 48)) as nat);
            assert(dec_val(t.drop_last()) * 10 >= dec_val(t.drop_last())) by (nonlinear_arith);
        }
        lemma_dec_val_prefix(s, j + 1);
    }
}

/// Appends the decimal numeral of `n`.
pub fn push_decimal(out: &mut Vec<u8>, n: u64)
    ensures
        final(out)@ == old(out)@ + dec_bytes(n as nat),
    decreases n,
{
    if n < 10 {
        out.push(48 + n as u8);
        proof {
            assert(out@ =~= old(out)@ + dec_bytes(n as nat));
        }
    } else {
        push_decimal(out, n / 10);
        out.push(48 + (n % 10) as u8);
        proof {
            assert(out@ =~= old(out)@ + dec_bytes(n as nat));
        }
    }
}

/// Evaluates a run of decimal digits, refusing values above `usize::MAX`.
pub fn dec_value_of(s: &[u8]) -> (r: Option<usize>)
    ensures
        match r {
            Some(v) => s@.len() > 0 && all_dec_digits(s@) && v == dec_val(s@),
            None => !(s@.len() > 0 && all_dec_digits(s@) && dec_val(s@) <= usize::MAX),
        },
{
    if s.len() == 0 {
        return None;
    }
    let mut acc: usize = 0;
    let mut i: usize = 0;
    while i < s.len()
        invariant
            i <= s@.len(),
            acc == dec_val(s@.subrange(0, i as int)),
            all_dec_digits(s@.subrange(0, i as int)),
        decreases s@.len() - i,
    {
        let b = s[i];
        if !(48 <= b && b <= 57) {
            return None;
        }
        let d = (b - 48) as usize;
        if acc > (usize::MAX - d) / 10 {
            proof {
                let t = s@.subrange(0, i as int + 1);
                assert(t.drop_last() =~= s@.subrange(0, i as int));
                assert(t.last() == s@[i as int]);
                assert(dec_val(t) == acc * 10 + d);
                assert(acc * 10 + d > usize::MAX) by (nonlinear_arith)
                    requires
                        acc > (usize::MAX - d) / 10,
                        d <= 9,
                ;
                if all_dec_digits(s@) {
                    lemma_dec_val_prefix(s@, i as int + 1);
                }
            }
            return None;
        }
        proof {
            assert(acc * 10 + d <= usize::MAX) by (nonlinear_arith)
                requires
                    acc <= (usize::MAX - d) / 10,
                    d <= 9,
            ;
        }
        acc = acc * 10 + d;
        i = i + 1;
        proof {
            let t = s@.subrange(0, i as int);
            assert(t.drop_last() =~= s@.subrange(0, i as int - 1));
            assert(t.last() == s@[i as int - 1]);
        }
    }
    proof {
        assert(s@.subrange(0, s@.len() as int) =~= s@);
    }
    Some(acc)
}

// ---------------------------------------------------------------------------
// Hexadecimal
// ---------------------------------------------------------------------------

/// A lowercase ASCII hexadecimal digit.
pub open spec fn is_hex_digit(b: u8) -> bool {
    (48 <= b <= 57) || (97 <= b <= 102)
}

pub open spec fn all_hex_digits(s: Seq<u8>) -> bool {
    forall|i: int| 0 <= i < s.len() ==> is_hex_digit(#[trigger] s[i])
}

/// The lowercase hexadecimal digit of a value below sixteen.
pub open spec fn hex_digit(n: u8) -> u8
    recommends
        n < 16,
{
    if n < 10 {
        (48 + n) as u8
    } else {
        (87 + n) as u8
    }
}

/// The value of a lowercase hexadecimal digit; any other byte counts as
/// zero.
pub open spec fn hex_val(b: u8) -> u8 {
    if 48 <= b && b <= 57 {
        (b - 48) as u8
    } else if 97 <= b && b <= 102 {
        (b - 87) as u8
    } else {
        0
    }
}

/// The lowercase hexadecimal numeral of a byte sequence, two digits per byte.
pub open spec fn hex_bytes(s: Seq<u8>) -> Seq<u8>
    decreases s.len(),
{
    if s.len() == 0 {
        Seq::empty()
    } else {
        hex_bytes(s.drop_last()) + seq![hex_digit(s.last() / 16), hex_digit(s.last() % 16)]
    }
}

/// The bytes denoted by a run of hexadecimal digit pairs.
pub open spec fn hex_parse(s: Seq<u8>) -> Seq<u8> {
    Seq::new((s.len() / 2) as nat, |i: int| ((hex_val(s[2 * i]) as int) * 16 + hex_val(s[2 * i + 1]) as int) as u8)
}

pub proof fn lemma_hex_bytes_index(s: Seq<u8>)
    ensures
        hex_bytes(s).len() == 2 * s.len(),
        forall|i: int|
            0 <= i < s.len() ==> #[trigger] hex_bytes(s)[2 * i] == hex_digit(s[i] / 16)
                && hex_bytes(s)[2 * i + 1] == hex_digit(s[i] % 16),
        all_hex_digits(hex_bytes(s)),
        all_ascii(hex_bytes(s)),
    decreases s.len(),
{
    if s.len() == 0 {
    } else {
        lemma_hex_bytes_index(s.drop_last());
        assert forall|i: int| 0 <= i < s.len() implies #[trigger] hex_bytes(s)[2 * i]
            == hex_digit(s[i] / 16) && hex_bytes(s)[2 * i + 1] == hex_digit(s[i] % 16) by {
            if i < s.len() - 1 {
                assert(s.drop_last()[i] == s[i]);
                assert(hex_bytes(s)[2 * i] == hex_bytes(s.drop_last())[2 * i]);
                assert(hex_bytes(s)[2 * i + 1] == hex_bytes(s.drop_last())[2 * i + 1]);
            } else {
                assert(s.last() == s[i]);
            }
        }
        assert forall|i: int| 0 <= i < hex_bytes(s).len() implies is_hex_digit(
            #[trigger] hex_bytes(s)[i],
        ) by {
            let j = i / 2;
            if i % 2 == 0 {
                assert(i == 2 * j);
                assert(hex_bytes(s)[2 * j] == hex_digit(s[j] / 16));
            } else {
                assert(i == 2 * j + 1);
                assert(hex_bytes(s)[2 * j] == hex_digit(s[j] / 16));
                assert(hex_bytes(s)[2 * j + 1] == hex_digit(s[j] % 16));
            }
        }
    }
}

/// Parsing a hexadecimal encoding returns the original bytes.
pub proof fn lemma_hex_parse_hex_bytes(s: Seq<u8>)
    ensures
        hex_parse(hex_bytes(s)) == s,
{
    lemma_hex_bytes_index(s);
    assert forall|i: int| 0 <= i < s.len() implies #[trigger] hex_parse(hex_bytes(s))[i]
        == s[i] by {
        assert(hex_bytes(s)[2 * i] == hex_digit(s[i] / 16));
        assert(hex_bytes(s)[2 * i + 1] == hex_digit(s[i] % 16));
        assert((hex_val(hex_digit(s[i] / 16)) as int) * 16 + hex_val(hex_digit(s[i] % 16)) as int
            == s[i]);
    }
    assert(hex_parse(hex_bytes(s)) =~= s);
}

/// Appends the lowercase hexadecimal encoding of `data`.
pub fn push_hex(out: &mut Vec<u8>, data: &[u8])
    ensures
        final(out)@ == old(out)@ + hex_bytes(data@),
{
    let mut i: usize = 0;
    while i < data.len()
        invariant
            i <= data@.len(),
            out@ == old(out)@ + hex_bytes(data@.subrange(0, i as int)),
        decreases data@.len() - i,
    {
        let b = data[i];
        let hi = b / 16;
        let lo = b % 16;
        out.push(if hi < 10 { 48 + hi } else { 87 + hi });
        out.push(if lo < 10 { 48 + lo } else { 87 + lo });
        i = i + 1;
        proof {
            let t = data@.subrange(0, i as int);
            assert(t.drop_last() =~= data@.subrange(0, i as int - 1));
            assert(t.last() == data@[i as int - 1]);
            assert(out@ =~= old(out)@ + hex_bytes(t));
        }
    }
    proof {
        assert(data@.subrange(0, data@.len() as int) =~= data@);
    }
}

/// Decodes a run of hexadecimal digit pairs into raw bytes; a trailing odd
/// digit is dropped, as `hex_parse` drops it.
pub fn hex_to_raw(s: &[u8]) -> (r: Vec<u8>)
    ensures
        r@ == hex_parse(s@),
{
    let mut out: Vec<u8> = Vec::new();
    let mut i: usize = 0;
    while i + 1 < s.len()
        invariant
            i % 2 == 0,
            i <= s@.len(),
            out@.len() == i / 2,
            forall|j: int| 0 <= j < out@.len() ==> #[trigger] out@[j] == hex_parse(s@)[j],
        decreases s@.len() - i,
    {
        let hi = s[i];
        let lo = s[i + 1];
        let hv = hex_val_exec(hi);
        let lv = hex_val_exec(lo);
        out.push(hv * 16 + lv);
        proof {
            assert(2 * ((i as int) / 2) == i as int);
            assert(hex_parse(s@)[(i as int) / 2] == out@.last());
        }
        i = i + 2;
    }
    proof {
        assert(out@ =~= hex_parse(s@));
    }
    out
}

/// Hexadecimal digits are ASCII bytes.
pub proof fn hex_digits_are_ascii(s: Seq<u8>)
    requires
        all_hex_digits(s),
    ensures
        all_ascii(s),
{
    assert forall|i: int| 0 <= i < s.len() implies s[i] < 128 by {
        assert(is_hex_digit(s[i]));
    }
}

/// A well-formed textual object id: forty lowercase hexadecimal characters.
pub open spec fn valid_hex_id(s: Seq<char>) -> bool {
    vstd::utf8::encode_utf8(s).len() == 40 && all_hex_digits(vstd::utf8::encode_utf8(s))
}

/// The twenty raw bytes denoted by a textual object id.
pub open spec fn id_raw(s: Seq<char>) -> Seq<u8> {
    hex_parse(vstd::utf8::encode_utf8(s))
}

/// The value of a hexadecimal digit byte.
pub fn hex_val_exec(b: u8) -> (r: u8)
    ensures
        r == hex_val(b),
        r < 16,
{
    if 48 <= b && b <= 57 {
        b - 48
    } else if 97 <= b && b <= 102 {
        b - 87
    } else {
        0
    }
}

/// Checks that every byte is a lowercase hexadecimal digit.
pub fn bytes_all_hex(s: &[u8]) -> (r: bool)
    ensures
        r == all_hex_digits(s@),
{
    let mut i: usize = 0;
    while i < s.len()
        invariant
            i <= s@.len(),
            all_hex_digits(s@.subrange(0, i as int)),
        decreases s@.len() - i,
    {
        let b = s[i];
        if !((48 <= b && b <= 57) || (97 <= b && b <= 102)) {
            return false;
        }
        i = i + 1;
        proof {
            assert(forall|j: int|
                0 <= j < i ==> #[trigger] s@.subrange(0, i as int)[j] == s@[j]);
        }
    }
    proof {
        assert(s@.subrange(0, s@.len() as int) =~= s@);
    }
    true
}

} // verus!
