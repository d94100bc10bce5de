//! Decoding and encoding of hex-encoded quantities.
//!
//! The target RPC convention carries numeric results as base-16 strings with
//! a literal `0x` prefix. Decoding strips the prefix and parses the
//! remainder; a missing prefix, a non-hex character, or a value that does
//! not fit in a 64-bit signed integer is a failure, never a silent zero.

use vstd::prelude::*;

verus! {

/// Failure modes of decoding a hex-encoded quantity string.
#[derive(Clone, Copy, Debug, PartialEq, Eq, Structural)]
pub enum NumericDecodeError {
    /// The string does not begin with `0x` or `0X`.
    MissingPrefix,
    /// After the prefix, the string is empty or holds a non-hex character.
    NotHex,
    /// The value does not fit in a 64-bit signed integer.
    Overflow,
}

pub open spec fn is_hex_digit(c: char) -> bool {
    ((('0' as u32) <= (c as u32)) && ((c as u32) <= ('9' as u32))) || ((('a' as u32) <= (c
        as u32)) && ((c as u32) <= ('f' as u32))) || ((('A' as u32) <= (c as u32)) && ((c
        as u32) <= ('F' as u32)))
}

pub open spec fn is_lower_hex_digit(c: char) -> bool {
    ((('0' as u32) <= (c as u32)) && ((c as u32) <= ('9' as u32))) || ((('a' as u32) <= (c
        as u32)) && ((c as u32) <= ('f' as u32)))
}

pub open spec fn hex_digit_val(c: char) -> int {
    if (('0' as u32) <= (c as u32)) && ((c as u32) <= ('9' as u32)) {
        (c as u32) - ('0' as u32)
    } else if (('a' as u32) <= (c as u32)) && ((c as u32) <= ('f' as u32)) {
        (c as u32) - ('a' as u32) + 10
    } else {
        (c as u32) - ('A' as u32) + 10
    }
}

pub open spec fn all_hex_digits(s: Seq<char>) -> bool {
    forall|k: int| 0 <= k < s.len() ==> is_hex_digit(#[trigger] s[k])
}

/// The numeric value of a sequence of hex digits, most significant first.
pub open spec fn hex_value(s: Seq<char>) -> int
    decreases s.len(),
{
    if s.len() == 0 {
        0
    } else {
        hex_value(s.drop_last()) * 16 + hex_digit_val(s.last())
    }
}

/// Whether a quantity string starts with the literal `0x` or `0X` prefix.
pub open spec fn has_hex_prefix(w: Seq<char>) -> bool {
    w.len() >= 2 && w[0] == '0' && (w[1] == 'x' || w[1] == 'X')
}

/// The characters of a quantity string after its two-character prefix.
pub open spec fn hex_digits_of(w: Seq<char>) -> Seq<char> {
    w.skip(2)
}

/// What decoding a quantity string returns, for every input.
pub open spec fn spec_decode_quantity(w: Seq<char>) -> Result<i64, NumericDecodeError> {
    if !has_hex_prefix(w) {
        Err(NumericDecodeError::MissingPrefix)
    } else if hex_digits_of(w).len() == 0 || !all_hex_digits(hex_digits_of(w)) {
        Err(NumericDecodeError::NotHex)
    } else if hex_value(hex_digits_of(w)) > i64::MAX {
        Err(NumericDecodeError::Overflow)
    } else {
        Ok(hex_value(hex_digits_of(w)) as i64)
    }
}

pub proof fn lemma_hex_value_nonneg(s: Seq<char>)
    requires
        all_hex_digits(s),
    ensures
        hex_value(s) >= 0,
    decreases s.len(),
{
    if s.len() > 0 {
        assert forall|k: int| 0 <= k < s.drop_last().len() implies is_hex_digit(
            #[trigger] s.drop_last()[k],
        ) by {
            assert(s.drop_last()[k] == s[k]);
        }
        lemma_hex_value_nonneg(s.drop_last());
        assert(is_hex_digit(s[s.len() - 1]));
    }
}

/// The value of a prefix of a hex digit string never exceeds the value of
/// the whole string.
pub proof fn lemma_hex_value_take_le(s: Seq<char>, i: int)
    requires
        all_hex_digits(s),
        0 <= i <= s.len(),
    ensures
        hex_value(s.take(i)) <= hex_value(s),
    decreases s.len() - i,
{
    if i == s.len() {
        assert(s.take(i) =~= s);
    } else {
        let t = s.take(i + 1);
        assert(t.drop_last() =~= s.take(i));
        assert(t.last() == s[i]);
        assert forall|k: int| 0 <= k < s.take(i).len() implies is_hex_digit(
            #[trigger] s.take(i)[k],
        ) by {
            assert(s.take(i)[k] == s[k]);
        }
        lemma_hex_value_nonneg(s.take(i));
        assert(is_hex_digit(s[i]));
        assert(hex_value(t) == hex_value(s.take(i)) * 16 + hex_digit_val(s[i]));
        lemma_hex_value_take_le(s, i + 1);
    }
}

/// The value of a hex digit character, or `None` when it is not one.
pub fn hex_digit_value(c: char) -> (res: Option<u8>)
    ensures
        res is Some <==> is_hex_digit(c),
        res matches Some(d) ==> d == hex_digit_val(c) && d < 16,
{
    let u = c as u32;
    if 48 <= u && u <= 57 {
        Some((u - 48) as u8)
    } else if 97 <= u && u <= 102 {
        Some((u - 97 + 10) as u8)
    } else if 65 <= u && u <= 70 {
        Some((u - 65 + 10) as u8)
    } else {
        None
    }
}

/// Decode a `0x`-prefixed hex quantity into a 64-bit signed integer.
///
/// A missing prefix, an empty or non-hex remainder, and a value above
/// `i64::MAX` are each rejected with their own error; no input panics and
/// none decodes to a default.
pub fn decode_quantity(s: &str) -> (res: Result<i64, NumericDecodeError>)
    ensures
        res == spec_decode_quantity(s@),
{
    let n = s.unicode_len();
    if n < 2 {
        return Err(NumericDecodeError::MissingPrefix);
    }
    let c0 = s.get_char(0);
    let c1 = s.get_char(1);
    if !(c0 == '0' && (c1 == 'x' || c1 == 'X')) {
        return Err(NumericDecodeError::MissingPrefix);
    }
    if n == 2 {
        return Err(NumericDecodeError::NotHex);
    }
    // First pass: every character after the prefix must be a hex digit.
    let mut i: usize = 2;
    while i < n
        invariant
            2 <= i <= n,
            n == s@.len(),
            has_hex_prefix(s@),
            forall|k: int| 2 <= k < i ==> is_hex_digit(#[trigger] s@[k]),
        decreases n - i,
    {
        let c = s.get_char(i);
        if hex_digit_value(c).is_none() {
            proof {
                assert(hex_digits_of(s@)[i - 2] == s@[i as int]);
                assert(!all_hex_digits(hex_digits_of(s@)));
            }
            return Err(NumericDecodeError::NotHex);
        }
        i += 1;
    }
    proof {
        assert forall|k: int| 0 <= k < hex_digits_of(s@).len() implies is_hex_digit(
            #[trigger] hex_digits_of(s@)[k],
        ) by {
            assert(hex_digits_of(s@)[k] == s@[k + 2]);
        }
    }
    // Second pass: accumulate, rejecting values that do not fit in i64.
    let ghost digs = hex_digits_of(s@);
    let mut acc: i64 = 0;
    let mut j: usize = 2;
    while j < n
        invariant
            2 <= j <= n,
            n == s@.len(),
            digs == hex_digits_of(s@),
            all_hex_digits(digs),
            digs.len() == n - 2,
            has_hex_prefix(s@),
            0 <= acc,
            acc == hex_value(digs.take(j - 2)),
        decreases n - j,
    {
        let c = s.get_char(j);
        proof {
            assert(digs[j - 2] == s@[j as int]);
            assert(is_hex_digit(s@[j as int]));
        }
        let d = hex_digit_value(c).unwrap();
        proof {
            let t = digs.take(j - 2 + 1);
            assert(t.drop_last() =~= digs.take(j - 2));
            assert(t.last() == digs[j - 2]);
            assert(hex_value(t) == acc * 16 + hex_digit_val(s@[j as int]));
        }
        if acc > 0x07ff_ffff_ffff_ffff {
            proof {
                lemma_hex_value_take_le(digs, j - 2 + 1);
            }
            return Err(NumericDecodeError::Overflow);
        }
        acc = acc * 16 + d as i64;
        j += 1;
    }
    proof {
        assert(digs.take(n - 2) =~= digs);
    }
    Ok(acc)
}

/// The lowercase hex digit character for a value in `0..16`.
pub open spec fn hex_char_of(d: int) -> char {
    if d == 0 {
        '0'
    } else if d == 1 {
        '1'
    } else if d == 2 {
        '2'
    } else if d == 3 {
        '3'
    } else if d == 4 {
        '4'
    } else if d == 5 {
        '5'
    } else if d == 6 {
        '6'
    } else if d == 7 {
        '7'
    } else if d == 8 {
        '8'
    } else if d == 9 {
        '9'
    } else if d == 10 {
        'a'
    } else if d == 11 {
        'b'
    } else if d == 12 {
        'c'
    } else if d == 13 {
        'd'
    } else if d == 14 {
        'e'
    } else {
        'f'
    }
}

/// The canonical (lowercase, no leading zero) hex digits of a non-negative
/// value.
pub open spec fn canon_hex_digits(v: int) -> Seq<char>
    decreases v,
{
    if v < 16 {
        seq![hex_char_of(v)]
    } else {
        canon_hex_digits(v / 16) + seq![hex_char_of(v % 16)]
    }
}

/// The canonical quantity encoding: `0x` followed by the canonical digits.
pub open spec fn canon_quantity(v: int) -> Seq<char> {
    seq!['0', 'x'] + canon_hex_digits(v)
}

fn hex_digit_str(d: u8) -> (res: &'static str)
    requires
        d < 16,
    ensures
        res@ =~= seq![hex_char_of(d as int)],
{
    if d == 0 {
        proof { reveal_strlit("0"); }
        "0"
    } else if d == 1 {
        proof { reveal_strlit("1"); }
        "1"
    } else if d == 2 {
        proof { reveal_strlit("2"); }
        "2"
    } else if d == 3 {
        proof { reveal_strlit("3"); }
        "3"
    } else if d == 4 {
        proof { reveal_strlit("4"); }
        "4"
    } else if d == 5 {
        proof { reveal_strlit("5"); }
        "5"
    } else if d == 6 {
        proof { reveal_strlit("6"); }
        "6"
    } else if d == 7 {
        proof { reveal_strlit("7"); }
        "7"
    } else if d == 8 {
        proof { reveal_strlit("8"); }
        "8"
    } else if d == 9 {
        proof { reveal_strlit("9"); }
        "9"
    } else if d == 10 {
        proof { reveal_strlit("a"); }
        "a"
    } else if d == 11 {
        proof { reveal_strlit("b"); }
        "b"
    } else if d == 12 {
        proof { reveal_strlit("c"); }
        "c"
    } else if d == 13 {
        proof { reveal_strlit("d"); }
        "d"
    } else if d == 14 {
        proof { reveal_strlit("e"); }
        "e"
    } else {
        proof { reveal_strlit("f"); }
        "f"
    }
}

fn encode_hex_digits(v: i64) -> (res: String)
    requires
        v >= 0,
    ensures
        res@ == canon_hex_digits(v as int),
    decreases v,
{
    if v < 16 {
        String::from_str(hex_digit_str(v as u8))
    } else {
        let mut r = encode_hex_digits(v / 16);
        r.append(hex_digit_str((v % 16) as u8));
        proof {
            assert(r@ =~= canon_hex_digits(v as int));
        }
        r
    }
}

/// Encode a non-negative value in the canonical quantity form: lowercase
/// hex digits, `0x`-prefixed, no leading zeros.
pub fn encode_quantity(v: i64) -> (res: String)
    requires
        v >= 0,
    ensures
        res@ == canon_quantity(v as int),
{
    proof { reveal_strlit("0x"); }
    let mut out = String::from_str("0x");
    out.append(encode_hex_digits(v).as_str());
    proof {
        assert(out@ =~= canon_quantity(v as int));
    }
    out
}

/// The canonical digits of a value decode back to it, are lowercase hex,
/// and carry no leading zero.
pub proof fn lemma_canon_hex_digits_props(v: int)
    requires
        v >= 0,
    ensures
        canon_hex_digits(v).len() >= 1,
        all_hex_digits(canon_hex_digits(v)),
        forall|k: int|
            0 <= k < canon_hex_digits(v).len() ==> is_lower_hex_digit(
                #[trigger] canon_hex_digits(v)[k],
            ),
        hex_value(canon_hex_digits(v)) == v,
        v > 0 ==> canon_hex_digits(v)[0] != '0',
    decreases v,
{
    if v < 16 {
        let w = canon_hex_digits(v);
        assert(w == seq![hex_char_of(v)]);
        assert(w.drop_last() =~= Seq::<char>::empty());
        assert(hex_value(Seq::<char>::empty()) == 0);
        assert(w.last() == hex_char_of(v));
        assert(hex_value(w) == hex_value(w.drop_last()) * 16 + hex_digit_val(w.last()));
        assert(hex_digit_val(hex_char_of(v)) == v);
        assert(is_lower_hex_digit(hex_char_of(v)));
        assert(is_hex_digit(hex_char_of(v)));
        assert(w[0] == hex_char_of(v));
        assert(hex_value(w) == v);
    } else {
        lemma_canon_hex_digits_props(v / 16);
        let a = canon_hex_digits(v / 16);
        let w = canon_hex_digits(v);
        assert(w == a + seq![hex_char_of(v % 16)]);
        assert(w.drop_last() =~= a);
        assert(w.last() == hex_char_of(v % 16));
        assert(hex_digit_val(hex_char_of(v % 16)) == v % 16);
        assert(hex_value(w) == hex_value(a) * 16 + v % 16);
        assert(hex_value(w) == v);
        assert forall|k: int| 0 <= k < w.len() implies is_lower_hex_digit(#[trigger] w[k]) by {
            if k < a.len() {
                assert(w[k] == a[k]);
            } else {
                assert(w[k] == hex_char_of(v % 16));
            }
        }
        assert forall|k: int| 0 <= k < w.len() implies is_hex_digit(#[trigger] w[k]) by {
            assert(is_lower_hex_digit(w[k]));
        }
        assert(w[0] == a[0]);
    }
}

/// Two characters that are the same hex digit up to letter case.
pub open spec fn same_hex_digit_ci(x: char, y: char) -> bool {
    x == y || (is_hex_digit(x) && is_hex_digit(y) && hex_digit_val(x) == hex_digit_val(y))
}

/// Decoding is case-insensitive: two hex digit strings that agree digit by
/// digit up to letter case have the same value.
pub proof fn lemma_hex_value_case_insensitive(a: Seq<char>, b: Seq<char>)
    requires
        a.len() == b.len(),
        forall|k: int| 0 <= k < a.len() ==> same_hex_digit_ci(#[trigger] a[k], #[trigger] b[k]),
    ensures
        hex_value(a) == hex_value(b),
    decreases a.len(),
{
    if a.len() > 0 {
        assert forall|k: int| 0 <= k < a.drop_last().len() implies same_hex_digit_ci(
            #[trigger] a.drop_last()[k],
            #[trigger] b.drop_last()[k],
        ) by {
            assert(a.drop_last()[k] == a[k]);
            assert(b.drop_last()[k] == b[k]);
        }
        lemma_hex_value_case_insensitive(a.drop_last(), b.drop_last());
        assert(same_hex_digit_ci(a[a.len() - 1], b[b.len() - 1]));
    }
}

/// Decoding a well-formed quantity string and re-encoding the value yields
/// the canonical form: lowercase, `0x`-prefixed, no leading zeros, and it
/// decodes back to the same value.
pub proof fn lemma_quantity_round_trip(w: Seq<char>)
    requires
        has_hex_prefix(w),
        hex_digits_of(w).len() > 0,
        all_hex_digits(hex_digits_of(w)),
        hex_value(hex_digits_of(w)) <= i64::MAX,
    ensures
        ({
            let v = hex_value(hex_digits_of(w));
            &&& spec_decode_quantity(w) == Ok::<i64, NumericDecodeError>(v as i64)
            &&& has_hex_prefix(canon_quantity(v))
            &&& hex_digits_of(canon_quantity(v)) == canon_hex_digits(v)
            &&& forall|k: int|
                0 <= k < canon_hex_digits(v).len() ==> is_lower_hex_digit(
                    #[trigger] canon_hex_digits(v)[k],
                )
            &&& v > 0 ==> canon_hex_digits(v)[0] != '0'
            &&& spec_decode_quantity(canon_quantity(v)) == Ok::<i64, NumericDecodeError>(v as i64)
        }),
{
    let v = hex_value(hex_digits_of(w));
    lemma_hex_value_nonneg(hex_digits_of(w));
    lemma_canon_hex_digits_props(v);
    assert(hex_digits_of(canon_quantity(v)) =~= canon_hex_digits(v));
    assert(canon_quantity(v)[0] == '0');
    assert(canon_quantity(v)[1] == 'x');
}

} // verus!
