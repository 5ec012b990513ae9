//! Base-62 codec over the alphabet `0-9A-Za-z`.
//!
//! A 128-bit unsigned integer is written most-significant symbol first, with
//! no leading zero symbols; zero itself is the single symbol `"0"`. Decoding
//! scans the string from its rightmost symbol towards the left, rejecting the
//! rightmost character outside the alphabet, or reporting overflow as soon as
//! the value read so far no longer fits in 128 bits.

use vstd::prelude::*;

verus! {

/// The 62 symbols of the encoding, indexed 0 through 61: the decimal digits,
/// then the upper case letters, then the lower case letters. The ordering is
/// part of the wire contract.
pub const ALPHABET: [char; 62] = [
    '0', '1', '2', '3', '4', '5', '6', '7', '8', '9',
    'A', 'B', 'C', 'D', 'E', 'F', 'G', 'H', 'I', 'J',
    'K', 'L', 'M', 'N', 'O', 'P', 'Q', 'R', 'S', 'T',
    'U', 'V', 'W', 'X', 'Y', 'Z', 'a', 'b', 'c', 'd',
    'e', 'f', 'g', 'h', 'i', 'j', 'k', 'l', 'm', 'n',
    'o', 'p', 'q', 'r', 's', 't', 'u', 'v', 'w', 'x',
    'y', 'z',
];

/// The numeric value of a symbol: `'0'..='9'` map to 0..=9, `'A'..='Z'` to
/// 10..=35, `'a'..='z'` to 36..=61. Characters outside the alphabet map to 62.
pub open spec fn char_val(c: char) -> int {
    let u = c as u32;
    if '0' as u32 <= u && u <= '9' as u32 {
        u - '0' as u32
    } else if 'A' as u32 <= u && u <= 'Z' as u32 {
        10 + u - 'A' as u32
    } else if 'a' as u32 <= u && u <= 'z' as u32 {
        36 + u - 'a' as u32
    } else {
        62
    }
}

/// A character is a base-62 symbol exactly when it lies in `[0-9A-Za-z]`.
pub open spec fn is_base62_char(c: char) -> bool {
    char_val(c) < 62
}

/// Every character of the sequence is a base-62 symbol.
pub open spec fn all_base62(s: Seq<char>) -> bool {
    forall|i: int| 0 <= i < s.len() ==> is_base62_char(#[trigger] s[i])
}

/// The number a sequence of base-62 symbols denotes, most-significant symbol
/// first: appending a symbol multiplies the value so far by 62 and adds the
/// symbol's value.
pub open spec fn base62_value(s: Seq<char>) -> nat
    decreases s.len(),
{
    if s.len() == 0 {
        0
    } else {
        base62_value(s.drop_last()) * 62 + char_val(s.last()) as nat
    }
}

/// 62 raised to the `k`th power.
pub open spec fn pow62(k: nat) -> nat
    decreases k,
{
    if k == 0 {
        1
    } else {
        62 * pow62((k - 1) as nat)
    }
}

/// The base-62 digits of `n`, most-significant first, with no leading zero
/// symbols; zero has no digits.
pub open spec fn encode_digits(n: nat) -> Seq<char>
    decreases n,
{
    if n == 0 {
        Seq::empty()
    } else {
        encode_digits(n / 62) + seq![ALPHABET@[(n % 62) as int]]
    }
}

/// The canonical encoding of `n`: its digits, except that zero is the single
/// symbol `"0"`.
pub open spec fn encode_chars(n: nat) -> Seq<char> {
    if n == 0 {
        seq!['0']
    } else {
        encode_digits(n)
    }
}

/// Each alphabet entry is a base-62 symbol whose value is its index.
pub proof fn lemma_alphabet_val(d: int)
    requires
        0 <= d < 62,
    ensures
        is_base62_char(ALPHABET@[d]),
        char_val(ALPHABET@[d]) == d,
{
}

/// A base-62 symbol is the alphabet entry at its value.
pub proof fn lemma_val_alphabet(c: char)
    requires
        is_base62_char(c),
    ensures
        0 <= char_val(c) < 62,
        ALPHABET@[char_val(c)] == c,
{
    broadcast use vstd::utf8::char_u32_cast;

}

/// Why a string failed to decode.
#[derive(Clone, Copy, Debug, PartialEq, Eq, Structural)]
pub enum DecodeError {
    /// A character outside the alphabet, with its 1-based position counted
    /// from the start of the string.
    InvalidBase62Byte(char, usize),
    /// The value the string denotes does not fit in 128 bits.
    ArithmeticOverflow,
}

/// The index of the rightmost character outside the alphabet, or -1 when
/// every character is a symbol. Decoding scans right to left, so this is the
/// character it trips over.
pub open spec fn rightmost_invalid(s: Seq<char>) -> int
    decreases s.len(),
{
    if s.len() == 0 {
        -1
    } else if !is_base62_char(s.last()) {
        s.len() - 1
    } else {
        rightmost_invalid(s.drop_last())
    }
}

/// What stands to the right of the rightmost character outside the alphabet
/// (the whole string when there is none): the part a right-to-left scan reads
/// before it can stop on an invalid symbol.
pub open spec fn valid_tail(s: Seq<char>) -> Seq<char> {
    s.skip(rightmost_invalid(s) + 1)
}

/// The exact result of decoding `s`. Scanning right to left, the value read
/// so far exceeding 128 bits is reported first; then the rightmost character
/// outside the alphabet, with its 1-based position from the start; otherwise
/// the string's value.
pub open spec fn decode_spec(s: Seq<char>) -> Result<u128, DecodeError> {
    if base62_value(valid_tail(s)) > u128::MAX {
        Err(DecodeError::ArithmeticOverflow)
    } else if rightmost_invalid(s) >= 0 {
        Err(
            DecodeError::InvalidBase62Byte(
                s[rightmost_invalid(s)],
                (rightmost_invalid(s) + 1) as usize,
            ),
        )
    } else {
        Ok(base62_value(s) as u128)
    }
}

proof fn lemma_rightmost_invalid(s: Seq<char>)
    ensures
        -1 <= rightmost_invalid(s) < s.len(),
        rightmost_invalid(s) >= 0 ==> !is_base62_char(s[rightmost_invalid(s)]),
        forall|j: int| rightmost_invalid(s) < j < s.len() ==> is_base62_char(#[trigger] s[j]),
        rightmost_invalid(s) == -1 <==> all_base62(s),
    decreases s.len(),
{
    if s.len() == 0 {
    } else if !is_base62_char(s.last()) {
        assert(!all_base62(s));
    } else {
        lemma_rightmost_invalid(s.drop_last());
        assert forall|j: int| rightmost_invalid(s) < j < s.len() implies is_base62_char(
            #[trigger] s[j],
        ) by {
            if j < s.len() - 1 {
                assert(s[j] == s.drop_last()[j]);
            }
        }
        if rightmost_invalid(s) == -1 {
            assert(all_base62(s));
        } else {
            assert(s[rightmost_invalid(s)] == s.drop_last()[rightmost_invalid(s)]);
            assert(!all_base62(s));
        }
    }
}

proof fn lemma_pow62_pos(k: nat)
    ensures
        pow62(k) >= 1,
    decreases k,
{
    if k > 0 {
        lemma_pow62_pos((k - 1) as nat);
    }
}

/// Putting a symbol in front of a run of symbols adds its value times the
/// power of 62 for the run's length.
#[verifier::rlimit(30)]
proof fn lemma_value_prepend(c: char, t: Seq<char>)
    ensures
        base62_value(seq![c] + t) == char_val(c) * pow62(t.len()) + base62_value(t),
    decreases t.len(),
{
    assert(char_val(c) >= 0);
    if t.len() == 0 {
        assert(t =~= Seq::<char>::empty());
        assert((seq![c] + t) =~= seq![c]);
        assert(seq![c].drop_last() =~= Seq::<char>::empty());
        assert(seq![c].last() == c);
        assert(base62_value(Seq::<char>::empty()) == 0);
        assert(pow62(0) == 1);
        assert(base62_value(seq![c]) == char_val(c));
        assert(base62_value(seq![c] + t) == char_val(c) * pow62(t.len()) + base62_value(t));
    } else {
        lemma_value_prepend(c, t.drop_last());
        assert((seq![c] + t).drop_last() =~= seq![c] + t.drop_last());
        assert((seq![c] + t).last() == t.last());
        assert(char_val(t.last()) >= 0);
        assert(base62_value(seq![c] + t) == base62_value(seq![c] + t.drop_last()) * 62 + char_val(
            t.last(),
        ));
        assert(base62_value(seq![c] + t.drop_last()) == char_val(c) * pow62(
            t.drop_last().len(),
        ) + base62_value(t.drop_last()));
        assert((char_val(c) * pow62(t.drop_last().len()) + base62_value(t.drop_last())) * 62
            == char_val(c) * pow62(t.drop_last().len()) * 62 + base62_value(t.drop_last()) * 62)
            by (nonlinear_arith);
        assert(char_val(c) * pow62((t.len() - 1) as nat) * 62 == char_val(c) * pow62(t.len()))
            by (nonlinear_arith)
            requires
                pow62(t.len()) == 62 * pow62((t.len() - 1) as nat),
        ;
        assert(base62_value(t) == base62_value(t.drop_last()) * 62 + char_val(t.last()));
        assert(base62_value(seq![c] + t) == char_val(c) * pow62(t.len()) + base62_value(t));
    }
}

/// One step of the right-to-left scan: the value of the suffix from `j` on is
/// the symbol at `j` weighted by its distance from the end, plus the value of
/// the suffix after it.
proof fn lemma_value_skip_step(s: Seq<char>, j: int)
    requires
        0 <= j < s.len(),
    ensures
        base62_value(s.skip(j)) == char_val(s[j]) * pow62((s.len() - j - 1) as nat)
            + base62_value(s.skip(j + 1)),
{
    assert(s.skip(j) =~= seq![s[j]] + s.skip(j + 1));
    lemma_value_prepend(s[j], s.skip(j + 1));
}

/// A longer suffix never denotes a smaller number.
proof fn lemma_value_skip_le(s: Seq<char>, j: int, k: int)
    requires
        0 <= j <= k <= s.len(),
    ensures
        base62_value(s.skip(j)) >= base62_value(s.skip(k)),
    decreases k - j,
{
    if j < k {
        lemma_value_skip_step(s, j);
        lemma_pow62_pos((s.len() - j - 1) as nat);
        assert(char_val(s[j]) * pow62((s.len() - j - 1) as nat) >= 0) by (nonlinear_arith)
            requires char_val(s[j]) >= 0 && pow62((s.len() - j - 1) as nat) >= 1
        ;
        lemma_value_skip_le(s, j + 1, k);
    }
}

/// Decoding succeeds exactly when every character is in the alphabet and the
/// value fits in 128 bits, and then yields that value.
pub proof fn lemma_decode_ok(s: Seq<char>)
    ensures
        decode_spec(s) is Ok <==> all_base62(s) && base62_value(s) <= u128::MAX,
        decode_spec(s) is Ok ==> decode_spec(s) == Ok::<u128, DecodeError>(
            base62_value(s) as u128,
        ),
{
    lemma_rightmost_invalid(s);
    if rightmost_invalid(s) == -1 {
        assert(valid_tail(s) =~= s);
    } else {
        lemma_value_skip_le(s, rightmost_invalid(s) + 1, s.len() as int);
    }
}

/// Looks a character up in the alphabet.
fn char_value(c: char) -> (r: Option<u8>)
    ensures
        r matches Some(v) ==> is_base62_char(c) && v == char_val(c),
        r is None ==> !is_base62_char(c),
{
    let u = c as u32;
    if '0' as u32 <= u && u <= '9' as u32 {
        Some((u - '0' as u32) as u8)
    } else if 'A' as u32 <= u && u <= 'Z' as u32 {
        Some((10 + u - 'A' as u32) as u8)
    } else if 'a' as u32 <= u && u <= 'z' as u32 {
        Some((36 + u - 'a' as u32) as u8)
    } else {
        None
    }
}

/// Relies on `String::push`: appends exactly the given character.
#[verifier::external_body]
fn push_char(s: &mut String, c: char)
    ensures
        final(s)@ == old(s)@.push(c),
{
    s.push(c);
}

/// The alphabet symbols of a run of digit values, read back to front: the
/// digits of a number collected least-significant first, turned into its
/// most-significant-first spelling.
spec fn rev_digit_chars(ds: Seq<u8>) -> Seq<char>
    decreases ds.len(),
{
    if ds.len() == 0 {
        Seq::empty()
    } else {
        seq![ALPHABET@[ds.last() as int]] + rev_digit_chars(ds.drop_last())
    }
}

proof fn lemma_rev_digit_chars(ds: Seq<u8>)
    ensures
        rev_digit_chars(ds).len() == ds.len(),
        forall|j: int|
            0 <= j < ds.len() ==> rev_digit_chars(ds)[j] == ALPHABET@[ds[ds.len() - 1 - j] as int],
    decreases ds.len(),
{
    if ds.len() > 0 {
        lemma_rev_digit_chars(ds.drop_last());
    }
}

/// Writes `num` in base 62, most-significant symbol first: zero as `"0"`,
/// every other value with no leading zero symbols.
pub fn encode(num: u128) -> (r: String)
    ensures
        r@ == encode_chars(num as nat),
{
    if num == 0 {
        let r = "0".to_owned();
        proof {
            reveal_strlit("0");
            assert(r@ =~= encode_chars(0));
        }
        return r;
    }
    let mut digits: Vec<u8> = Vec::new();
    let mut n = num;
    while n > 0
        invariant
            forall|j: int| 0 <= j < digits@.len() ==> digits@[j] < 62,
            encode_digits(num as nat) =~= encode_digits(n as nat) + rev_digit_chars(digits@),
        decreases n,
    {
        let d = (n % 62) as u8;
        let ghost prev = digits@;
        digits.push(d);
        proof {
            assert(digits@.drop_last() =~= prev);
            assert(rev_digit_chars(digits@) =~= seq![ALPHABET@[d as int]] + rev_digit_chars(prev));
            assert(encode_digits(n as nat) =~= encode_digits((n / 62) as nat) + seq![
                ALPHABET@[(n % 62) as int],
            ]);
            assert(encode_digits(num as nat) =~= encode_digits((n / 62) as nat)
                + rev_digit_chars(digits@));
        }
        n = n / 62;
    }
    proof {
        lemma_rev_digit_chars(digits@);
    }
    let mut out = String::new();
    let mut k = digits.len();
    while k > 0
        invariant
            k <= digits@.len(),
            forall|j: int| 0 <= j < digits@.len() ==> digits@[j] < 62,
            out@.len() == digits@.len() - k,
            forall|j: int|
                0 <= j < out@.len() ==> out@[j] == ALPHABET@[digits@[digits@.len() - 1 - j] as int],
        decreases k,
    {
        k = k - 1;
        let d = digits[k];
        push_char(&mut out, ALPHABET[d as usize]);
    }
    proof {
        lemma_rev_digit_chars(digits@);
        assert(out@ =~= rev_digit_chars(digits@));
    }
    out
}

/// Reads a base-62 string back into its 128-bit value, scanning from the
/// rightmost symbol leftwards; the empty string reads as zero. Fails on the
/// rightmost character outside `[0-9A-Za-z]`, naming it and its 1-based
/// position from the start of the string, or with overflow as soon as the
/// value read no longer fits in 128 bits.
pub fn decode(s: &str) -> (r: Result<u128, DecodeError>)
    ensures
        r == decode_spec(s@),
        r is Ok <==> all_base62(s@) && base62_value(s@) <= u128::MAX,
        r matches Ok(v) ==> v == base62_value(s@),
{
    let len = s.unicode_len();
    let mut result: u128 = 0;
    let mut pow: u128 = 1;
    let mut pow_ok: bool = true;
    let mut i: usize = 0;
    proof {
        assert(s@.skip(len as int) =~= Seq::<char>::empty());
    }
    while i < len
        invariant
            i <= len,
            len == s@.len(),
            forall|j: int| len - i <= j < len ==> is_base62_char(#[trigger] s@[j]),
            result == base62_value(s@.skip(len as int - i as int)),
            pow_ok ==> pow == pow62(i as nat),
            !pow_ok ==> pow62(i as nat) > u128::MAX,
        decreases len - i,
    {
        let c = s.get_char(len - 1 - i);
        let ghost j = len as int - 1 - i as int;
        match char_value(c) {
            None => {
                proof {
                    lemma_rightmost_invalid(s@);
                    assert(rightmost_invalid(s@) == j);
                    assert(valid_tail(s@) =~= s@.skip(len as int - i as int));
                    assert(!all_base62(s@));
                    lemma_decode_ok(s@);
                }
                return Err(DecodeError::InvalidBase62Byte(c, len - i));
            },
            Some(v) => {
                proof {
                    lemma_rightmost_invalid(s@);
                    assert(rightmost_invalid(s@) <= j - 1);
                    lemma_value_skip_step(s@, j);
                    assert(s@.skip(j + 1) =~= s@.skip(len as int - i as int));
                    lemma_value_skip_le(s@, rightmost_invalid(s@) + 1, j);
                    lemma_pow62_pos(i as nat);
                }
                if v > 0 {
                    if !pow_ok {
                        proof {
                            assert(char_val(s@[j]) * pow62(i as nat) >= pow62(i as nat))
                                by (nonlinear_arith)
                                requires
                                    char_val(s@[j]) >= 1,
                                    pow62(i as nat) >= 1,
                            ;
                            lemma_decode_ok(s@);
                        }
                        return Err(DecodeError::ArithmeticOverflow);
                    }
                    let z = match (v as u128).checked_mul(pow) {
                        Some(z) => z,
                        None => {
                            proof {
                                lemma_decode_ok(s@);
                            }
                            return Err(DecodeError::ArithmeticOverflow);
                        },
                    };
                    result = match result.checked_add(z) {
                        Some(t) => t,
                        None => {
                            proof {
                                lemma_decode_ok(s@);
                            }
                            return Err(DecodeError::ArithmeticOverflow);
                        },
                    };
                    proof {
                        assert(result == base62_value(s@.skip(j)));
                    }
                } else {
                    proof {
                        assert(char_val(s@[j]) == 0);
                        assert(char_val(s@[j]) * pow62(i as nat) == 0) by (nonlinear_arith)
                            requires
                                char_val(s@[j]) == 0,
                        ;
                        assert(result == base62_value(s@.skip(j)));
                    }
                }
                if pow_ok {
                    match pow.checked_mul(62) {
                        Some(p) => pow = p,
                        None => pow_ok = false,
                    }
                }
                i += 1;
            },
        }
    }
    proof {
        lemma_rightmost_invalid(s@);
        assert(s@.skip(0) =~= s@);
        assert(valid_tail(s@) =~= s@);
        lemma_decode_ok(s@);
    }
    Ok(result)
}

proof fn lemma_encode_digits_props(n: nat)
    ensures
        all_base62(encode_digits(n)),
        base62_value(encode_digits(n)) == n,
        n > 0 ==> encode_digits(n).len() >= 1 && char_val(encode_digits(n)[0]) >= 1,
    decreases n,
{
    if n > 0 {
        lemma_encode_digits_props(n / 62);
        lemma_alphabet_val((n % 62) as int);
        let d = encode_digits(n / 62);
        let e = encode_digits(n);
        assert(e =~= d.push(ALPHABET@[(n % 62) as int]));
        assert(e.drop_last() =~= d);
        assert(e.last() == ALPHABET@[(n % 62) as int]);
        assert(base62_value(e) == base62_value(d) * 62 + char_val(e.last()));
        vstd::arithmetic::div_mod::lemma_fundamental_div_mod(n as int, 62);
        assert(base62_value(e) == n);
        assert forall|i: int| 0 <= i < e.len() implies is_base62_char(#[trigger] e[i]) by {
            if i < d.len() {
                assert(e[i] == d[i]);
            }
        }
        if n / 62 == 0 {
            assert(n % 62 == n);
            assert(char_val(e[0]) == n);
        } else {
            assert(e[0] == d[0]);
        }
    }
}

/// Encoding never fails and decoding undoes it: every 128-bit value reads
/// back from its canonical base-62 spelling, which is made of alphabet
/// symbols only.
pub proof fn lemma_round_trip(n: nat)
    requires
        n <= u128::MAX,
    ensures
        all_base62(encode_chars(n)),
        base62_value(encode_chars(n)) == n,
        decode_spec(encode_chars(n)) == Ok::<u128, DecodeError>(n as u128),
{
    if n == 0 {
        let s = encode_chars(0);
        assert(s =~= seq!['0']);
        assert(s.drop_last() =~= Seq::<char>::empty());
        assert(s.last() == '0');
        assert(char_val('0') == 0);
        assert(base62_value(Seq::<char>::empty()) == 0);
        assert(base62_value(s) == 0);
        assert(all_base62(s));
    } else {
        lemma_encode_digits_props(n);
    }
    lemma_decode_ok(encode_chars(n));
}

/// A positive value never encodes with a leading zero symbol.
pub proof fn lemma_no_leading_zero(n: nat)
    requires
        n >= 1,
    ensures
        encode_chars(n).len() >= 1,
        encode_chars(n)[0] != '0',
{
    lemma_encode_digits_props(n);
    assert(char_val('0') == 0);
}

/// A canonical spelling — alphabet symbols only, no leading zero symbol
/// except for `"0"` itself, value within 128 bits — is reproduced exactly by
/// encoding its value: decoding then encoding gives the string back.
pub proof fn lemma_canonical_round_trip(s: Seq<char>)
    requires
        all_base62(s),
        base62_value(s) <= u128::MAX,
        s =~= seq!['0'] || (s.len() >= 1 && s[0] != '0'),
    ensures
        encode_chars(base62_value(s)) == s,
    decreases s.len(),
{
    if s =~= seq!['0'] {
        lemma_round_trip(0);
        assert(s.drop_last() =~= Seq::<char>::empty());
        assert(base62_value(s) == char_val('0'));
        assert(encode_chars(0) =~= s);
    } else {
        let n = base62_value(s);
        let dl = s.drop_last();
        let r = char_val(s.last());
        assert(s.last() == s[s.len() - 1]);
        assert(is_base62_char(s[s.len() - 1]));
        lemma_val_alphabet(s.last());
        assert(is_base62_char(s[0]));
        lemma_val_alphabet(s[0]);
        assert(ALPHABET@[0] == '0');
        assert(0 <= r < 62 && char_val(s[0]) >= 1);
        assert(n == base62_value(dl) * 62 + r);
        vstd::arithmetic::div_mod::lemma_fundamental_div_mod_converse(
            n as int,
            62,
            base62_value(dl) as int,
            r,
        );
        assert(n / 62 == base62_value(dl) && n % 62 == r);
        if s.len() == 1 {
            assert(dl =~= Seq::<char>::empty());
            assert(base62_value(Seq::<char>::empty()) == 0);
            assert(s.last() == s[0]);
            assert(n == r && n >= 1);
            assert(encode_digits(0) =~= Seq::<char>::empty());
            assert(encode_digits(n) =~= encode_digits(n / 62) + seq![ALPHABET@[(n % 62) as int]]);
            assert(encode_digits(n) =~= seq![ALPHABET@[n as int]]);
            assert(encode_digits(n) =~= s);
        } else {
            assert(dl[0] == s[0]);
            lemma_value_skip_step(dl, 0);
            lemma_pow62_pos((dl.len() - 1) as nat);
            assert(char_val(dl[0]) * pow62((dl.len() - 1) as nat) >= pow62(
                (dl.len() - 1) as nat,
            ))
                by (nonlinear_arith)
                requires
                    char_val(dl[0]) >= 1,
                    pow62((dl.len() - 1) as nat) >= 1,
            ;
            assert(dl =~= dl.skip(0));
            assert(base62_value(dl) >= 1);
            assert forall|i: int| 0 <= i < dl.len() implies is_base62_char(#[trigger] dl[i]) by {
                assert(dl[i] == s[i]);
            }
            lemma_canonical_round_trip(dl);
            lemma_val_alphabet(s.last());
            assert(encode_digits(n) =~= encode_digits(base62_value(dl)) + seq![
                ALPHABET@[r as int],
            ]);
            assert(encode_chars(n) =~= s);
        }
    }
}

/// Zero has one canonical spelling, `"0"`, and both it and the empty string
/// read back as zero.
pub proof fn lemma_zero_forms()
    ensures
        encode_chars(0) == seq!['0'],
        decode_spec(seq!['0']) == Ok::<u128, DecodeError>(0),
        decode_spec(Seq::<char>::empty()) == Ok::<u128, DecodeError>(0),
{
    lemma_round_trip(0);
    assert(encode_chars(0) =~= seq!['0']);
    lemma_decode_ok(Seq::<char>::empty());
}

proof fn lemma_pow62_22()
    ensures
        pow62(22) > u128::MAX,
{
    assert(pow62(0) == 1);
    assert(pow62(1) == 62);
    assert(pow62(2) == 3844);
    assert(pow62(3) == 238328);
    assert(pow62(4) == 14776336);
    assert(pow62(5) == 916132832);
    assert(pow62(6) == 56800235584);
    assert(pow62(7) == 3521614606208);
    assert(pow62(8) == 218340105584896);
    assert(pow62(9) == 13537086546263552);
    assert(pow62(10) == 839299365868340224);
    assert(pow62(11) == 52036560683837093888);
    assert(pow62(12) == 3226266762397899821056);
    assert(pow62(13) == 200028539268669788905472);
    assert(pow62(14) == 12401769434657526912139264);
    assert(pow62(15) == 768909704948766668552634368);
    assert(pow62(16) == 47672401706823533450263330816);
    assert(pow62(17) == 2955688905823059073916326510592);
    assert(pow62(18) == 183252712161029662582812243656704);
    assert(pow62(19) == 11361668153983839080134359106715648);
    assert(pow62(20) == 704423425546998022968330264616370176);
    assert(pow62(21) == 43674252383913877424036476406214950912);
    assert(pow62(22) == 2707803647802660400290261537185326956544);
}

proof fn lemma_pow62_mono(a: nat, b: nat)
    requires
        a <= b,
    ensures
        pow62(a) <= pow62(b),
    decreases b,
{
    if a < b {
        lemma_pow62_mono(a, (b - 1) as nat);
    }
}

proof fn lemma_encode_digits_len(n: nat, k: nat)
    requires
        n < pow62(k),
    ensures
        encode_digits(n).len() <= k,
    decreases n,
{
    if n > 0 {
        assert(k >= 1);
        assert(n / 62 < pow62((k - 1) as nat)) by {
            vstd::arithmetic::div_mod::lemma_fundamental_div_mod(n as int, 62);
        }
        lemma_encode_digits_len(n / 62, (k - 1) as nat);
    }
}

/// An encoding is never longer than 22 symbols: 62 to the 22nd power already
/// exceeds the 128-bit range.
pub proof fn lemma_encode_len(n: nat)
    requires
        n <= u128::MAX,
    ensures
        1 <= encode_chars(n).len() <= 22,
{
    if n == 0 {
        assert(encode_chars(0) =~= seq!['0']);
    } else {
        lemma_encode_digits_props(n);
        lemma_pow62_22();
        lemma_encode_digits_len(n, 22);
    }
}

/// A string of 23 or more alphabet symbols that does not start with the zero
/// symbol always decodes to an overflow: its value exceeds 128 bits however
/// the symbols are chosen.
pub proof fn lemma_long_string_overflows(s: Seq<char>)
    requires
        all_base62(s),
        s.len() >= 23,
        s[0] != '0',
    ensures
        decode_spec(s) == Err::<u128, DecodeError>(DecodeError::ArithmeticOverflow),
{
    assert(is_base62_char(s[0]));
    lemma_val_alphabet(s[0]);
    assert(ALPHABET@[0] == '0');
    assert(char_val(s[0]) >= 1);
    lemma_value_skip_step(s, 0);
    lemma_pow62_pos((s.len() - 1) as nat);
    assert(char_val(s[0]) * pow62((s.len() - 1) as nat) >= pow62((s.len() - 1) as nat))
        by (nonlinear_arith)
        requires
            char_val(s[0]) >= 1,
            pow62((s.len() - 1) as nat) >= 1,
    ;
    lemma_pow62_22();
    lemma_pow62_mono(22, (s.len() - 1) as nat);
    assert(s.skip(0) =~= s);
    assert(base62_value(s) > u128::MAX);
    lemma_rightmost_invalid(s);
    assert(valid_tail(s) =~= s);
}

/// The decimal digits of `n`, most-significant first; zero has none. The
/// first ten alphabet symbols are the decimal digits.
pub open spec fn decimal_digits(n: nat) -> Seq<char>
    decreases n,
{
    if n == 0 {
        Seq::empty()
    } else {
        decimal_digits(n / 10) + seq![ALPHABET@[(n % 10) as int]]
    }
}

/// The decimal spelling of `n`.
pub open spec fn decimal_chars(n: nat) -> Seq<char> {
    if n == 0 {
        seq!['0']
    } else {
        decimal_digits(n)
    }
}

/// The text a decode error shows: the offending character quoted, with its
/// 1-based position, or the overflow's bare name.
pub open spec fn error_chars(e: DecodeError) -> Seq<char> {
    match e {
        DecodeError::InvalidBase62Byte(c, p) => "InvalidBase62Byte('"@ + seq![c] + "', "@
            + decimal_chars(p as nat) + ")"@,
        DecodeError::ArithmeticOverflow => "ArithmeticOverflow"@,
    }
}

/// Appends the decimal spelling of `n`.
fn push_decimal(out: &mut String, n: usize)
    ensures
        final(out)@ == old(out)@ + decimal_chars(n as nat),
{
    if n == 0 {
        push_char(out, '0');
        proof {
            assert(old(out)@.push('0') =~= old(out)@ + decimal_chars(0));
        }
        return ;
    }
    let mut digits: Vec<u8> = Vec::new();
    let mut m = n;
    while m > 0
        invariant
            forall|j: int| 0 <= j < digits@.len() ==> digits@[j] < 62,
            decimal_digits(n as nat) =~= decimal_digits(m as nat) + rev_digit_chars(digits@),
        decreases m,
    {
        let d = (m % 10) as u8;
        let ghost prev = digits@;
        digits.push(d);
        proof {
            assert(digits@.drop_last() =~= prev);
            assert(rev_digit_chars(digits@) =~= seq![ALPHABET@[d as int]] + rev_digit_chars(prev));
            assert(decimal_digits(m as nat) =~= decimal_digits((m / 10) as nat) + seq![
                ALPHABET@[(m % 10) as int],
            ]);
            assert(decimal_digits(n as nat) =~= decimal_digits((m / 10) as nat) + rev_digit_chars(
                digits@,
            ));
        }
        m = m / 10;
    }
    proof {
        lemma_rev_digit_chars(digits@);
        assert(decimal_digits(n as nat) =~= rev_digit_chars(digits@));
    }
    let ghost base = out@;
    let mut k = digits.len();
    while k > 0
        invariant
            k <= digits@.len(),
            forall|j: int| 0 <= j < digits@.len() ==> digits@[j] < 62,
            out@ =~= base + rev_digit_chars(digits@).subrange(0, digits@.len() - k),
        decreases k,
    {
        k = k - 1;
        let d = digits[k];
        push_char(out, ALPHABET[d as usize]);
        proof {
            lemma_rev_digit_chars(digits@);
            let r = rev_digit_chars(digits@);
            assert(r.subrange(0, digits@.len() - k) =~= r.subrange(0, digits@.len() - k - 1)
                + seq![r[digits@.len() - k - 1]]);
            assert(r[digits@.len() - k - 1] == ALPHABET@[digits@[k as int] as int]);
            assert(out@ =~= base + r.subrange(0, digits@.len() - k));
        }
    }
    proof {
        let r = rev_digit_chars(digits@);
        assert(r.subrange(0, digits@.len() as int) =~= r);
        assert(out@ =~= base + decimal_chars(n as nat));
    }
}

impl DecodeError {
    /// Renders the error as text, for instance `InvalidBase62Byte('{', 3)` or
    /// `ArithmeticOverflow`.
    pub fn to_string(&self) -> (r: String)
        ensures
            r@ == error_chars(*self),
    {
        match self {
            DecodeError::InvalidBase62Byte(c, p) => {
                let mut out = "InvalidBase62Byte('".to_owned();
                push_char(&mut out, *c);
                out.append("', ");
                push_decimal(&mut out, *p);
                out.append(")");
                proof {
                    assert(out@ =~= error_chars(*self));
                }
                out
            },
            DecodeError::ArithmeticOverflow => "ArithmeticOverflow".to_owned(),
        }
    }
}

} // verus!
