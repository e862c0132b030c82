//! The file-name normalizer: a name without its leading `'0'` characters.

use vstd::prelude::*;
use vstd::string::StringSliceAdditionalSpecFns;
use vstd::utf8::{
    char_u32_cast, encode_utf8, encode_utf8_decode_utf8, encode_utf8_first_scalar,
    encode_utf8_valid_utf8, is_char_boundary,
};

verus! {

/// How many `'0'` characters stand at the very start of `s`.
pub open spec fn leading_zero_count(s: Seq<char>) -> nat
    decreases s.len(),
{
    if s.len() > 0 && s[0] == '0' {
        1 + leading_zero_count(s.drop_first())
    } else {
        0
    }
}

/// `s` without its leading zeros; everything after them is kept as it is.
pub open spec fn trimmed(s: Seq<char>) -> Seq<char> {
    s.skip(leading_zero_count(s) as int)
}

/// True when every character of `s` is `'0'` (the empty string included).
pub open spec fn all_zeros(s: Seq<char>) -> bool {
    forall|i: int| 0 <= i < s.len() ==> s[i] == '0'
}

/// True when `k` is the length of the longest run of `'0'` that starts `s`.
pub open spec fn is_zero_prefix_len(s: Seq<char>, k: int) -> bool {
    &&& 0 <= k <= s.len()
    &&& forall|i: int| 0 <= i < k ==> s[i] == '0'
    &&& (k < s.len() ==> s[k] != '0')
}

/// The count of leading zeros is the length of the longest zero prefix.
pub proof fn lemma_leading_zero_count(s: Seq<char>)
    ensures
        is_zero_prefix_len(s, leading_zero_count(s) as int),
    decreases s.len(),
{
    if s.len() > 0 && s[0] == '0' {
        let rest = s.drop_first();
        lemma_leading_zero_count(rest);
        let k = leading_zero_count(rest) as int;
        assert forall|i: int| 0 <= i < k + 1 implies s[i] == '0' by {
            if i > 0 {
                assert(s[i] == rest[i - 1]);
            }
        }
        if k + 1 < s.len() {
            assert(s[k + 1] == rest[k]);
        }
    }
}

/// Only one length is that of the longest zero prefix.
pub proof fn lemma_zero_prefix_len_unique(s: Seq<char>, k: int)
    requires
        is_zero_prefix_len(s, k),
    ensures
        k == leading_zero_count(s),
{
    lemma_leading_zero_count(s);
    let n = leading_zero_count(s) as int;
    if k < n {
        assert(s[k] == '0');
    } else if n < k {
        assert(s[n] == '0');
    }
}

/// Trimming a trimmed string changes nothing.
pub proof fn lemma_trim_idempotent(s: Seq<char>)
    ensures
        trimmed(trimmed(s)) == trimmed(s),
{
    lemma_leading_zero_count(s);
    let t = trimmed(s);
    lemma_zero_prefix_len_unique(t, 0);
    assert(t.skip(0) =~= t);
}

/// A string made of zeros alone trims to the empty string.
pub proof fn lemma_trim_all_zeros(s: Seq<char>)
    requires
        all_zeros(s),
    ensures
        trimmed(s) == Seq::<char>::empty(),
{
    lemma_zero_prefix_len_unique(s, s.len() as int);
    assert(s.skip(s.len() as int) =~= Seq::<char>::empty());
}

/// A string that does not start with a zero is left as it is.
pub proof fn lemma_trim_without_leading_zero(s: Seq<char>)
    requires
        s.len() == 0 || s[0] != '0',
    ensures
        trimmed(s) == s,
{
    assert(s.skip(0) =~= s);
}

/// The byte that encodes the character `'0'`.
const ZERO: u8 = 0x30;

/// A text starts with the character `'0'` exactly when its bytes start with
/// the byte of a zero, which is then the whole encoding of that character.
proof fn lemma_zero_is_one_byte(s: Seq<char>)
    requires
        s.len() > 0,
    ensures
        encode_utf8(s).len() > 0,
        s[0] == '0' <==> encode_utf8(s)[0] == ZERO,
        s[0] == '0' ==> encode_utf8(s) == seq![ZERO] + encode_utf8(s.drop_first()),
{
    let bytes = encode_utf8(s);
    encode_utf8_first_scalar(s);
    assert(0x30u32 & 0x7F == 0x30u32) by (bit_vector);
    assert(0x30u8 & 0x7F == 0x30u8) by (bit_vector);
    if bytes[0] == ZERO {
        char_u32_cast(s[0], 0x30u32);
        assert(0x30u32 as char == '0');
    }
    if s[0] == '0' {
        assert(s[0] as u32 == 0x30u32);
        assert(bytes =~= seq![ZERO] + encode_utf8(s.drop_first()));
    }
}

/// Where the bytes of `s` start with exactly `k` bytes of a zero, `s` starts
/// with exactly `k` zeros, and what follows those bytes encodes what follows
/// those zeros.
proof fn lemma_zero_bytes_are_zeros(s: Seq<char>, k: int)
    requires
        0 <= k <= encode_utf8(s).len(),
        forall|i: int| 0 <= i < k ==> encode_utf8(s)[i] == ZERO,
        k < encode_utf8(s).len() ==> encode_utf8(s)[k] != ZERO,
    ensures
        k == leading_zero_count(s),
        is_char_boundary(encode_utf8(s), k),
        encode_utf8(s).subrange(k, encode_utf8(s).len() as int) == encode_utf8(s.skip(k)),
    decreases k,
{
    let bytes = encode_utf8(s);
    encode_utf8_valid_utf8(s);
    if s.len() > 0 {
        lemma_zero_is_one_byte(s);
    }
    if k == 0 {
        assert(bytes.subrange(0, bytes.len() as int) =~= bytes);
        assert(s.skip(0) =~= s);
    } else {
        let rest = s.drop_first();
        let rest_bytes = encode_utf8(rest);
        assert(bytes.subrange(1, bytes.len() as int) =~= rest_bytes);
        assert forall|i: int| 0 <= i < k - 1 implies rest_bytes[i] == ZERO by {
            assert(rest_bytes[i] == bytes[i + 1]);
        }
        if k - 1 < rest_bytes.len() {
            assert(rest_bytes[k - 1] == bytes[k]);
        }
        lemma_zero_bytes_are_zeros(rest, k - 1);
        lemma_leading_zero_count(rest);
        assert(bytes.subrange(k, bytes.len() as int) =~= rest_bytes.subrange(
            k - 1,
            rest_bytes.len() as int,
        ));
        assert(rest.skip(k - 1) =~= s.skip(k));
    }
}

/// Returns `s` without its leading `'0'` characters: the part of `s` that
/// is left when the longest run of zeros at its start is taken away.
pub fn trim_leading_zeros(s: &str) -> (r: &str)
    ensures
        r@ == trimmed(s@),
        r@ == s@.skip(s@.len() - r@.len()),
        is_zero_prefix_len(s@, s@.len() - r@.len()),
        all_zeros(s@) ==> r@ == Seq::<char>::empty(),
        (s@.len() == 0 || s@[0] != '0') ==> r@ == s@,
{
    let bytes = s.as_bytes();
    let mut k: usize = 0;
    while k < bytes.len() && bytes[k] == ZERO
        invariant
            k <= bytes@.len(),
            forall|i: int| 0 <= i < k ==> bytes@[i] == ZERO,
        decreases bytes@.len() - k,
    {
        k = k + 1;
    }
    proof {
        lemma_zero_bytes_are_zeros(s@, k as int);
        lemma_leading_zero_count(s@);
        if all_zeros(s@) {
            lemma_trim_all_zeros(s@);
        }
        if s@.len() == 0 || s@[0] != '0' {
            lemma_trim_without_leading_zero(s@);
        }
    }
    let (_, rest) = s.split_at(k);
    proof {
        encode_utf8_decode_utf8(rest@);
        encode_utf8_decode_utf8(s@.skip(k as int));
    }
    rest
}

} // verus!
