//! Character-sequence utilities: lexicographic order on strings, equality,
//! prefix tests, decimal parsing and rendering. These underpin the sorted
//! group files, the sorted merge order of the resolver, and identifier lookup.
use vstd::prelude::*;

verus! {

/// Lexicographic "less or equal" on character sequences, ordering characters
/// by their Unicode scalar values.
pub open spec fn lex_le(a: Seq<char>, b: Seq<char>) -> bool
    decreases a.len(),
{
    if a.len() == 0 {
        true
    } else if b.len() == 0 {
        false
    } else if (a[0] as u32) < (b[0] as u32) {
        true
    } else if (b[0] as u32) < (a[0] as u32) {
        false
    } else {
        lex_le(a.drop_first(), b.drop_first())
    }
}

/// Strict lexicographic order on character sequences.
pub open spec fn lex_lt(a: Seq<char>, b: Seq<char>) -> bool
    decreases a.len(),
{
    if b.len() == 0 {
        false
    } else if a.len() == 0 {
        true
    } else if (a[0] as u32) < (b[0] as u32) {
        true
    } else if (b[0] as u32) < (a[0] as u32) {
        false
    } else {
        lex_lt(a.drop_first(), b.drop_first())
    }
}

/// Characters with the same scalar value are the same character.
pub proof fn lemma_char_eq(a: char, b: char)
    requires
        a as u32 == b as u32,
    ensures
        a == b,
{
    vstd::utf8::char_u32_cast(a, a as u32);
    vstd::utf8::char_u32_cast(b, b as u32);
}

/// Sequences with equal heads and equal tails are equal.
proof fn lemma_head_tail_eq(a: Seq<char>, b: Seq<char>)
    requires
        a.len() > 0,
        b.len() > 0,
        a[0] == b[0],
        a.drop_first() == b.drop_first(),
    ensures
        a == b,
{
    assert(a.drop_first().len() == a.len() - 1);
    assert(b.drop_first().len() == b.len() - 1);
    assert(a.len() == b.len());
    assert forall|i: int| 0 <= i < a.len() implies a[i] == b[i] by {
        if i >= 1 {
            assert(a.drop_first()[i - 1] == a[i]);
            assert(b.drop_first()[i - 1] == b[i]);
            assert(a.drop_first()[i - 1] == b.drop_first()[i - 1]);
        }
    }
    assert(a =~= b);
}

/// The two orders agree: strict order is the non-reflexive part of `lex_le`.
pub proof fn lemma_lex_lt_le(a: Seq<char>, b: Seq<char>)
    ensures
        lex_lt(a, b) <==> (lex_le(a, b) && a != b),
    decreases a.len(),
{
    if a.len() == 0 {
        if b.len() == 0 {
            assert(a =~= b);
        }
    } else if b.len() == 0 {
    } else if (a[0] as u32) < (b[0] as u32) {
        assert(a[0] != b[0]);
        assert(a != b);
    } else if (b[0] as u32) < (a[0] as u32) {
    } else {
        lemma_char_eq(a[0], b[0]);
        lemma_lex_lt_le(a.drop_first(), b.drop_first());
        if a.drop_first() == b.drop_first() {
            lemma_head_tail_eq(a, b);
        }
        if a == b {
            assert(a.drop_first() =~= b.drop_first());
        }
    }
}

/// `lex_le` is total: any two sequences are comparable.
pub proof fn lemma_lex_le_total(a: Seq<char>, b: Seq<char>)
    ensures
        lex_le(a, b) || lex_le(b, a),
    decreases a.len(),
{
    if a.len() == 0 || b.len() == 0 {
    } else if (a[0] as u32) < (b[0] as u32) || (b[0] as u32) < (a[0] as u32) {
    } else {
        lemma_lex_le_total(a.drop_first(), b.drop_first());
    }
}

/// `lex_le` is transitive.
pub proof fn lemma_lex_le_trans(a: Seq<char>, b: Seq<char>, c: Seq<char>)
    requires
        lex_le(a, b),
        lex_le(b, c),
    ensures
        lex_le(a, c),
    decreases a.len(),
{
    if a.len() == 0 {
    } else {
        if b.len() == 0 {
        } else if c.len() == 0 {
        } else if (a[0] as u32) < (b[0] as u32) {
        } else if (b[0] as u32) < (c[0] as u32) {
        } else {
            lemma_lex_le_trans(a.drop_first(), b.drop_first(), c.drop_first());
        }
    }
}

/// `lex_le` is antisymmetric: mutual `lex_le` forces equality.
pub proof fn lemma_lex_le_antisym(a: Seq<char>, b: Seq<char>)
    requires
        lex_le(a, b),
        lex_le(b, a),
    ensures
        a == b,
    decreases a.len(),
{
    if a.len() == 0 {
        assert(a =~= b);
    } else {
        lemma_char_eq(a[0], b[0]);
        lemma_lex_le_antisym(a.drop_first(), b.drop_first());
        lemma_head_tail_eq(a, b);
    }
}

/// `lex_le` is reflexive.
pub proof fn lemma_lex_le_refl(a: Seq<char>)
    ensures
        lex_le(a, a),
    decreases a.len(),
{
    if a.len() > 0 {
        lemma_lex_le_refl(a.drop_first());
    }
}

/// What is not below-or-equal is strictly above.
pub proof fn lemma_lex_connex(a: Seq<char>, b: Seq<char>)
    requires
        !lex_le(a, b),
    ensures
        lex_lt(b, a),
{
    lemma_lex_le_total(a, b);
    lemma_lex_lt_le(b, a);
    if a == b {
        lemma_lex_le_refl(a);
    }
}

/// Strict lexicographic order is transitive.
pub proof fn lemma_lex_lt_trans(a: Seq<char>, b: Seq<char>, c: Seq<char>)
    requires
        lex_lt(a, b),
        lex_lt(b, c),
    ensures
        lex_lt(a, c),
{
    lemma_lex_lt_le(a, b);
    lemma_lex_lt_le(b, c);
    lemma_lex_le_trans(a, b, c);
    lemma_lex_lt_le(a, c);
    if a == c {
        lemma_lex_le_antisym(a, b);
    }
}

/// Compares two strings in the lexicographic order of `lex_le`.
pub fn str_le(a: &str, b: &str) -> (r: bool)
    ensures
        r == lex_le(a@, b@),
{
    let alen = a.unicode_len();
    let blen = b.unicode_len();
    let mut i: usize = 0;
    proof {
        assert(a@.skip(0) =~= a@);
        assert(b@.skip(0) =~= b@);
    }
    loop
        invariant
            i <= alen,
            i <= blen,
            alen == a@.len(),
            blen == b@.len(),
            lex_le(a@, b@) == lex_le(a@.skip(i as int), b@.skip(i as int)),
        decreases alen - i,
    {
        if i == alen {
            return true;
        }
        if i == blen {
            return false;
        }
        let ca = a.get_char(i);
        let cb = b.get_char(i);
        proof {
            assert(a@.skip(i as int)[0] == a@[i as int]);
            assert(b@.skip(i as int)[0] == b@[i as int]);
            assert(a@.skip(i as int).drop_first() =~= a@.skip(i as int + 1));
            assert(b@.skip(i as int).drop_first() =~= b@.skip(i as int + 1));
        }
        if (ca as u32) < (cb as u32) {
            return true;
        }
        if (cb as u32) < (ca as u32) {
            return false;
        }
        i = i + 1;
    }
}

/// Compares two strings in the strict lexicographic order of `lex_lt`.
pub fn str_lt(a: &str, b: &str) -> (r: bool)
    ensures
        r == lex_lt(a@, b@),
{
    let le = str_le(b, a);
    proof {
        if !lex_le(b@, a@) {
            lemma_lex_connex(b@, a@);
        }
        if lex_le(b@, a@) && lex_lt(a@, b@) {
            lemma_lex_lt_le(a@, b@);
            lemma_lex_le_antisym(a@, b@);
            lemma_lex_lt_le(a@, a@);
        }
    }
    !le
}

/// Tests two strings for equality of their character sequences.
pub fn str_eq(a: &str, b: &str) -> (r: bool)
    ensures
        r == (a@ == b@),
{
    let alen = a.unicode_len();
    let blen = b.unicode_len();
    if alen != blen {
        return false;
    }
    let mut i: usize = 0;
    loop
        invariant
            i <= alen,
            alen == a@.len(),
            alen == b@.len(),
            forall|j: int| 0 <= j < i ==> a@[j] == b@[j],
        decreases alen - i,
    {
        if i == alen {
            proof {
                assert(a@ =~= b@);
            }
            return true;
        }
        let ca = a.get_char(i);
        let cb = b.get_char(i);
        if ca != cb {
            return false;
        }
        i = i + 1;
    }
}

/// Tests whether `prefix`'s characters open `s`.
pub fn str_starts_with(s: &str, prefix: &str) -> (r: bool)
    ensures
        r == prefix@.is_prefix_of(s@),
{
    let slen = s.unicode_len();
    let plen = prefix.unicode_len();
    if plen > slen {
        return false;
    }
    let mut i: usize = 0;
    loop
        invariant
            i <= plen,
            plen <= slen,
            slen == s@.len(),
            plen == prefix@.len(),
            forall|j: int| 0 <= j < i ==> prefix@[j] == s@[j],
        decreases plen - i,
    {
        if i == plen {
            proof {
                assert(prefix@ =~= s@.subrange(0, plen as int));
            }
            return true;
        }
        let cp = prefix.get_char(i);
        let cs = s.get_char(i);
        if cp != cs {
            proof {
                if prefix@.is_prefix_of(s@) {
                    assert(prefix@[i as int] == s@.subrange(0, plen as int)[i as int]);
                }
            }
            return false;
        }
        i = i + 1;
    }
}

/// The lower-case folding of a character sequence, named but not written
/// out: the standard library's case folding is relied on for its value.
pub uninterp spec fn lower_of(s: Seq<char>) -> Seq<char>;

/// Relies on `str::to_lowercase`: the result depends on the characters
/// alone.
#[verifier::external_body]
pub fn lowercase(s: &str) -> (r: String)
    ensures
        r@ == lower_of(s@),
{
    s.to_lowercase()
}

/// The needle occurs contiguously somewhere in the haystack; an empty needle
/// occurs everywhere.
pub open spec fn contains_sub(s: Seq<char>, q: Seq<char>) -> bool {
    exists|k: int| 0 <= k <= s.len() - q.len() && #[trigger] s.subrange(k, k + q.len() as int) == q
}

/// Scans the haystack for the needle, character by character.
pub fn str_contains(s: &str, q: &str) -> (r: bool)
    ensures
        r == contains_sub(s@, q@),
{
    let slen = s.unicode_len();
    let qlen = q.unicode_len();
    if qlen > slen {
        return false;
    }
    let mut k: usize = 0;
    while k <= slen - qlen
        invariant
            slen == s@.len(),
            qlen == q@.len(),
            qlen <= slen,
            k <= slen,
            forall|k2: int| 0 <= k2 < k ==> #[trigger] s@.subrange(k2, k2 + q@.len() as int) != q@,
        decreases slen - k,
    {
        let mut j: usize = 0;
        let mut matched = true;
        while j < qlen
            invariant
                slen == s@.len(),
                qlen == q@.len(),
                k <= slen - qlen,
                qlen <= slen,
                j <= qlen,
                matched ==> forall|j2: int| 0 <= j2 < j ==> s@[k + j2] == q@[j2],
                !matched ==> s@.subrange(k as int, k + q@.len() as int) != q@,
            decreases qlen - j,
        {
            let cs = s.get_char(k + j);
            let cq = q.get_char(j);
            if cs != cq {
                matched = false;
                proof {
                    assert(s@.subrange(k as int, k + q@.len() as int)[j as int] == s@[k + j]);
                    assert(s@.subrange(k as int, k + q@.len() as int) != q@);
                }
                j = qlen;
            } else {
                j = j + 1;
            }
        }
        if matched {
            proof {
                assert(s@.subrange(k as int, k + q@.len() as int) =~= q@);
            }
            return true;
        }
        proof {
            if q@.len() == 0 {
                assert(s@.subrange(k as int, k as int) =~= q@);
            }
        }
        k = k + 1;
    }
    proof {
        assert forall|k2: int|
            0 <= k2 <= s@.len() - q@.len() implies #[trigger] s@.subrange(k2, k2 + q@.len() as int)
                != q@ by {
            assert(k2 < k);
        }
    }
    false
}

/// A decimal digit character.
pub open spec fn is_digit(c: char) -> bool {
    ('0' as u32) <= (c as u32) && (c as u32) <= ('9' as u32)
}

/// The numeric value of a digit character.
pub open spec fn digit_val(c: char) -> nat {
    ((c as u32) - ('0' as u32)) as nat
}

/// All characters of the sequence are decimal digits.
pub open spec fn all_digits(s: Seq<char>) -> bool {
    forall|i: int| 0 <= i < s.len() ==> is_digit(#[trigger] s[i])
}

/// The number denoted by a digit sequence read most-significant first.
pub open spec fn str_to_nat(s: Seq<char>) -> nat
    decreases s.len(),
{
    if s.len() == 0 {
        0
    } else {
        str_to_nat(s.drop_last()) * 10 + digit_val(s.last())
    }
}

/// A later prefix of a digit string never denotes a smaller number.
pub proof fn lemma_str_to_nat_prefix_le(s: Seq<char>, k: int)
    requires
        0 <= k <= s.len(),
    ensures
        str_to_nat(s.take(k)) <= str_to_nat(s),
    decreases s.len() - k,
{
    if k == s.len() {
        assert(s.take(k) =~= s);
    } else {
        assert(s.take(k + 1).drop_last() =~= s.take(k));
        assert(s.take(k + 1).last() == s[k]);
        assert(str_to_nat(s.take(k)) <= str_to_nat(s.take(k)) * 10 + digit_val(s[k]));
        lemma_str_to_nat_prefix_le(s, k + 1);
    }
}

/// Parses a string as an unsigned number: the whole string must be one or
/// more decimal digits and the value must fit in `usize`; anything else is
/// rejected.
pub fn parse_usize(s: &str) -> (r: Option<usize>)
    ensures
        r == (if s@.len() > 0 && all_digits(s@) && str_to_nat(s@) <= usize::MAX {
            Some(str_to_nat(s@) as usize)
        } else {
            None::<usize>
        }),
{
    let len = s.unicode_len();
    if len == 0 {
        return None;
    }
    let mut acc: u128 = 0;
    let mut i: usize = 0;
    proof {
        assert(s@.take(0) =~= Seq::<char>::empty());
    }
    loop
        invariant
            i <= len,
            len == s@.len(),
            len > 0,
            all_digits(s@.take(i as int)),
            acc as nat == str_to_nat(s@.take(i as int)),
            acc <= usize::MAX as u128,
        decreases len - i,
    {
        if i == len {
            proof {
                assert(s@.take(len as int) =~= s@);
            }
            return Some(acc as usize);
        }
        let c = s.get_char(i);
        let cu = c as u32;
        if cu < 48 || cu > 57 {
            proof {
                assert(('0' as u32) == 48 && ('9' as u32) == 57);
                assert(!is_digit(s@[i as int]));
            }
            return None;
        }
        let d = (cu - 48) as u128;
        proof {
            assert(s@.take(i as int + 1).drop_last() =~= s@.take(i as int));
            assert(s@.take(i as int + 1).last() == s@[i as int]);
            assert(('0' as u32) == 48);
            assert(d as nat == digit_val(s@[i as int]));
        }
        acc = acc * 10 + d;
        if acc > usize::MAX as u128 {
            proof {
                lemma_str_to_nat_prefix_le(s@, i as int + 1);
            }
            return None;
        }
        i = i + 1;
    }
}

/// The digit character of a value below ten.
pub open spec fn digit_char(d: nat) -> char {
    if d == 0 {
        '0'
    } else if d == 1 {
        '1'
    } else if d == 2 {
        '2'
    } else if d == 3 {
        '3'
    } else if d == 4 {
        '4'
    } else if d == 5 {
        '5'
    } else if d == 6 {
        '6'
    } else if d == 7 {
        '7'
    } else if d == 8 {
        '8'
    } else {
        '9'
    }
}

/// The decimal rendering of a number, without leading zeros (a lone zero
/// renders as "0").
pub open spec fn dec_str(n: nat) -> Seq<char>
    decreases n,
{
    if n < 10 {
        seq![digit_char(n)]
    } else {
        dec_str(n / 10) + seq![digit_char(n % 10)]
    }
}

/// A decimal rendering consists of digits only and is never empty.
pub proof fn lemma_dec_str_digits(n: nat)
    ensures
        all_digits(dec_str(n)),
        dec_str(n).len() >= 1,
    decreases n,
{
    if n < 10 {
        assert(is_digit(digit_char(n)));
    } else {
        lemma_dec_str_digits(n / 10);
        assert(is_digit(digit_char(n % 10)));
        assert forall|i: int| 0 <= i < dec_str(n).len() implies is_digit(#[trigger] dec_str(n)[i]) by {
            if i < dec_str(n / 10).len() {
                assert(dec_str(n)[i] == dec_str(n / 10)[i]);
            } else {
                assert(dec_str(n)[i] == digit_char(n % 10));
            }
        }
    }
}

/// Parsing a decimal rendering gives back the number.
pub proof fn lemma_parse_dec_str(n: nat)
    ensures
        str_to_nat(dec_str(n)) == n,
    decreases n,
{
    if n < 10 {
        let s = dec_str(n);
        assert(s.len() == 1);
        assert(s.last() == digit_char(n));
        assert(s.drop_last() =~= Seq::<char>::empty());
        assert(digit_val(digit_char(n)) == n);
        assert(str_to_nat(s) == str_to_nat(s.drop_last()) * 10 + digit_val(s.last()));
    } else {
        let s = dec_str(n);
        assert(s.drop_last() =~= dec_str(n / 10));
        assert(s.last() == digit_char(n % 10));
        lemma_parse_dec_str(n / 10);
        assert(digit_val(digit_char(n % 10)) == n % 10);
        assert(n == (n / 10) * 10 + n % 10) by {
            vstd::arithmetic::div_mod::lemma_fundamental_div_mod(n as int, 10);
        }
    }
}

/// The string of one digit character.
pub fn digit_str(d: usize) -> (r: &'static str)
    requires
        d < 10,
    ensures
        r@ == seq![digit_char(d as nat)],
{
    proof {
        reveal_strlit("0");
        reveal_strlit("1");
        reveal_strlit("2");
        reveal_strlit("3");
        reveal_strlit("4");
        reveal_strlit("5");
        reveal_strlit("6");
        reveal_strlit("7");
        reveal_strlit("8");
        reveal_strlit("9");
    }
    let r = if d == 0 {
        "0"
    } else if d == 1 {
        "1"
    } else if d == 2 {
        "2"
    } else if d == 3 {
        "3"
    } else if d == 4 {
        "4"
    } else if d == 5 {
        "5"
    } else if d == 6 {
        "6"
    } else if d == 7 {
        "7"
    } else if d == 8 {
        "8"
    } else {
        "9"
    };
    proof {
        assert(r@ =~= seq![digit_char(d as nat)]);
    }
    r
}

/// Renders a number in decimal.
pub fn usize_to_dec(n: usize) -> (r: String)
    ensures
        r@ == dec_str(n as nat),
    decreases n,
{
    if n < 10 {
        let s = digit_str(n);
        String::from_str(s)
    } else {
        proof {
            assert((n as nat) / 10 < n as nat) by {
                vstd::arithmetic::div_mod::lemma_div_is_strictly_smaller(n as int, 10);
            }
        }
        let mut s = usize_to_dec(n / 10);
        let d = digit_str(n % 10);
        s.append(d);
        proof {
            assert(s@ =~= dec_str(n as nat));
        }
        s
    }
}

} // verus!
