//! Verified utilities over strings viewed as sequences of characters:
//! equality, prefix tests, character search, digit parsing and decimal
//! rendering. Everything else in the crate builds on these.

use vstd::prelude::*;

verus! {

// ---------------------------------------------------------------------------
// Equality and prefixes
// ---------------------------------------------------------------------------

/// Whether `p` is a prefix of `s`.
pub open spec fn has_prefix(s: Seq<char>, p: Seq<char>) -> bool {
    s.len() >= p.len() && s.take(p.len() as int) == p
}

/// Character-for-character equality of two string slices.
pub fn str_eq(a: &str, b: &str) -> (r: bool)
    ensures
        r == (a@ == b@),
{
    let alen = a.unicode_len();
    let blen = b.unicode_len();
    if alen != blen {
        assert(a@ != b@) by {
            assert(a@.len() != b@.len());
        }
        return false;
    }
    let mut i: usize = 0;
    while i < alen
        invariant
            alen == a@.len(),
            blen == b@.len(),
            alen == blen,
            i <= alen,
            forall|j: int| 0 <= j < i ==> a@[j] == b@[j],
        decreases alen - i,
    {
        if a.get_char(i) != b.get_char(i) {
            return false;
        }
        i += 1;
    }
    proof {
        assert(a@ =~= b@);
    }
    true
}

/// Whether `p` is a prefix of `s`, character for character.
pub fn str_has_prefix(s: &str, p: &str) -> (r: bool)
    ensures
        r == has_prefix(s@, p@),
{
    let slen = s.unicode_len();
    let plen = p.unicode_len();
    if slen < plen {
        return false;
    }
    let mut i: usize = 0;
    while i < plen
        invariant
            slen == s@.len(),
            plen == p@.len(),
            plen <= slen,
            i <= plen,
            forall|j: int| 0 <= j < i ==> s@[j] == p@[j],
        decreases plen - i,
    {
        if s.get_char(i) != p.get_char(i) {
            assert(s@.take(plen as int)[i as int] != p@[i as int]);
            return false;
        }
        i += 1;
    }
    proof {
        assert(s@.take(plen as int) =~= p@);
    }
    true
}

// ---------------------------------------------------------------------------
// First occurrence of a character
// ---------------------------------------------------------------------------

/// Index of the first occurrence of `c` in `s`, or -1 if absent.
pub open spec fn first_idx(s: Seq<char>, c: char) -> int
    decreases s.len(),
{
    if s.len() == 0 {
        -1
    } else if s[0] == c {
        0
    } else {
        let r = first_idx(s.drop_first(), c);
        if r < 0 {
            -1
        } else {
            1 + r
        }
    }
}

/// What `first_idx` means: the least index holding `c`, or -1 when `c` is
/// absent.
pub proof fn lemma_first_idx(s: Seq<char>, c: char)
    ensures
        first_idx(s, c) >= 0 ==> {
            &&& first_idx(s, c) < s.len()
            &&& s[first_idx(s, c)] == c
            &&& forall|j: int| 0 <= j < first_idx(s, c) ==> (#[trigger] s[j]) != c
        },
        first_idx(s, c) < 0 ==> forall|j: int| 0 <= j < s.len() ==> (#[trigger] s[j]) != c,
    decreases s.len(),
{
    if s.len() > 0 && s[0] != c {
        let t = s.drop_first();
        lemma_first_idx(t, c);
        if first_idx(t, c) >= 0 {
            let r = first_idx(t, c);
            assert(s[1 + r] == t[r]);
            assert forall|j: int| 0 <= j < 1 + r implies s[j] != c by {
                if j > 0 {
                    assert(s[j] == t[j - 1]);
                }
            }
        } else {
            assert forall|j: int| 0 <= j < s.len() implies s[j] != c by {
                if j > 0 {
                    assert(s[j] == t[j - 1]);
                }
            }
        }
    }
}

/// Finds the first occurrence of `c` in `s`.
pub fn find_char(s: &str, c: char) -> (r: Option<usize>)
    ensures
        r is Some ==> first_idx(s@, c) == r->0,
        r is None ==> first_idx(s@, c) < 0,
{
    let len = s.unicode_len();
    let mut i: usize = 0;
    while i < len
        invariant
            len == s@.len(),
            i <= len,
            forall|j: int| 0 <= j < i ==> (#[trigger] s@[j]) != c,
        decreases len - i,
    {
        if s.get_char(i) == c {
            proof {
                // the minimal witness pins first_idx down
                lemma_first_idx(s@, c);
                if first_idx(s@, c) < 0 {
                    assert(s@[i as int] != c);
                }
                if first_idx(s@, c) > i {
                    assert(s@[i as int] != c);
                }
                if 0 <= first_idx(s@, c) < i {
                    assert(s@[first_idx(s@, c)] != c);
                }
            }
            return Some(i);
        }
        i += 1;
    }
    proof {
        lemma_first_idx(s@, c);
        if first_idx(s@, c) >= 0 {
            assert(s@[first_idx(s@, c)] != c);
        }
    }
    None
}

/// Index of the last occurrence of `c` in `s`, or -1 if absent.
pub open spec fn last_idx(s: Seq<char>, c: char) -> int
    decreases s.len(),
{
    if s.len() == 0 {
        -1
    } else if s.last() == c {
        s.len() - 1
    } else {
        last_idx(s.drop_last(), c)
    }
}

/// What `last_idx` means: the greatest index holding `c`, or -1 when `c` is
/// absent.
pub proof fn lemma_last_idx(s: Seq<char>, c: char)
    ensures
        last_idx(s, c) >= 0 ==> {
            &&& last_idx(s, c) < s.len()
            &&& s[last_idx(s, c)] == c
            &&& forall|j: int| last_idx(s, c) < j < s.len() ==> (#[trigger] s[j]) != c
        },
        last_idx(s, c) < 0 ==> forall|j: int| 0 <= j < s.len() ==> (#[trigger] s[j]) != c,
    decreases s.len(),
{
    if s.len() > 0 && s.last() != c {
        let t = s.drop_last();
        lemma_last_idx(t, c);
        assert forall|j: int| 0 <= j < s.len() - 1 implies t[j] == s[j] by {}
    }
}

/// Finds the last occurrence of `c` in `s`.
pub fn rfind_char(s: &str, c: char) -> (r: Option<usize>)
    ensures
        r is Some ==> last_idx(s@, c) == r->0,
        r is None ==> last_idx(s@, c) < 0,
{
    let len = s.unicode_len();
    let mut i: usize = len;
    while i > 0
        invariant
            len == s@.len(),
            i <= len,
            forall|j: int| i <= j < len ==> (#[trigger] s@[j]) != c,
        decreases i,
    {
        if s.get_char(i - 1) == c {
            proof {
                lemma_last_idx(s@, c);
                if last_idx(s@, c) < 0 {
                    assert(s@[i - 1] != c);
                }
                if last_idx(s@, c) > i - 1 {
                    assert(s@[i - 1] != c);
                }
                if 0 <= last_idx(s@, c) < i - 1 {
                    assert(s@[last_idx(s@, c)] != c);
                }
            }
            return Some(i - 1);
        }
        i -= 1;
    }
    proof {
        lemma_last_idx(s@, c);
        if last_idx(s@, c) >= 0 {
            assert(s@[last_idx(s@, c)] != c);
        }
    }
    None
}

// ---------------------------------------------------------------------------
// Digits
// ---------------------------------------------------------------------------

/// Whether `c` is an ASCII decimal digit.
pub open spec fn is_digit(c: char) -> bool {
    48 <= c as int && c as int <= 57
}

/// Numeric value of a digit character.
pub open spec fn digit_val(c: char) -> nat {
    (c as int - 48) as nat
}

/// Whether every character of `s` is a decimal digit.
pub open spec fn all_digits(s: Seq<char>) -> bool {
    forall|i: int| 0 <= i < s.len() ==> is_digit(#[trigger] s[i])
}

/// The number denoted by a digit string, most significant digit first.
pub open spec fn digits_val(s: Seq<char>) -> nat
    decreases s.len(),
{
    if s.len() == 0 {
        0
    } else {
        digits_val(s.drop_last()) * 10 + digit_val(s.last())
    }
}

/// A digit string is worth at least any of its prefixes.
pub proof fn lemma_digits_val_prefix_le(s: Seq<char>, k: int)
    requires
        0 <= k <= s.len(),
    ensures
        digits_val(s.take(k)) <= digits_val(s),
    decreases s.len() - k,
{
    if k < s.len() {
        lemma_digits_val_prefix_le(s, k + 1);
        assert(s.take(k + 1).drop_last() =~= s.take(k));
        assert(digits_val(s.take(k + 1)) == digits_val(s.take(k)) * 10 + digit_val(
            s.take(k + 1).last(),
        ));
    } else {
        assert(s.take(k) =~= s);
    }
}

/// Parses a decimal number: succeeds exactly on nonempty all-digit strings
/// whose value fits in a `u32`, as the standard integer parser does.
pub fn parse_u32(s: &str) -> (r: Option<u32>)
    ensures
        r is Some <==> s@.len() > 0 && all_digits(s@) && digits_val(s@) <= u32::MAX,
        r is Some ==> r->0 == digits_val(s@),
{
    let len = s.unicode_len();
    if len == 0 {
        return None;
    }
    let mut acc: u32 = 0;
    let mut i: usize = 0;
    while i < len
        invariant
            len == s@.len(),
            0 < len,
            i <= len,
            all_digits(s@.take(i as int)),
            acc == digits_val(s@.take(i as int)),
        decreases len - i,
    {
        let c = s.get_char(i);
        let code = c as u32;
        if code < 48 || code > 57 {
            assert(!is_digit(s@[i as int]));
            return None;
        }
        let d = code - 48;
        if acc > (u32::MAX - d) / 10 {
            proof {
                assert(s@.take(i + 1).drop_last() =~= s@.take(i as int));
                assert(digits_val(s@.take(i + 1)) == acc * 10 + d);
                assert(acc * 10 + d > u32::MAX) by (nonlinear_arith)
                    requires
                        acc > (u32::MAX - d) / 10,
                        d <= 9,
                ;
                if digits_val(s@) <= u32::MAX {
                    lemma_digits_val_prefix_le(s@, i + 1);
                }
            }
            return None;
        }
        proof {
            assert(acc * 10 + d <= u32::MAX) by (nonlinear_arith)
                requires
                    acc <= (u32::MAX - d) / 10,
                    d <= 9,
            ;
            assert(s@.take(i + 1).drop_last() =~= s@.take(i as int));
        }
        acc = acc * 10 + d;
        i += 1;
    }
    proof {
        assert(s@.take(len as int) =~= s@);
    }
    Some(acc)
}

/// Decimal rendering of a number, most significant digit first.
pub open spec fn dec_seq(n: nat) -> Seq<char>
    decreases n,
{
    if n < 10 {
        seq![((48 + n) as u8) as char]
    } else {
        dec_seq(n / 10) + seq![((48 + n % 10) as u8) as char]
    }
}

/// Renders one digit as a string.
fn digit_str(d: u32) -> (r: &'static str)
    requires
        d <= 9,
    ensures
        r@ =~= seq![((48 + d as nat) as u8) as char],
{
    proof {
        reveal_strlit("0");
        reveal_strlit("1");
        reveal_strlit("2");
        reveal_strlit("3");
        reveal_strlit("4");
        reveal_strlit("5");
        reveal_strlit("6");
        reveal_strlit("7");
        reveal_strlit("8");
        reveal_strlit("9");
    }
    match d {
        0 => "0",
        1 => "1",
        2 => "2",
        3 => "3",
        4 => "4",
        5 => "5",
        6 => "6",
        7 => "7",
        8 => "8",
        _ => "9",
    }
}

/// Renders a number in decimal.
pub fn u64_to_dec(n: u64) -> (r: String)
    ensures
        r@ == dec_seq(n as nat),
    decreases n,
{
    if n < 10 {
        let mut s = String::new();
        s.append(digit_str((n % 10) as u32));
        proof {
            assert(s@ =~= dec_seq(n as nat));
        }
        s
    } else {
        let mut s = u64_to_dec(n / 10);
        s.append(digit_str((n % 10) as u32));
        proof {
            assert(s@ =~= dec_seq(n as nat));
        }
        s
    }
}

/// Distinct numbers have distinct decimal renderings.
pub proof fn lemma_dec_seq_injective(a: nat, b: nat)
    requires
        dec_seq(a) == dec_seq(b),
    ensures
        a == b,
    decreases a,
{
    lemma_dec_seq_digits(a);
    lemma_dec_seq_digits(b);
    if a < 10 && b < 10 {
        assert(dec_seq(a)[0] == ((48 + a) as u8) as char);
        assert(dec_seq(b)[0] == ((48 + b) as u8) as char);
        assert(((48 + a) as u8) as char as int == 48 + a);
        assert(((48 + b) as u8) as char as int == 48 + b);
    } else if a >= 10 && b >= 10 {
        assert(dec_seq(a).last() == ((48 + a % 10) as u8) as char);
        assert(dec_seq(b).last() == ((48 + b % 10) as u8) as char);
        assert(((48 + a % 10) as u8) as char as int == 48 + a % 10);
        assert(((48 + b % 10) as u8) as char as int == 48 + b % 10);
        assert(dec_seq(a).last() == dec_seq(b).last());
        assert(dec_seq(a).drop_last() =~= dec_seq(a / 10));
        assert(dec_seq(b).drop_last() =~= dec_seq(b / 10));
        lemma_dec_seq_injective(a / 10, b / 10);
        assert(a == (a / 10) * 10 + a % 10);
        assert(b == (b / 10) * 10 + b % 10);
    } else {
        // lengths differ: one rendering is a single digit, the other longer
        if a < 10 {
            assert(dec_seq(a).len() == 1);
            assert(dec_seq(b).len() >= 2);
        } else {
            assert(dec_seq(b).len() == 1);
            assert(dec_seq(a).len() >= 2);
        }
    }
}

/// A decimal rendering is nonempty and made of digits.
pub proof fn lemma_dec_seq_digits(n: nat)
    ensures
        dec_seq(n).len() >= 1,
        all_digits(dec_seq(n)),
        n >= 10 ==> dec_seq(n).len() >= 2,
    decreases n,
{
    if n >= 10 {
        lemma_dec_seq_digits(n / 10);
    }
}

} // verus!
