//! Character and string helpers shared by the tokenizer, the tree API and
//! the serializer. Everything here is verified against character-sequence
//! models; no std string routine is taken on trust.

use vstd::prelude::*;
use vstd::string::*;

verus! {

/// The characters that separate tokens: the Unicode `White_Space` set.
pub open spec fn is_wspace(c: char) -> bool {
    ||| c == ' '
    ||| c == '\t'
    ||| c == '\n'
    ||| c == '\u{000B}'
    ||| c == '\u{000C}'
    ||| c == '\r'
    ||| c == '\u{0085}'
    ||| c == '\u{00A0}'
    ||| c == '\u{1680}'
    ||| (0x2000 <= c as u32 && c as u32 <= 0x200A)
    ||| c == '\u{2028}'
    ||| c == '\u{2029}'
    ||| c == '\u{202F}'
    ||| c == '\u{205F}'
    ||| c == '\u{3000}'
}

pub fn is_space(c: char) -> (r: bool)
    ensures
        r == is_wspace(c),
{
    let u = c as u32;
    u == 0x20 || u == 0x09 || u == 0x0A || u == 0x0B || u == 0x0C || u == 0x0D || u == 0x85
        || u == 0xA0 || u == 0x1680 || (0x2000 <= u && u <= 0x200A) || u == 0x2028 || u == 0x2029
        || u == 0x202F || u == 0x205F || u == 0x3000
}

/// Whether the string consists of exactly the one character `c`.
pub fn str_is_char(s: &str, c: char) -> (r: bool)
    ensures
        r == (s@ == seq![c]),
{
    let n = s.unicode_len();
    if n != 1 {
        proof {
            assert(s@ != seq![c]) by {
                assert(seq![c].len() == 1);
            }
        }
        false
    } else {
        let got = s.get_char(0);
        proof {
            if got == c {
                assert(s@ =~= seq![c]);
            } else {
                assert(s@[0] != seq![c][0]);
            }
        }
        got == c
    }
}

/// Character-for-character string equality.
pub fn str_eq(a: &str, b: &str) -> (r: bool)
    ensures
        r == (a@ == b@),
{
    let na = a.unicode_len();
    let nb = b.unicode_len();
    if na != nb {
        return false;
    }
    let mut i: usize = 0;
    while i < na
        invariant
            na == a@.len(),
            na == b@.len(),
            i <= na,
            forall|j: int| 0 <= j < i ==> a@[j] == b@[j],
        decreases na - i,
    {
        if a.get_char(i) != b.get_char(i) {
            return false;
        }
        i += 1;
    }
    proof {
        assert(a@ =~= b@);
    }
    true
}

/// `prefix` starts the string `s`.
pub open spec fn has_prefix(s: Seq<char>, prefix: Seq<char>) -> bool {
    prefix.len() <= s.len() && s.subrange(0, prefix.len() as int) == prefix
}

pub fn starts_with(s: &str, prefix: &str) -> (r: bool)
    ensures
        r == has_prefix(s@, prefix@),
{
    let n = s.unicode_len();
    let np = prefix.unicode_len();
    if np > n {
        return false;
    }
    let mut i: usize = 0;
    while i < np
        invariant
            n == s@.len(),
            np == prefix@.len(),
            np <= n,
            i <= np,
            forall|j: int| 0 <= j < i ==> s@[j] == prefix@[j],
        decreases np - i,
    {
        if s.get_char(i) != prefix.get_char(i) {
            proof {
                assert(s@.subrange(0, np as int)[i as int] != prefix@[i as int]);
            }
            return false;
        }
        i += 1;
    }
    proof {
        assert(s@.subrange(0, np as int) =~= prefix@);
    }
    true
}

/// `needle` occurs somewhere inside `hay`.
pub open spec fn has_substring(hay: Seq<char>, needle: Seq<char>) -> bool {
    exists|i: int|
        0 <= i && i + needle.len() <= hay.len() && #[trigger] hay.subrange(
            i,
            i + needle.len() as int,
        ) == needle
}

/// Whether `needle` occurs at position `at` of `hay`.
spec fn matches_at(hay: Seq<char>, needle: Seq<char>, at: int) -> bool {
    0 <= at && at + needle.len() <= hay.len() && hay.subrange(at, at + needle.len() as int)
        == needle
}

fn matches_at_exec(hay: &str, needle: &str, at: usize) -> (r: bool)
    requires
        at + needle@.len() <= hay@.len(),
        hay@.len() <= usize::MAX,
    ensures
        r == matches_at(hay@, needle@, at as int),
{
    let np = needle.unicode_len();
    let mut j: usize = 0;
    while j < np
        invariant
            np == needle@.len(),
            at + np <= hay@.len(),
            hay@.len() <= usize::MAX,
            j <= np,
            forall|k: int| 0 <= k < j ==> hay@[at + k] == needle@[k],
        decreases np - j,
    {
        if hay.get_char(at + j) != needle.get_char(j) {
            proof {
                assert(hay@.subrange(at as int, at + np as int)[j as int] != needle@[j as int]);
            }
            return false;
        }
        j += 1;
    }
    proof {
        assert(hay@.subrange(at as int, at + np as int) =~= needle@);
    }
    true
}

/// The string with every `=` rewritten to `?=`, the marker escape used
/// when one serialized entry must be found again inside a larger document.
pub open spec fn escape_eq(s: Seq<char>) -> Seq<char>
    decreases s.len(),
{
    if s.len() == 0 {
        Seq::empty()
    } else {
        escape_eq(s.drop_last()) + (if s.last() == '=' {
            seq!['?', '=']
        } else {
            seq![s.last()]
        })
    }
}

pub fn escape_eq_str(s: &str) -> (r: String)
    ensures
        r@ == escape_eq(s@),
{
    proof {
        reveal_strlit("?=");
        assert("?="@ =~= seq!['?', '=']);
    }
    let n = s.unicode_len();
    let mut out = String::new();
    let mut i: usize = 0;
    while i < n
        invariant
            n == s@.len(),
            i <= n,
            out@ == escape_eq(s@.subrange(0, i as int)),
            "?="@ == seq!['?', '='],
        decreases n - i,
    {
        proof {
            assert(s@.subrange(0, i + 1).drop_last() =~= s@.subrange(0, i as int));
            assert(s@.subrange(0, i + 1).last() == s@[i as int]);
        }
        let c = s.get_char(i);
        if c == '=' {
            out.append("?=");
        } else {
            out.append(s.substring_char(i, i + 1));
            proof {
                assert(s@.subrange(i as int, i + 1) =~= seq![s@[i as int]]);
            }
        }
        i += 1;
    }
    proof {
        assert(s@.subrange(0, n as int) =~= s@);
    }
    out
}

/// The string with every non-overlapping occurrence of `needle` replaced
/// by `repl`, scanning left to right. An empty `needle` replaces nothing.
pub open spec fn replace_seq(hay: Seq<char>, needle: Seq<char>, repl: Seq<char>) -> Seq<char>
    decreases hay.len(),
{
    if needle.len() == 0 {
        hay
    } else if hay.len() < needle.len() {
        hay
    } else if hay.subrange(0, needle.len() as int) == needle {
        repl + replace_seq(hay.subrange(needle.len() as int, hay.len() as int), needle, repl)
    } else {
        seq![hay[0]] + replace_seq(hay.subrange(1, hay.len() as int), needle, repl)
    }
}

pub fn replace_all(hay: &str, needle: &str, repl: &str) -> (r: String)
    ensures
        r@ == replace_seq(hay@, needle@, repl@),
{
    let n = hay.unicode_len();
    let np = needle.unicode_len();
    if np == 0 {
        return String::from_str(hay);
    }
    let mut out = String::new();
    let mut i: usize = 0;
    proof {
        assert(hay@.subrange(0, n as int) =~= hay@);
        assert(Seq::<char>::empty() + replace_seq(hay@, needle@, repl@) =~= replace_seq(
            hay@,
            needle@,
            repl@,
        ));
    }
    while np <= n && i <= n - np
        invariant
            n == hay@.len(),
            np == needle@.len(),
            0 < np,
            i <= n,
            replace_seq(hay@, needle@, repl@) == out@ + replace_seq(
                hay@.subrange(i as int, n as int),
                needle@,
                repl@,
            ),
        decreases n - i,
    {
        let ghost suffix = hay@.subrange(i as int, n as int);
        let ghost out0 = out@;
        if matches_at_exec(hay, needle, i) {
            out.append(repl);
            proof {
                let rest = replace_seq(hay@.subrange(i + np, n as int), needle@, repl@);
                assert(suffix.subrange(0, np as int) =~= hay@.subrange(i as int, i + np));
                assert(suffix.subrange(np as int, suffix.len() as int) =~= hay@.subrange(
                    i + np,
                    n as int,
                ));
                assert(out0 + (repl@ + rest) =~= (out0 + repl@) + rest);
            }
            i += np;
        } else {
            out.append(hay.substring_char(i, i + 1));
            proof {
                let rest = replace_seq(hay@.subrange(i + 1, n as int), needle@, repl@);
                assert(suffix.subrange(0, np as int) =~= hay@.subrange(i as int, i + np));
                assert(suffix[0] == hay@[i as int]);
                assert(suffix.subrange(1, suffix.len() as int) =~= hay@.subrange(
                    i + 1,
                    n as int,
                ));
                assert(hay@.subrange(i as int, i + 1) =~= seq![hay@[i as int]]);
                assert(out0 + (seq![hay@[i as int]] + rest) =~= (out0 + seq![hay@[i as int]])
                    + rest);
            }
            i += 1;
        }
    }
    out.append(hay.substring_char(i, n));
    proof {
        assert(hay@.subrange(i as int, n as int).len() < np);
        assert(replace_seq(hay@.subrange(i as int, n as int), needle@, repl@) == hay@.subrange(
            i as int,
            n as int,
        ));
    }
    out
}

/// The text after the last occurrence of `c`, or the whole text when `c`
/// does not occur.
pub open spec fn after_last(s: Seq<char>, c: char) -> Seq<char>
    decreases s.len(),
{
    if s.len() == 0 {
        s
    } else if s.last() == c {
        Seq::empty()
    } else {
        after_last(s.drop_last(), c).push(s.last())
    }
}

/// The name after the last `:`, the convention for qualified identifiers
/// such as `law:x` or `c:SWE`.
pub fn after_last_colon(s: &str) -> (r: String)
    ensures
        r@ == after_last(s@, ':'),
{
    let n = s.unicode_len();
    let mut start: usize = 0;
    let mut j: usize = 0;
    while j < n
        invariant
            n == s@.len(),
            j <= n,
            start <= j,
            start > 0 ==> s@[start - 1] == ':',
            forall|t: int| start <= t < j ==> s@[t] != ':',
        decreases n - j,
    {
        if s.get_char(j) == ':' {
            start = j + 1;
        }
        j += 1;
    }
    let r = String::from_str(s.substring_char(start, n));
    proof {
        lemma_after_last_suffix(s@, ':', start as int);
    }
    r
}

proof fn lemma_after_last_suffix(s: Seq<char>, c: char, start: int)
    requires
        0 <= start <= s.len(),
        start > 0 ==> s[start - 1] == c,
        forall|t: int| start <= t < s.len() ==> s[t] != c,
        start == 0 ==> forall|t: int| 0 <= t < s.len() ==> s[t] != c,
    ensures
        after_last(s, c) == s.subrange(start, s.len() as int),
    decreases s.len(),
{
    if s.len() == 0 {
        assert(s.subrange(0, 0) =~= s);
    } else if s.last() == c {
        assert(start == s.len());
        assert(s.subrange(start, s.len() as int) =~= Seq::<char>::empty());
    } else {
        assert(start < s.len());
        let d = s.drop_last();
        assert(forall|t: int| start <= t < d.len() ==> d[t] == s[t]);
        lemma_after_last_suffix(d, c, start);
        assert(d.subrange(start, d.len() as int).push(s.last()) =~= s.subrange(
            start,
            s.len() as int,
        ));
    }
}

// ---------------------------------------------------------------------------
// Decimal integers.
// ---------------------------------------------------------------------------
pub open spec fn is_digit(c: char) -> bool {
    0x30 <= c as u32 && c as u32 <= 0x39
}

pub open spec fn all_digits(s: Seq<char>) -> bool {
    forall|i: int| 0 <= i < s.len() ==> is_digit(#[trigger] s[i])
}

/// The value of a run of decimal digits.
pub open spec fn digits_val(s: Seq<char>) -> int
    decreases s.len(),
{
    if s.len() == 0 {
        0
    } else {
        digits_val(s.drop_last()) * 10 + (s.last() as u32 - 0x30)
    }
}

/// The integer a string denotes: an optional leading `-` followed by at
/// least one decimal digit; anything else denotes nothing.
pub open spec fn int_of_str(s: Seq<char>) -> Option<int> {
    if s.len() > 0 && s[0] == '-' {
        let d = s.subrange(1, s.len() as int);
        if d.len() > 0 && all_digits(d) {
            Some(-digits_val(d))
        } else {
            None
        }
    } else if s.len() > 0 && all_digits(s) {
        Some(digits_val(s))
    } else {
        None
    }
}

pub open spec fn pow10(k: nat) -> int
    decreases k,
{
    if k == 0 {
        1
    } else {
        10 * pow10((k - 1) as nat)
    }
}

proof fn lemma_digits_val_bound(s: Seq<char>)
    requires
        all_digits(s),
    ensures
        0 <= digits_val(s) < pow10(s.len()),
    decreases s.len(),
{
    if s.len() > 0 {
        assert(all_digits(s.drop_last())) by {
            assert(forall|i: int| 0 <= i < s.len() - 1 ==> s.drop_last()[i] == s[i]);
        }
        lemma_digits_val_bound(s.drop_last());
        assert(is_digit(s.last()));
    }
}

proof fn lemma_digits_val_lower(s: Seq<char>)
    requires
        all_digits(s),
        s.len() > 0,
        s[0] as u32 != 0x30,
    ensures
        digits_val(s) >= pow10((s.len() - 1) as nat),
    decreases s.len(),
{
    if s.len() == 1 {
        assert(is_digit(s[0]));
        assert(s.drop_last() =~= Seq::<char>::empty());
        assert(digits_val(Seq::<char>::empty()) == 0);
        assert(s.last() == s[0]);
    } else {
        assert(all_digits(s.drop_last())) by {
            assert(forall|i: int| 0 <= i < s.len() - 1 ==> s.drop_last()[i] == s[i]);
        }
        lemma_digits_val_lower(s.drop_last());
        assert(is_digit(s.last()));
    }
}

proof fn lemma_digits_strip_zero(s: Seq<char>)
    requires
        all_digits(s),
        s.len() > 0,
        s[0] as u32 == 0x30,
    ensures
        digits_val(s) == digits_val(s.drop_first()),
    decreases s.len(),
{
    if s.len() == 1 {
        assert(s.drop_first() =~= Seq::<char>::empty());
        assert(s.drop_last() =~= Seq::<char>::empty());
        assert(s.last() as u32 == 0x30);
    } else {
        assert(all_digits(s.drop_last())) by {
            assert(forall|i: int| 0 <= i < s.len() - 1 ==> s.drop_last()[i] == s[i]);
        }
        lemma_digits_strip_zero(s.drop_last());
        assert(s.drop_last().drop_first() =~= s.drop_first().drop_last());
        assert(s.drop_first().last() == s.last());
    }
}

/// Read a decimal integer, rejecting anything that is not an optionally
/// negated digit run or that does not fit the machine integer.
pub fn parse_i32(s: &str) -> (r: Option<i32>)
    ensures
        match int_of_str(s@) {
            Some(v) => if i32::MIN <= v <= i32::MAX {
                r == Some(v as i32)
            } else {
                r is None
            },
            None => r is None,
        },
{
    let n = s.unicode_len();
    if n == 0 {
        return None;
    }
    let neg = s.get_char(0) == '-';
    let start: usize = if neg {
        1
    } else {
        0
    };
    if start >= n {
        return None;
    }
    let ghost d = s@.subrange(start as int, n as int);
    let mut j: usize = start;
    while j < n
        invariant
            n == s@.len(),
            start <= j <= n,
            start < n,
            neg == (s@[0] == '-'),
            start == (if neg { 1int } else { 0int }),
            d == s@.subrange(start as int, n as int),
            forall|t: int| start <= t < j ==> is_digit(#[trigger] s@[t]),
        decreases n - j,
    {
        let u = s.get_char(j) as u32;
        if u < 0x30 || u > 0x39 {
            proof {
                assert(d[j - start] == s@[j as int]);
                assert(!all_digits(d));
                if !neg {
                    assert(d =~= s@);
                }
            }
            return None;
        }
        j += 1;
    }
    proof {
        assert(all_digits(d)) by {
            assert(forall|t: int| 0 <= t < d.len() ==> d[t] == s@[t + start]);
        }
    }
    // Skip leading zeros so the digit count bounds the value.
    let mut z: usize = start;
    while z < n && s.get_char(z) as u32 == 0x30
        invariant
            n == s@.len(),
            start <= z <= n,
            start < n,
            neg == (s@[0] == '-'),
            start == (if neg { 1int } else { 0int }),
            d == s@.subrange(start as int, n as int),
            all_digits(d),
            digits_val(d) == digits_val(s@.subrange(z as int, n as int)),
        decreases n - z,
    {
        proof {
            let cur = s@.subrange(z as int, n as int);
            assert(all_digits(cur)) by {
                assert(forall|t: int| 0 <= t < cur.len() ==> cur[t] == d[t + (z - start)]);
            }
            assert(cur[0] as u32 == 0x30);
            lemma_digits_strip_zero(cur);
            assert(cur.drop_first() =~= s@.subrange(z + 1, n as int));
        }
        z += 1;
    }
    let ghost eff = s@.subrange(z as int, n as int);
    proof {
        assert(all_digits(eff)) by {
            assert(forall|t: int| 0 <= t < eff.len() ==> eff[t] == d[t + (z - start)]);
        }
    }
    if n - z > 10 {
        proof {
            assert(eff[0] == s@[z as int]);
            assert(eff[0] as u32 != 0x30);
            lemma_digits_val_lower(eff);
            assert(pow10((eff.len() - 1) as nat) >= pow10(10)) by {
                lemma_pow10_mono(10, (eff.len() - 1) as nat);
            }
            assert(pow10(10) == 10000000000) by {
                reveal_with_fuel(pow10, 11);
            }
            assert(digits_val(eff) >= 10000000000);
            assert(digits_val(d) == digits_val(eff));
            if neg {
                assert(int_of_str(s@) == Some(-digits_val(d)));
            } else {
                assert(d =~= s@);
                assert(int_of_str(s@) == Some(digits_val(s@)));
            }
        }
        return None;
    }
    let mut acc: i64 = 0;
    let mut t: usize = z;
    proof {
        assert(eff.subrange(0, 0) =~= Seq::<char>::empty());
        assert(pow10(10) == 10000000000) by {
            reveal_with_fuel(pow10, 11);
        }
    }
    while t < n
        invariant
            n == s@.len(),
            z <= t <= n,
            n - z <= 10,
            start <= z,
            start < n,
            neg == (s@[0] == '-'),
            start == (if neg { 1int } else { 0int }),
            d == s@.subrange(start as int, n as int),
            all_digits(d),
            digits_val(d) == digits_val(eff),
            eff == s@.subrange(z as int, n as int),
            all_digits(eff),
            acc == digits_val(eff.subrange(0, t - z)),
            0 <= acc < pow10((t - z) as nat),
            pow10((t - z) as nat) <= pow10(10),
            pow10(10) == 10000000000,
        decreases n - t,
    {
        let ghost pre = eff.subrange(0, t - z);
        proof {
            assert(eff.subrange(0, t - z + 1).drop_last() =~= pre);
            assert(eff.subrange(0, t - z + 1).last() == eff[t - z]);
            assert(eff[t - z] == s@[t as int]);
            assert(is_digit(eff[t - z]));
            lemma_pow10_mono((t - z + 1) as nat, 10);
        }
        let u = s.get_char(t) as u32;
        let dig = (u - 0x30) as i64;
        acc = acc * 10 + dig;
        t += 1;
    }
    proof {
        assert(eff.subrange(0, n - z) =~= eff);
        assert(acc == digits_val(eff));
        assert(digits_val(d) == digits_val(eff));
    }
    if neg {
        proof {
            assert(s@[0] == '-');
            assert(d.len() > 0);
            assert(int_of_str(s@) == Some(-digits_val(d)));
        }
        if acc <= 2147483648i64 {
            let v = (-acc) as i32;
            Some(v)
        } else {
            None
        }
    } else {
        proof {
            assert(s@[0] != '-');
            assert(d =~= s@);
            assert(int_of_str(s@) == Some(digits_val(s@)));
        }
        if acc <= 2147483647i64 {
            Some(acc as i32)
        } else {
            None
        }
    }
}

proof fn lemma_pow10_pos(k: nat)
    ensures
        pow10(k) >= 1,
    decreases k,
{
    if k > 0 {
        lemma_pow10_pos((k - 1) as nat);
    }
}

proof fn lemma_pow10_mono(a: nat, b: nat)
    requires
        a <= b,
    ensures
        pow10(a) <= pow10(b),
        pow10(a) >= 1,
    decreases b,
{
    lemma_pow10_pos(a);
    if a < b {
        lemma_pow10_mono(a, (b - 1) as nat);
        lemma_pow10_pos((b - 1) as nat);
        assert(pow10(b) == 10 * pow10((b - 1) as nat));
    }
}

pub fn contains_str(hay: &str, needle: &str) -> (r: bool)
    ensures
        r == has_substring(hay@, needle@),
{
    let n = hay.unicode_len();
    let np = needle.unicode_len();
    if np == 0 {
        proof {
            assert(has_substring(hay@, needle@)) by {
                assert(0 + needle@.len() <= hay@.len());
                assert(hay@.subrange(0, 0 + needle@.len() as int) =~= needle@);
            }
        }
        return true;
    }
    if np > n {
        proof {
            if has_substring(hay@, needle@) {
                let k = choose|k: int|
                    0 <= k && k + needle@.len() <= hay@.len() && (#[trigger] hay@.subrange(
                        k,
                        k + needle@.len() as int,
                    )) == needle@;
                assert(false);
            }
        }
        return false;
    }
    let mut i: usize = 0;
    while i <= n - np
        invariant
            n == hay@.len(),
            np == needle@.len(),
            0 < np <= n,
            i <= n - np + 1,
            forall|k: int| 0 <= k < i ==> !matches_at(hay@, needle@, k),
        decreases n - np + 1 - i,
    {
        if matches_at_exec(hay, needle, i) {
            return true;
        }
        i += 1;
    }
    proof {
        if has_substring(hay@, needle@) {
            let k = choose|k: int|
                0 <= k && k + needle@.len() <= hay@.len() && (#[trigger] hay@.subrange(
                    k,
                    k + needle@.len() as int,
                )) == needle@;
            assert(matches_at(hay@, needle@, k));
            assert(false);
        }
    }
    false
}

} // verus!
