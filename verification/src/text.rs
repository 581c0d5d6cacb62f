//! Character-level helpers shared by the annotation grammar, the cache
//! codec and the formatters: searching, splitting, decimal digits.

use vstd::prelude::*;
use vstd::string::*;

verus! {

/// Index of the first occurrence of the two-character separator `::`
/// in `s` at or after position `i`.
pub open spec fn spec_find2(s: Seq<char>, i: int) -> Option<int>
    decreases s.len() - i when 0 <= i
{
    if i + 2 > s.len() {
        None
    } else if s[i] == ':' && s[i + 1] == ':' {
        Some(i)
    } else {
        spec_find2(s, i + 1)
    }
}

/// Index of the first occurrence of `c` in `s` at or after position `i`.
pub open spec fn spec_find_char(s: Seq<char>, c: char, i: int) -> Option<int>
    decreases s.len() - i when 0 <= i
{
    if i >= s.len() {
        None
    } else if s[i] == c {
        Some(i)
    } else {
        spec_find_char(s, c, i + 1)
    }
}

/// Find the first `::` in `s` at or after `from`.
pub fn find_sep(s: &str, from: usize) -> (r: Option<usize>)
    ensures
        match r {
            Some(i) => spec_find2(s@, from as int) == Some(i as int),
            None => spec_find2(s@, from as int) is None,
        },
{
    let n = s.unicode_len();
    if n < 2 || from > n - 2 {
        return None;
    }
    let mut i = from;
    while i <= n - 2
        invariant
            n == s@.len(),
            2 <= n,
            from <= i <= n - 1,
            spec_find2(s@, from as int) == spec_find2(s@, i as int),
        decreases n - i,
    {
        if s.get_char(i) == ':' && s.get_char(i + 1) == ':' {
            return Some(i);
        }
        i = i + 1;
    }
    None
}

/// Find the first `c` in `s` at or after `from`.
pub fn find_char(s: &str, c: char, from: usize) -> (r: Option<usize>)
    ensures
        match r {
            Some(i) => spec_find_char(s@, c, from as int) == Some(i as int),
            None => spec_find_char(s@, c, from as int) is None,
        },
{
    let n = s.unicode_len();
    let mut i = from;
    while i < n
        invariant
            n == s@.len(),
            from <= i,
            spec_find_char(s@, c, from as int) == spec_find_char(s@, c, i as int),
        decreases n - i,
    {
        if s.get_char(i) == c {
            return Some(i);
        }
        i = i + 1;
    }
    None
}

/// Character-for-character equality of two string slices.
pub fn str_eq(a: &str, b: &str) -> (r: bool)
    ensures
        r == (a@ == b@),
{
    let n = a.unicode_len();
    if n != b.unicode_len() {
        return false;
    }
    let mut i: usize = 0;
    while i < n
        invariant
            n == a@.len(),
            n == b@.len(),
            i <= n,
            forall|k: int| 0 <= k < i ==> a@[k] == b@[k],
        decreases n - i,
    {
        if a.get_char(i) != b.get_char(i) {
            assert(a@[i as int] != b@[i as int]);
            return false;
        }
        i = i + 1;
    }
    assert(a@ =~= b@);
    true
}

/// Where `spec_find2` answers, a `::` stands there and nowhere earlier.
pub proof fn lemma_find2_props(s: Seq<char>, i: int)
    requires
        0 <= i,
    ensures
        match spec_find2(s, i) {
            Some(j) => i <= j && j + 2 <= s.len() && s[j] == ':' && s[j + 1] == ':',
            None => true,
        },
    decreases s.len() - i,
{
    if i + 2 <= s.len() && !(s[i] == ':' && s[i + 1] == ':') {
        lemma_find2_props(s, i + 1);
    }
}

/// Where `spec_find_char` answers, `c` stands there.
pub proof fn lemma_find_char_props(s: Seq<char>, c: char, i: int)
    requires
        0 <= i,
    ensures
        match spec_find_char(s, c, i) {
            Some(j) => i <= j < s.len() && s[j] == c,
            None => true,
        },
    decreases s.len() - i,
{
    if i < s.len() && s[i] != c {
        lemma_find_char_props(s, c, i + 1);
    }
}

/// Where a `::` stands and none stands earlier, the search finds it.
pub proof fn lemma_find2_first(s: Seq<char>, i: int, p: int)
    requires
        0 <= i <= p,
        p + 2 <= s.len(),
        s[p] == ':' && s[p + 1] == ':',
        forall|k: int| i <= k < p ==> !(#[trigger] s[k] == ':' && s[k + 1] == ':'),
    ensures
        spec_find2(s, i) == Some(p),
    decreases p - i,
{
    if i < p {
        lemma_find2_first(s, i + 1, p);
    }
}

/// Where `c` stands and none stands earlier, the search finds it.
pub proof fn lemma_find_char_first(s: Seq<char>, c: char, i: int, p: int)
    requires
        0 <= i <= p < s.len(),
        s[p] == c,
        forall|k: int| i <= k < p ==> #[trigger] s[k] != c,
    ensures
        spec_find_char(s, c, i) == Some(p),
    decreases p - i,
{
    if i < p {
        lemma_find_char_first(s, c, i + 1, p);
    }
}

/// Fields of `s` separated by `sep`, with `cur` the field accumulated so
/// far: scanning from the left, a separator closes the current field.
pub open spec fn spec_split_acc(s: Seq<char>, sep: char, cur: Seq<char>) -> Seq<Seq<char>>
    decreases s.len()
{
    if s.len() == 0 {
        seq![cur]
    } else if s[0] == sep {
        seq![cur] + spec_split_acc(s.subrange(1, s.len() as int), sep, Seq::empty())
    } else {
        spec_split_acc(s.subrange(1, s.len() as int), sep, cur.push(s[0]))
    }
}

/// Fields of `s` separated by `sep`; always at least one field.
pub open spec fn spec_split(s: Seq<char>, sep: char) -> Seq<Seq<char>> {
    spec_split_acc(s, sep, Seq::empty())
}

/// Split `s` into its `sep`-separated fields.
pub fn split_char(s: &str, sep: char) -> (r: Vec<String>)
    ensures
        r.deep_view() == spec_split(s@, sep),
{
    let n = s.unicode_len();
    let mut out: Vec<String> = Vec::new();
    let mut cur = String::new();
    let mut i: usize = 0;
    proof {
        assert(s@.subrange(0, n as int) =~= s@);
        assert(out.deep_view() + spec_split_acc(s@, sep, cur@) =~= spec_split_acc(
            s@,
            sep,
            Seq::empty(),
        ));
    }
    while i < n
        invariant
            n == s@.len(),
            i <= n,
            spec_split(s@, sep) == out.deep_view() + spec_split_acc(
                s@.subrange(i as int, n as int),
                sep,
                cur@,
            ),
        decreases n - i,
    {
        let ghost rem = s@.subrange(i as int, n as int);
        let ghost old_dv = out.deep_view();
        let ghost old_cur = cur@;
        proof {
            assert(rem[0] == s@[i as int]);
            assert(rem.subrange(1, rem.len() as int) =~= s@.subrange(i as int + 1, n as int));
        }
        let c = s.get_char(i);
        if c == sep {
            out.push(cur);
            cur = String::new();
            proof {
                assert(out.deep_view() =~= old_dv.push(old_cur));
                assert(old_dv.push(old_cur) + spec_split_acc(
                    s@.subrange(i as int + 1, n as int),
                    sep,
                    Seq::empty(),
                ) =~= old_dv + spec_split_acc(rem, sep, old_cur));
            }
        } else {
            push_char(&mut cur, c);
        }
        i = i + 1;
    }
    let ghost old_dv = out.deep_view();
    let ghost old_cur = cur@;
    proof {
        assert(s@.subrange(n as int, n as int) =~= Seq::<char>::empty());
    }
    out.push(cur);
    proof {
        assert(out.deep_view() =~= old_dv.push(old_cur));
        assert(old_dv.push(old_cur) =~= old_dv + seq![old_cur]);
    }
    out
}

/// Split `s` at the first `c` into the parts before and after it.
pub open spec fn spec_split_once(s: Seq<char>, c: char) -> Option<(Seq<char>, Seq<char>)> {
    match spec_find_char(s, c, 0) {
        Some(i) => Some((s.subrange(0, i), s.subrange(i + 1, s.len() as int))),
        None => None,
    }
}

/// Split `s` at the first `c`; `None` when `c` does not occur.
pub fn split_once_char(s: &str, c: char) -> (r: Option<(String, String)>)
    ensures
        match r {
            Some(kv) => spec_split_once(s@, c) == Some((kv.0@, kv.1@)),
            None => spec_split_once(s@, c) is None,
        },
{
    let n = s.unicode_len();
    match find_char(s, c, 0) {
        None => None,
        Some(i) => {
            proof {
                lemma_find_char_props(s@, c, 0);
            }
            let left = s.substring_char(0, i);
            let right = s.substring_char(i + 1, n);
            Some((left.to_owned(), right.to_owned()))
        },
    }
}

/// `lit` occurs in `s` starting exactly at position `i`.
pub open spec fn lit_at(s: Seq<char>, i: int, lit: Seq<char>) -> bool {
    0 <= i && i + lit.len() <= s.len() && s.subrange(i, i + lit.len()) == lit
}

/// Whether `lit` occurs in `s` at position `i`.
pub fn starts_with_at(s: &str, i: usize, lit: &str) -> (r: bool)
    ensures
        r == lit_at(s@, i as int, lit@),
{
    let n = s.unicode_len();
    let m = lit.unicode_len();
    if i > n || m > n - i {
        return false;
    }
    let mut k: usize = 0;
    while k < m
        invariant
            n == s@.len(),
            m == lit@.len(),
            i + m <= n,
            k <= m,
            forall|j: int| 0 <= j < k ==> s@[i + j] == lit@[j],
        decreases m - k,
    {
        if s.get_char(i + k) != lit.get_char(k) {
            assert(s@.subrange(i as int, i + m) != lit@) by {
                if s@.subrange(i as int, i + m) == lit@ {
                    assert(s@.subrange(i as int, i + m)[k as int] == s@[i + k]);
                }
            }
            return false;
        }
        k = k + 1;
    }
    assert(s@.subrange(i as int, i + m) =~= lit@);
    true
}

/// Relies on std's `String::push`: appends exactly one character.
#[verifier::external_body]
pub fn push_char(s: &mut String, c: char)
    ensures
        final(s)@ == old(s)@.push(c),
{
    s.push(c);
}

pub open spec fn is_digit(c: char) -> bool {
    '0' <= c && c <= '9'
}

pub open spec fn digit_val(c: char) -> nat {
    (c as nat - '0' as nat) as nat
}

pub open spec fn all_digits(s: Seq<char>) -> bool {
    forall|i: int| 0 <= i < s.len() ==> is_digit(#[trigger] s[i])
}

/// Value of a sequence of decimal digits, most significant first.
pub open spec fn digits_val(s: Seq<char>) -> nat
    decreases s.len()
{
    if s.len() == 0 {
        0
    } else {
        digits_val(s.drop_last()) * 10 + digit_val(s.last())
    }
}

pub open spec fn spec_digit(d: nat) -> char {
    if d == 0 { '0' }
    else if d == 1 { '1' }
    else if d == 2 { '2' }
    else if d == 3 { '3' }
    else if d == 4 { '4' }
    else if d == 5 { '5' }
    else if d == 6 { '6' }
    else if d == 7 { '7' }
    else if d == 8 { '8' }
    else { '9' }
}

/// Decimal notation of `n`, without sign or leading zeros.
pub open spec fn spec_dec(n: nat) -> Seq<char>
    decreases n
{
    if n < 10 {
        seq![spec_digit(n)]
    } else {
        spec_dec(n / 10).push(spec_digit(n % 10))
    }
}

/// Every character of a decimal rendering is a digit.
pub proof fn lemma_dec_all_digits(n: nat)
    ensures
        all_digits(spec_dec(n)),
        spec_dec(n).len() >= 1,
    decreases n,
{
    if n >= 10 {
        lemma_dec_all_digits(n / 10);
    }
}

/// The digit character of `d` reads back as `d`.
pub proof fn lemma_digit_val(d: nat)
    requires
        d < 10,
    ensures
        digit_val(spec_digit(d)) == d,
        is_digit(spec_digit(d)),
{
}

/// Reading back the decimal rendering of `n` gives `n`.
pub proof fn lemma_dec_val(n: nat)
    ensures
        digits_val(spec_dec(n)) == n,
    decreases n,
{
    if n < 10 {
        lemma_digit_val(n);
        assert(spec_dec(n).drop_last() =~= Seq::<char>::empty());
        assert(spec_dec(n).last() == spec_digit(n));
        assert(digits_val(spec_dec(n)) == digits_val(spec_dec(n).drop_last()) * 10 + digit_val(
            spec_dec(n).last(),
        ));
    } else {
        lemma_dec_val(n / 10);
        lemma_digit_val(n % 10);
        assert(spec_dec(n).drop_last() =~= spec_dec(n / 10));
    }
}

fn digit_char(d: usize) -> (c: char)
    requires
        d < 10,
    ensures
        c == spec_digit(d as nat),
{
    match d {
        0 => '0',
        1 => '1',
        2 => '2',
        3 => '3',
        4 => '4',
        5 => '5',
        6 => '6',
        7 => '7',
        8 => '8',
        _ => '9',
    }
}

fn dec_rec(n: usize, out: &mut String)
    ensures
        final(out)@ == old(out)@ + spec_dec(n as nat),
    decreases n,
{
    if n >= 10 {
        dec_rec(n / 10, out);
    }
    push_char(out, digit_char(n % 10));
    assert(final(out)@ =~= old(out)@ + spec_dec(n as nat));
}

/// Render `n` in decimal.
pub fn usize_to_string(n: usize) -> (r: String)
    ensures
        r@ == spec_dec(n as nat),
{
    let mut out = String::new();
    dec_rec(n, &mut out);
    assert(out@ =~= spec_dec(n as nat));
    out
}

fn dec_rec_u64(n: u64, out: &mut String)
    ensures
        final(out)@ == old(out)@ + spec_dec(n as nat),
    decreases n,
{
    if n >= 10 {
        dec_rec_u64(n / 10, out);
    }
    let d: usize = (n % 10) as usize;
    push_char(out, digit_char(d));
    assert(final(out)@ =~= old(out)@ + spec_dec(n as nat));
}

/// Render `n` in decimal.
pub fn u64_to_string(n: u64) -> (r: String)
    ensures
        r@ == spec_dec(n as nat),
{
    let mut out = String::new();
    dec_rec_u64(n, &mut out);
    assert(out@ =~= spec_dec(n as nat));
    out
}

/// A non-empty all-digit string whose value fits in `usize`.
pub open spec fn is_valid_usize_str(s: Seq<char>) -> bool {
    s.len() > 0 && all_digits(s) && digits_val(s) <= usize::MAX
}

/// Extending a digit string on the right never decreases its value.
pub proof fn lemma_digits_val_mono(s: Seq<char>, j: int, k: int)
    requires
        0 <= j <= k <= s.len(),
    ensures
        digits_val(s.subrange(0, k)) >= digits_val(s.subrange(0, j)),
    decreases k - j,
{
    if j < k {
        lemma_digits_val_mono(s, j, k - 1);
        assert(s.subrange(0, k).drop_last() =~= s.subrange(0, k - 1));
    }
}

/// Parse a decimal `usize`; `None` on an empty string, a non-digit, or
/// a value over `usize::MAX`.
pub fn parse_usize(s: &str) -> (r: Option<usize>)
    ensures
        r is Some <==> is_valid_usize_str(s@),
        r is Some ==> r.unwrap() as nat == digits_val(s@),
{
    let n = s.unicode_len();
    if n == 0 {
        return None;
    }
    let mut val: usize = 0;
    let mut i: usize = 0;
    while i < n
        invariant
            n == s@.len(),
            i <= n,
            all_digits(s@.subrange(0, i as int)),
            val as nat == digits_val(s@.subrange(0, i as int)),
        decreases n - i,
    {
        let c = s.get_char(i);
        if c < '0' || c > '9' {
            assert(!all_digits(s@));
            return None;
        }
        let d: usize = (c as usize) - ('0' as usize);
        assert(d == digit_val(c));
        let shifted = match val.checked_mul(10) {
            Some(v) => v,
            None => {
                proof {
                    overflow_means_invalid(s@, i as int);
                }
                return None;
            },
        };
        let next = match shifted.checked_add(d) {
            Some(v) => v,
            None => {
                proof {
                    overflow_means_invalid(s@, i as int);
                }
                return None;
            },
        };
        val = next;
        i = i + 1;
        assert(s@.subrange(0, i as int).drop_last() =~= s@.subrange(0, i - 1));
    }
    assert(s@.subrange(0, n as int) =~= s@);
    Some(val)
}

/// If the value of some digit prefix already exceeds `usize::MAX`, the
/// whole string is not a valid `usize` rendering.
proof fn overflow_means_invalid(s: Seq<char>, i: int)
    requires
        0 <= i < s.len(),
        is_digit(s[i]),
        digits_val(s.subrange(0, i)) * 10 + digit_val(s[i]) > usize::MAX,
    ensures
        !is_valid_usize_str(s),
{
    if all_digits(s) {
        lemma_digits_val_mono(s, i + 1, s.len() as int);
        assert(s.subrange(0, i + 1).drop_last() =~= s.subrange(0, i));
        assert(s.subrange(0, s.len() as int) =~= s);
        assert(digits_val(s.subrange(0, i + 1)) > usize::MAX);
    }
}

} // verus!
