//! Character and string helpers shared by the rest of the library: whitespace,
//! trimming, splitting, line handling and decimal numbers.
use vstd::prelude::*;

verus! {

/// `String::push` appends one character at the end.
pub assume_specification[ String::push ](s: &mut String, ch: char)
    ensures
        final(s)@ == old(s)@.push(ch),
;

/// Unicode `White_Space`, the property that `char::is_whitespace`,
/// `str::trim` and `str::split_whitespace` use.
pub open spec fn is_ws(c: char) -> bool {
    let u = c as u32;
    ||| 0x09 <= u <= 0x0d
    ||| u == 0x20
    ||| u == 0x85
    ||| u == 0xa0
    ||| u == 0x1680
    ||| 0x2000 <= u <= 0x200a
    ||| u == 0x2028
    ||| u == 0x2029
    ||| u == 0x202f
    ||| u == 0x205f
    ||| u == 0x3000
}

pub open spec fn is_digit(c: char) -> bool {
    '0' <= c <= '9'
}

pub open spec fn digit_value(c: char) -> nat {
    (c as u32 - '0' as u32) as nat
}

pub fn is_whitespace(c: char) -> (b: bool)
    ensures
        b == is_ws(c),
{
    let u = c as u32;
    (0x09 <= u && u <= 0x0d) || u == 0x20 || u == 0x85 || u == 0xa0 || u == 0x1680 || (0x2000
        <= u && u <= 0x200a) || u == 0x2028 || u == 0x2029 || u == 0x202f || u == 0x205f || u
        == 0x3000
}

pub fn is_ascii_digit(c: char) -> (b: bool)
    ensures
        b == is_digit(c),
{
    '0' <= c && c <= '9'
}

/// The characters of `s`, in order.
pub fn chars_of(s: &str) -> (v: Vec<char>)
    ensures
        v@ == s@,
{
    let mut v: Vec<char> = Vec::new();
    for c in it: s.chars()
        invariant
            v@ == it.seq().take(it.index() as int),
    {
        v.push(c);
    }
    v
}

/// The string made of `v[lo..hi]`.
pub fn string_of_range(v: &Vec<char>, lo: usize, hi: usize) -> (s: String)
    requires
        lo <= hi <= v.len(),
    ensures
        s@ == v@.subrange(lo as int, hi as int),
{
    let mut s = String::new();
    let mut i: usize = lo;
    while i < hi
        invariant
            lo <= i <= hi <= v.len(),
            s@ == v@.subrange(lo as int, i as int),
        decreases hi - i,
    {
        s.push(v[i]);
        i += 1;
        assert(s@ == v@.subrange(lo as int, i as int));
    }
    s
}

/// The string whose characters are `v`.
pub fn string_of(v: &Vec<char>) -> (s: String)
    ensures
        s@ == v@,
{
    let s = string_of_range(v, 0, v.len());
    assert(v@.subrange(0, v@.len() as int) == v@);
    s
}

/// Appends every character of `t` to `s`.
pub fn push_all(s: &mut String, t: &str)
    ensures
        final(s)@ == old(s)@ + t@,
{
    let v = chars_of(t);
    let ghost start = s@;
    let mut i: usize = 0;
    while i < v.len()
        invariant
            i <= v.len(),
            v@ == t@,
            s@ == start + v@.take(i as int),
        decreases v.len() - i,
    {
        s.push(v[i]);
        i += 1;
        assert(v@.take(i as int) == v@.take(i - 1).push(v@[i - 1]));
    }
    assert(v@.take(v@.len() as int) == v@);
}

// ---------------------------------------------------------------------------
// Trimming
// ---------------------------------------------------------------------------

/// Number of leading whitespace characters.
pub open spec fn lead_ws(s: Seq<char>) -> nat
    decreases s.len(),
{
    if s.len() > 0 && is_ws(s[0]) {
        1 + lead_ws(s.drop_first())
    } else {
        0
    }
}

/// Number of trailing whitespace characters.
pub open spec fn trail_ws(s: Seq<char>) -> nat
    decreases s.len(),
{
    if s.len() > 0 && is_ws(s.last()) {
        1 + trail_ws(s.drop_last())
    } else {
        0
    }
}

pub open spec fn trim_start(s: Seq<char>) -> Seq<char> {
    s.skip(lead_ws(s) as int)
}

pub open spec fn trim_end(s: Seq<char>) -> Seq<char> {
    s.take(s.len() - trail_ws(s))
}

/// `str::trim`: leading and trailing whitespace removed.
pub open spec fn trim(s: Seq<char>) -> Seq<char> {
    trim_end(trim_start(s))
}

pub proof fn lemma_lead_ws(s: Seq<char>)
    ensures
        lead_ws(s) <= s.len(),
        forall|i: int| 0 <= i < lead_ws(s) ==> is_ws(#[trigger] s[i]),
        lead_ws(s) < s.len() ==> !is_ws(s[lead_ws(s) as int]),
    decreases s.len(),
{
    if s.len() > 0 && is_ws(s[0]) {
        lemma_lead_ws(s.drop_first());
        assert forall|i: int| 0 <= i < lead_ws(s) implies is_ws(#[trigger] s[i]) by {
            if i > 0 {
                assert(s[i] == s.drop_first()[i - 1]);
            }
        }
    }
}

pub proof fn lemma_trail_ws(s: Seq<char>)
    ensures
        trail_ws(s) <= s.len(),
        forall|i: int| s.len() - trail_ws(s) <= i < s.len() ==> is_ws(#[trigger] s[i]),
        trail_ws(s) < s.len() ==> !is_ws(s[s.len() - trail_ws(s) - 1]),
    decreases s.len(),
{
    if s.len() > 0 && is_ws(s.last()) {
        lemma_trail_ws(s.drop_last());
        assert forall|i: int| s.len() - trail_ws(s) <= i < s.len() implies is_ws(
            #[trigger] s[i],
        ) by {
            if i < s.len() - 1 {
                assert(s[i] == s.drop_last()[i]);
            }
        }
    }
}

/// A count of leading whitespace is determined by the first non-whitespace position.
pub proof fn lemma_lead_ws_unique(s: Seq<char>, k: int)
    requires
        0 <= k <= s.len(),
        forall|i: int| 0 <= i < k ==> is_ws(#[trigger] s[i]),
        k < s.len() ==> !is_ws(s[k]),
    ensures
        lead_ws(s) == k,
    decreases s.len(),
{
    if k > 0 {
        assert(is_ws(s[0]));
        assert forall|i: int| 0 <= i < k - 1 implies is_ws(#[trigger] s.drop_first()[i]) by {
            assert(s.drop_first()[i] == s[i + 1]);
        }
        lemma_lead_ws_unique(s.drop_first(), k - 1);
    }
}

pub proof fn lemma_trail_ws_unique(s: Seq<char>, k: int)
    requires
        0 <= k <= s.len(),
        forall|i: int| s.len() - k <= i < s.len() ==> is_ws(#[trigger] s[i]),
        k < s.len() ==> !is_ws(s[s.len() - k - 1]),
    ensures
        trail_ws(s) == k,
    decreases s.len(),
{
    if k > 0 {
        assert(is_ws(s[s.len() - 1]));
        assert forall|i: int| s.len() - 1 - (k - 1) <= i < s.len() - 1 implies is_ws(
            #[trigger] s.drop_last()[i],
        ) by {
            assert(s.drop_last()[i] == s[i]);
        }
        lemma_trail_ws_unique(s.drop_last(), k - 1);
    }
}

/// Bounds `(a, b)` within `lo..hi` such that `v[a..b]` is `v[lo..hi]` trimmed.
pub fn trim_range(v: &Vec<char>, lo: usize, hi: usize) -> (r: (usize, usize))
    requires
        lo <= hi <= v.len(),
    ensures
        lo <= r.0 <= r.1 <= hi,
        v@.subrange(r.0 as int, r.1 as int) == trim(v@.subrange(lo as int, hi as int)),
        r.0 == lo + lead_ws(v@.subrange(lo as int, hi as int)),
{
    let ghost s = v@.subrange(lo as int, hi as int);
    let mut a = lo;
    while a < hi && is_whitespace(v[a])
        invariant
            lo <= a <= hi <= v.len(),
            s == v@.subrange(lo as int, hi as int),
            forall|i: int| lo <= i < a ==> is_ws(#[trigger] v@[i]),
        decreases hi - a,
    {
        a += 1;
    }
    proof {
        assert forall|i: int| 0 <= i < a - lo implies is_ws(#[trigger] s[i]) by {
            assert(s[i] == v@[lo + i]);
        }
        lemma_lead_ws_unique(s, a - lo);
    }
    let ghost t = trim_start(s);
    assert(t == v@.subrange(a as int, hi as int));
    let mut b = hi;
    while b > a && is_whitespace(v[b - 1])
        invariant
            lo <= a <= b <= hi <= v.len(),
            forall|i: int| b <= i < hi ==> is_ws(#[trigger] v@[i]),
        decreases b - a,
    {
        b -= 1;
    }
    proof {
        assert forall|i: int| t.len() - (hi - b) <= i < t.len() implies is_ws(#[trigger] t[i]) by {
            assert(t[i] == v@[a + i]);
        }
        lemma_trail_ws_unique(t, hi - b);
        assert(trim_end(t) == v@.subrange(a as int, b as int));
    }
    (a, b)
}

/// `str::trim`.
pub fn trim_str(s: &str) -> (r: String)
    ensures
        r@ == trim(s@),
{
    let v = chars_of(s);
    let (a, b) = trim_range(&v, 0, v.len());
    assert(v@.subrange(0, v@.len() as int) == v@);
    string_of_range(&v, a, b)
}

// ---------------------------------------------------------------------------
// ASCII case
// ---------------------------------------------------------------------------

pub open spec fn ascii_lower(c: char) -> char {
    if 'A' <= c <= 'Z' {
        ((c as u32) + 32) as char
    } else {
        c
    }
}

/// `str::eq_ignore_ascii_case`.
pub open spec fn eq_ignore_ascii_case(a: Seq<char>, b: Seq<char>) -> bool {
    a.len() == b.len() && forall|i: int| 0 <= i < a.len() ==> ascii_lower(#[trigger] a[i])
        == ascii_lower(b[i])
}

pub fn to_ascii_lower(c: char) -> (r: char)
    ensures
        r == ascii_lower(c),
{
    if 'A' <= c && c <= 'Z' {
        let u = (c as u32) + 32;
        assert(0x61 <= u <= 0x7a);
        char_from_ascii(u)
    } else {
        c
    }
}

/// The character with an ASCII code.
pub fn char_from_ascii(u: u32) -> (c: char)
    requires
        u < 0x80,
    ensures
        c == u as char,
        c as u32 == u,
{
    let b = u as u8;
    b as char
}

pub fn chars_eq_ignore_ascii_case(a: &Vec<char>, alo: usize, ahi: usize, b: &str) -> (r: bool)
    requires
        alo <= ahi <= a.len(),
    ensures
        r == eq_ignore_ascii_case(a@.subrange(alo as int, ahi as int), b@),
{
    let bv = chars_of(b);
    if ahi - alo != bv.len() {
        return false;
    }
    let mut i: usize = 0;
    while i < bv.len()
        invariant
            alo <= ahi <= a.len(),
            ahi - alo == bv.len(),
            bv@ == b@,
            i <= bv.len(),
            forall|j: int| 0 <= j < i ==> ascii_lower(#[trigger] a@[alo + j]) == ascii_lower(bv@[j]),
        decreases bv.len() - i,
    {
        if to_ascii_lower(a[alo + i]) != to_ascii_lower(bv[i]) {
            assert(a@.subrange(alo as int, ahi as int)[i as int] == a@[alo + i]);
            return false;
        }
        i += 1;
    }
    assert forall|j: int| 0 <= j < bv@.len() implies ascii_lower(
        #[trigger] a@.subrange(alo as int, ahi as int)[j],
    ) == ascii_lower(b@[j]) by {
        assert(a@.subrange(alo as int, ahi as int)[j] == a@[alo + j]);
    }
    true
}

// ---------------------------------------------------------------------------
// Decimal numbers
// ---------------------------------------------------------------------------

/// Value of a sequence of decimal digits.
pub open spec fn decimal_value(s: Seq<char>) -> nat
    decreases s.len(),
{
    if s.len() == 0 {
        0
    } else {
        decimal_value(s.drop_last()) * 10 + digit_value(s.last())
    }
}

pub open spec fn all_digits(s: Seq<char>) -> bool {
    forall|i: int| 0 <= i < s.len() ==> is_digit(#[trigger] s[i])
}

/// The digits part of an unsigned number as `FromStr` reads it: an optional
/// leading `+`, then at least one ASCII digit and nothing else.
pub open spec fn unsigned_digits(s: Seq<char>) -> Seq<char> {
    if s.len() > 0 && s[0] == '+' {
        s.drop_first()
    } else {
        s
    }
}

/// What `str::parse::<u64>`, `<usize>` (with `max` the type's maximum) gives.
pub open spec fn parse_unsigned(s: Seq<char>, max: nat) -> Option<nat> {
    let d = unsigned_digits(s);
    if d.len() > 0 && all_digits(d) && decimal_value(d) <= max {
        Some(decimal_value(d))
    } else {
        None
    }
}

pub proof fn lemma_decimal_value_prefix_le(s: Seq<char>, i: int)
    requires
        0 <= i <= s.len(),
    ensures
        decimal_value(s.take(i)) <= decimal_value(s),
    decreases s.len() - i,
{
    if i < s.len() {
        lemma_decimal_value_prefix_le(s, i + 1);
        assert(s.take(i + 1).drop_last() == s.take(i));
    } else {
        assert(s.take(i) == s);
    }
}

/// Reads the digits `v[lo..hi]` as a `u64`; `None` when one is not a digit
/// or the value does not fit.
pub fn parse_digits_u64(v: &Vec<char>, lo: usize, hi: usize) -> (r: Option<u64>)
    requires
        lo <= hi <= v.len(),
    ensures
        ({
            let d = v@.subrange(lo as int, hi as int);
            r == (if all_digits(d) && decimal_value(d) <= u64::MAX {
                Some(decimal_value(d) as u64)
            } else {
                None
            })
        }),
{
    let ghost d = v@.subrange(lo as int, hi as int);
    let mut acc: u64 = 0;
    let mut i = lo;
    while i < hi
        invariant
            lo <= i <= hi <= v.len(),
            d == v@.subrange(lo as int, hi as int),
            all_digits(d.take(i - lo)),
            acc == decimal_value(d.take(i - lo)),
        decreases hi - i,
    {
        let c = v[i];
        assert(d[i - lo] == c);
        assert(d.take(i - lo + 1).drop_last() == d.take(i - lo));
        if !is_ascii_digit(c) {
            assert(!all_digits(d));
            return None;
        }
        let dv = (c as u32 - '0' as u32) as u64;
        match acc.checked_mul(10) {
            Some(m) => match m.checked_add(dv) {
                Some(n) => {
                    acc = n;
                },
                None => {
                    proof {
                        lemma_decimal_value_prefix_le(d, i - lo + 1);
                    }
                    return None;
                },
            },
            None => {
                proof {
                    lemma_decimal_value_prefix_le(d, i - lo + 1);
                }
                return None;
            },
        }
        i += 1;
        assert(all_digits(d.take(i - lo))) by {
            assert forall|j: int| 0 <= j < i - lo implies is_digit(#[trigger] d.take(i - lo)[j]) by {
                if j < i - lo - 1 {
                    assert(d.take(i - lo)[j] == d.take(i - lo - 1)[j]);
                }
            }
        }
    }
    assert(d.take(hi - lo) == d);
    Some(acc)
}

/// `str::parse::<u64>` of `v[lo..hi]`.
pub fn parse_u64_range(v: &Vec<char>, lo: usize, hi: usize) -> (r: Option<u64>)
    requires
        lo <= hi <= v.len(),
    ensures
        r matches Some(n) ==> parse_unsigned(v@.subrange(lo as int, hi as int), u64::MAX as nat)
            == Some(n as nat),
        r is None ==> parse_unsigned(v@.subrange(lo as int, hi as int), u64::MAX as nat) is None,
{
    let ghost s = v@.subrange(lo as int, hi as int);
    let start = if lo < hi && v[lo] == '+' {
        lo + 1
    } else {
        lo
    };
    assert(unsigned_digits(s) == v@.subrange(start as int, hi as int));
    if start == hi {
        return None;
    }
    parse_digits_u64(v, start, hi)
}

/// `str::parse::<usize>` of `v[lo..hi]`.
pub fn parse_usize_range(v: &Vec<char>, lo: usize, hi: usize) -> (r: Option<usize>)
    requires
        lo <= hi <= v.len(),
    ensures
        r matches Some(n) ==> parse_unsigned(v@.subrange(lo as int, hi as int), usize::MAX as nat)
            == Some(n as nat),
        r is None ==> parse_unsigned(v@.subrange(lo as int, hi as int), usize::MAX as nat) is None,
{
    match parse_u64_range(v, lo, hi) {
        Some(n) => {
            if n <= usize::MAX as u64 {
                Some(n as usize)
            } else {
                None
            }
        },
        None => {
            proof {
                let d = unsigned_digits(v@.subrange(lo as int, hi as int));
                assert(usize::MAX <= u64::MAX);
            }
            None
        },
    }
}

/// Decimal digits of `n`, most significant first, without leading zeros.
pub open spec fn decimal_digits(n: nat) -> Seq<char>
    decreases n,
{
    if n < 10 {
        seq![digit_char(n)]
    } else {
        decimal_digits(n / 10).push(digit_char(n % 10))
    }
}

pub open spec fn digit_char(d: nat) -> char {
    (('0' as u32) + d) as char
}

/// `n` written in decimal, as `Display` writes it.
pub fn u64_to_string(n: u64) -> (s: String)
    ensures
        s@ == decimal_digits(n as nat),
{
    let mut rev: Vec<char> = Vec::new();
    let mut m = n;
    let ghost mut tail: Seq<char> = Seq::empty();
    // digits of n = decimal_digits(m) + tail, and rev holds tail reversed
    loop
        invariant_except_break
            decimal_digits(n as nat) == decimal_digits(m as nat) + tail,
            rev@ == tail.reverse(),
        ensures
            decimal_digits(n as nat) == tail,
            rev@ == tail.reverse(),
        decreases m,
    {
        let d = m % 10;
        let c = char_from_ascii((d + 48) as u32);
        proof {
            assert(c == digit_char(d as nat));
        }
        if m < 10 {
            rev.push(c);
            proof {
                assert(decimal_digits(m as nat) == seq![c]);
                assert(seq![c] + tail == (tail.reverse().push(c)).reverse()) by {
                    assert((tail.reverse().push(c)).reverse() =~= seq![c] + tail);
                }
                tail = seq![c] + tail;
            }
            break;
        }
        rev.push(c);
        proof {
            assert(decimal_digits(m as nat) == decimal_digits((m / 10) as nat).push(c));
            assert(decimal_digits((m / 10) as nat).push(c) + tail == decimal_digits(
                (m / 10) as nat,
            ) + (seq![c] + tail));
            assert((tail.reverse().push(c)) =~= (seq![c] + tail).reverse());
            tail = seq![c] + tail;
        }
        m = m / 10;
    }
    let mut s = String::new();
    let mut i = rev.len();
    assert(tail == decimal_digits(n as nat));
    while i > 0
        invariant
            i <= rev.len(),
            rev@ == tail.reverse(),
            s@ == tail.take(rev.len() - i),
        decreases i,
    {
        i -= 1;
        s.push(rev[i]);
        assert(tail.take(rev.len() - i) == tail.take(rev.len() - i - 1).push(tail[rev.len() - i - 1]));
        assert(rev@[i as int] == tail[rev.len() - i - 1]);
    }
    assert(tail.take(rev.len() as int) == tail);
    s
}

/// `n` written in decimal, with a leading `-` when negative.
pub open spec fn signed_decimal(n: int) -> Seq<char> {
    if n < 0 {
        seq!['-'] + decimal_digits((-n) as nat)
    } else {
        decimal_digits(n as nat)
    }
}

pub fn i64_to_string(n: i64) -> (s: String)
    ensures
        s@ == signed_decimal(n as int),
{
    if n < 0 {
        let m: u64 = if n == i64::MIN {
            9223372036854775808u64
        } else {
            (-n) as u64
        };
        let mut s = String::new();
        s.push('-');
        let t = u64_to_string(m);
        push_all(&mut s, t.as_str());
        s
    } else {
        u64_to_string(n as u64)
    }
}


/// `decimal_digits` is read back by `decimal_value`.
pub proof fn lemma_decimal_roundtrip(n: nat)
    ensures
        decimal_value(decimal_digits(n)) == n,
        all_digits(decimal_digits(n)),
        decimal_digits(n).len() > 0,
        decimal_digits(n)[0] != '+',
    decreases n,
{
    if n >= 10 {
        lemma_decimal_roundtrip(n / 10);
        let d = decimal_digits(n / 10).push(digit_char(n % 10));
        assert(d.drop_last() == decimal_digits(n / 10));
        assert forall|i: int| 0 <= i < d.len() implies is_digit(#[trigger] d[i]) by {
            if i < d.len() - 1 {
                assert(d[i] == decimal_digits(n / 10)[i]);
            }
        }
        assert(d[0] == decimal_digits(n / 10)[0]);
        lemma_digit_char(n % 10);
        assert(decimal_digits(n) == d);
        assert(d.last() == digit_char(n % 10));
        assert(decimal_value(d) == decimal_value(d.drop_last()) * 10 + digit_value(d.last()));
        assert(n == (n / 10) * 10 + n % 10);
    } else {
        lemma_digit_char(n);
        let d = decimal_digits(n);
        assert(d == seq![digit_char(n)]);
        assert(d.drop_last() == Seq::<char>::empty());
        assert(decimal_value(d) == decimal_value(d.drop_last()) * 10 + digit_value(d.last()));
    }
}

pub proof fn lemma_digit_char(d: nat)
    requires
        d < 10,
    ensures
        digit_value(digit_char(d)) == d,
        is_digit(digit_char(d)),
        digit_char(d) != '+',
{
    assert((('0' as u32) + d) as char as u32 == ('0' as u32) + d);
}

// ---------------------------------------------------------------------------
// Searching and splitting
// ---------------------------------------------------------------------------

/// Index of the first `c` in `s`, or `s.len()` when there is none.
pub open spec fn find(s: Seq<char>, c: char) -> nat
    decreases s.len(),
{
    if s.len() == 0 {
        0
    } else if s[0] == c {
        0
    } else {
        1 + find(s.drop_first(), c)
    }
}

pub proof fn lemma_find(s: Seq<char>, c: char)
    ensures
        find(s, c) <= s.len(),
        forall|i: int| 0 <= i < find(s, c) ==> #[trigger] s[i] != c,
        find(s, c) < s.len() ==> s[find(s, c) as int] == c,
    decreases s.len(),
{
    if s.len() > 0 && s[0] != c {
        lemma_find(s.drop_first(), c);
        assert forall|i: int| 0 <= i < find(s, c) implies #[trigger] s[i] != c by {
            if i > 0 {
                assert(s[i] == s.drop_first()[i - 1]);
            }
        }
    }
}

pub proof fn lemma_find_unique(s: Seq<char>, c: char, k: int)
    requires
        0 <= k <= s.len(),
        forall|i: int| 0 <= i < k ==> #[trigger] s[i] != c,
        k < s.len() ==> s[k] == c,
    ensures
        find(s, c) == k,
    decreases s.len(),
{
    if k > 0 {
        assert(s[0] != c);
        assert forall|i: int| 0 <= i < k - 1 implies #[trigger] s.drop_first()[i] != c by {
            assert(s.drop_first()[i] == s[i + 1]);
        }
        lemma_find_unique(s.drop_first(), c, k - 1);
    }
}

/// Index of the first `c` in `v[lo..hi]`, counted from `lo`, or `hi`.
pub fn find_in(v: &Vec<char>, lo: usize, hi: usize, c: char) -> (k: usize)
    requires
        lo <= hi <= v.len(),
    ensures
        lo <= k <= hi,
        k - lo == find(v@.subrange(lo as int, hi as int), c),
{
    let mut k = lo;
    while k < hi && v[k] != c
        invariant
            lo <= k <= hi <= v.len(),
            forall|i: int| lo <= i < k ==> #[trigger] v@[i] != c,
        decreases hi - k,
    {
        k += 1;
    }
    proof {
        let s = v@.subrange(lo as int, hi as int);
        assert forall|i: int| 0 <= i < k - lo implies #[trigger] s[i] != c by {
            assert(s[i] == v@[lo + i]);
        }
        lemma_find_unique(s, c, k - lo);
    }
    k
}

/// `str::split_once(c)`: the parts before and after the first `c`.
pub open spec fn split_once(s: Seq<char>, c: char) -> Option<(Seq<char>, Seq<char>)> {
    let k = find(s, c);
    if k < s.len() {
        Some((s.take(k as int), s.skip(k as int + 1)))
    } else {
        None
    }
}

// ---------------------------------------------------------------------------
// Lines
// ---------------------------------------------------------------------------

/// A line without the `\r` of a `\r\n` ending.
pub open spec fn strip_cr(l: Seq<char>) -> Seq<char> {
    if l.len() > 0 && l.last() == '\r' {
        l.drop_last()
    } else {
        l
    }
}

/// `str::lines`: split at `\n`, a `\r` before the `\n` dropped too; a last
/// line without `\n` is kept as it is, and an empty rest gives no line.
pub open spec fn lines(s: Seq<char>) -> Seq<Seq<char>>
    decreases s.len(),
{
    if s.len() == 0 {
        Seq::empty()
    } else {
        let k = find(s, '\n');
        if k < s.len() {
            seq![strip_cr(s.take(k as int))] + lines(s.skip(k as int + 1))
        } else {
            seq![s]
        }
    }
}

/// The views of a vector of strings.
pub open spec fn views(v: Seq<String>) -> Seq<Seq<char>> {
    v.map_values(|x: String| x@)
}

/// `str::lines`, each line as its own string.
#[verifier::rlimit(40)]
pub fn lines_of(s: &str) -> (r: Vec<String>)
    ensures
        views(r@) == lines(s@),
{
    let v = chars_of(s);
    let mut out: Vec<String> = Vec::new();
    let mut i: usize = 0;
    assert(v@.skip(0) == v@);
    while i < v.len()
        invariant
            i <= v.len(),
            v@ == s@,
            views(out@) + lines(v@.skip(i as int)) == lines(s@),
        decreases v.len() - i,
    {
        let ghost rest = v@.skip(i as int);
        let k = find_in(&v, i, v.len(), '\n');
        assert(v@.subrange(i as int, v.len() as int) == rest);
        if k < v.len() {
            let mut end = k;
            if end > i && v[end - 1] == '\r' {
                end = end - 1;
            }
            let line = string_of_range(&v, i, end);
            proof {
                assert(rest.take(k - i) == v@.subrange(i as int, k as int));
                assert(strip_cr(rest.take(k - i)) == v@.subrange(i as int, end as int));
                assert(rest.skip(k - i + 1) == v@.skip(k + 1));
            }
            out.push(line);
            proof {
                assert(views(out@) == views(out@.drop_last()).push(line@));
                assert(views(out@) + lines(v@.skip(k + 1)) == views(out@.drop_last()) + (seq![
                    line@,
                ] + lines(v@.skip(k + 1))));
            }
            i = k + 1;
        } else {
            let line = string_of_range(&v, i, v.len());
            out.push(line);
            proof {
                assert(views(out@) == views(out@.drop_last()).push(line@));
                assert(v@.skip(v.len() as int) == Seq::<char>::empty());
                assert(views(out@) + lines(v@.skip(v.len() as int)) == views(out@.drop_last()) + seq![line@]);
            }
            i = v.len();
        }
    }
    proof {
        assert(v@.skip(v.len() as int) == Seq::<char>::empty());
        assert(views(out@) + Seq::<Seq<char>>::empty() == views(out@));
    }
    out
}

/// True when `s` holds one of the characters of `cs`.
pub open spec fn contains_any(s: Seq<char>, cs: Seq<char>) -> bool {
    exists|i: int| 0 <= i < s.len() && cs.contains(#[trigger] s[i])
}

/// `str::contains` with a set of characters.
pub fn contains_any_of(s: &str, cs: &str) -> (r: bool)
    ensures
        r == contains_any(s@, cs@),
{
    let v = chars_of(s);
    let w = chars_of(cs);
    let mut i: usize = 0;
    while i < v.len()
        invariant
            i <= v.len(),
            v@ == s@,
            w@ == cs@,
            forall|j: int| 0 <= j < i ==> !cs@.contains(#[trigger] s@[j]),
        decreases v.len() - i,
    {
        let mut j: usize = 0;
        while j < w.len()
            invariant
                i < v.len(),
                j <= w.len(),
                v@ == s@,
                w@ == cs@,
                forall|t: int| 0 <= t < j ==> w@[t] != v@[i as int],
            decreases w.len() - j,
        {
            if w[j] == v[i] {
                assert(cs@[j as int] == s@[i as int]);
                return true;
            }
            j += 1;
        }
        assert(!cs@.contains(s@[i as int]));
        i += 1;
    }
    false
}


/// The lowercase form of a string under Unicode's `Lowercase` mapping, as
/// `str::to_lowercase` computes it.
pub uninterp spec fn lowercase(s: Seq<char>) -> Seq<char>;

/// Trusted: `str::to_lowercase`; the result is `lowercase` of the input.
#[verifier::external_body]
pub fn to_lowercase(s: &str) -> (r: String)
    ensures
        r@ == lowercase(s@),
{
    s.to_lowercase()
}


/// A line followed by a newline and more text: the line is the first of `lines`.
pub proof fn lemma_lines_cons(a: Seq<char>, rest: Seq<char>)
    requires
        !a.contains('\n'),
        a.len() == 0 || a.last() != '\r',
    ensures
        lines(a + seq!['\n'] + rest) == seq![a] + lines(rest),
{
    let s = a + seq!['\n'] + rest;
    assert forall|i: int| 0 <= i < a.len() implies #[trigger] s[i] != '\n' by {
        assert(s[i] == a[i]);
    }
    assert(s[a.len() as int] == '\n');
    lemma_find_unique(s, '\n', a.len() as int);
    assert(s.take(a.len() as int) == a);
    assert(s.skip(a.len() as int + 1) == rest);
}

/// Text with no whitespace at either end is its own trim.
pub proof fn lemma_trim_noop(s: Seq<char>)
    requires
        s.len() == 0 || (!is_ws(s[0]) && !is_ws(s.last())),
    ensures
        trim(s) == s,
{
    lemma_lead_ws_unique(s, 0);
    assert(s.skip(0) == s);
    lemma_trail_ws_unique(s, 0);
    assert(s.take(s.len() as int) == s);
}


// ---------------------------------------------------------------------------
// Words
// ---------------------------------------------------------------------------

/// Number of leading non-whitespace characters.
pub open spec fn word_len(s: Seq<char>) -> nat
    decreases s.len(),
{
    if s.len() == 0 || is_ws(s[0]) {
        0
    } else {
        1 + word_len(s.drop_first())
    }
}

pub proof fn lemma_word_len(s: Seq<char>)
    ensures
        word_len(s) <= s.len(),
        forall|i: int| 0 <= i < word_len(s) ==> !is_ws(#[trigger] s[i]),
    decreases s.len(),
{
    if s.len() > 0 && !is_ws(s[0]) {
        lemma_word_len(s.drop_first());
        assert forall|i: int| 0 <= i < word_len(s) implies !is_ws(#[trigger] s[i]) by {
            if i > 0 {
                assert(s[i] == s.drop_first()[i - 1]);
            }
        }
    }
}

pub proof fn lemma_word_len_unique(s: Seq<char>, k: int)
    requires
        0 <= k <= s.len(),
        forall|i: int| 0 <= i < k ==> !is_ws(#[trigger] s[i]),
        k < s.len() ==> is_ws(s[k]),
    ensures
        word_len(s) == k,
    decreases s.len(),
{
    if k > 0 {
        assert(!is_ws(s[0]));
        assert forall|i: int| 0 <= i < k - 1 implies !is_ws(#[trigger] s.drop_first()[i]) by {
            assert(s.drop_first()[i] == s[i + 1]);
        }
        lemma_word_len_unique(s.drop_first(), k - 1);
    }
}

/// `str::split_whitespace`: the maximal runs of non-whitespace characters.
pub open spec fn split_words(s: Seq<char>) -> Seq<Seq<char>>
    decreases s.len(),
{
    let k = lead_ws(s);
    if k >= s.len() {
        Seq::empty()
    } else {
        let r = s.skip(k as int);
        let w = word_len(r);
        if 0 < w && w <= r.len() {
            seq![r.take(w as int)] + split_words(r.skip(w as int))
        } else {
            Seq::empty()
        }
    }
}

/// The words of `s`, as character ranges `(start, end)` into `v`.
#[verifier::rlimit(40)]
pub fn word_ranges(v: &Vec<char>) -> (r: Vec<(usize, usize)>)
    ensures
        r@.len() == split_words(v@).len(),
        forall|i: int|
            0 <= i < r@.len() ==> (#[trigger] r@[i]).0 <= r@[i].1 <= v.len() && v@.subrange(
                r@[i].0 as int,
                r@[i].1 as int,
            ) == split_words(v@)[i],
{
    let mut out: Vec<(usize, usize)> = Vec::new();
    let mut i: usize = 0;
    let ghost mut done: Seq<Seq<char>> = Seq::empty();
    assert(v@.skip(0) == v@);
    loop
        invariant_except_break
            i <= v.len(),
            done + split_words(v@.skip(i as int)) == split_words(v@),
            out@.len() == done.len(),
            forall|t: int|
                0 <= t < out@.len() ==> (#[trigger] out@[t]).0 <= out@[t].1 <= v.len()
                    && v@.subrange(out@[t].0 as int, out@[t].1 as int) == done[t],
        ensures
            done == split_words(v@),
            out@.len() == done.len(),
            forall|t: int|
                0 <= t < out@.len() ==> (#[trigger] out@[t]).0 <= out@[t].1 <= v.len()
                    && v@.subrange(out@[t].0 as int, out@[t].1 as int) == done[t],
        decreases v.len() - i,
    {
        let ghost rest = v@.skip(i as int);
        let mut a = i;
        while a < v.len() && is_whitespace(v[a])
            invariant
                i <= a <= v.len(),
                forall|t: int| i <= t < a ==> is_ws(#[trigger] v@[t]),
            decreases v.len() - a,
        {
            a += 1;
        }
        proof {
            assert forall|t: int| 0 <= t < a - i implies is_ws(#[trigger] rest[t]) by {
                assert(rest[t] == v@[i + t]);
            }
            if a < v.len() {
                assert(rest[a - i] == v@[a as int]);
            }
            lemma_lead_ws_unique(rest, a - i);
        }
        if a == v.len() {
            assert(split_words(rest) == Seq::<Seq<char>>::empty());
            assert(done + Seq::<Seq<char>>::empty() == done);
            break;
        }
        let mut b = a;
        while b < v.len() && !is_whitespace(v[b])
            invariant
                a <= b <= v.len(),
                forall|t: int| a <= t < b ==> !is_ws(#[trigger] v@[t]),
            decreases v.len() - b,
        {
            b += 1;
        }
        let ghost r = rest.skip(a - i);
        proof {
            assert(r == v@.skip(a as int));
            assert forall|t: int| 0 <= t < b - a implies !is_ws(#[trigger] r[t]) by {
                assert(r[t] == v@[a + t]);
            }
            if b < v.len() {
                assert(r[b - a] == v@[b as int]);
            }
            assert(!is_ws(v@[a as int]));
            lemma_word_len_unique(r, b - a);
            assert(r.take(b - a) == v@.subrange(a as int, b as int));
            assert(r.skip(b - a) == v@.skip(b as int));
        }
        out.push((a, b));
        proof {
            let w = v@.subrange(a as int, b as int);
            assert(split_words(rest) == seq![w] + split_words(v@.skip(b as int)));
            assert(done.push(w) + split_words(v@.skip(b as int)) == done + split_words(rest));
            done = done.push(w);
        }
        i = b;
    }
    out
}

} // verus!
