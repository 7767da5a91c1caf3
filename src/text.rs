use vstd::prelude::*;

verus! {

/// The characters of `s`, in order.
pub fn chars_of(s: &str) -> (r: Vec<char>)
    ensures
        r@ == s@,
{
    let mut v: Vec<char> = Vec::new();
    for c in it: s.chars()
        invariant
            v@ == it.seq().subrange(0, it.index() as int),
    {
        v.push(c);
    }
    v
}

/// Relies on `String::push`: appends one character.
#[verifier::external_body]
pub(crate) fn push_char(s: &mut String, c: char)
    ensures
        final(s)@ == old(s)@.push(c),
{
    s.push(c)
}

/// The string made of the characters `cs[from..to]`.
pub fn string_from_chars(cs: &[char], from: usize, to: usize) -> (r: String)
    requires
        from <= to <= cs@.len(),
    ensures
        r@ == cs@.subrange(from as int, to as int),
{
    let mut s = String::new();
    let mut k = from;
    while k < to
        invariant
            from <= k <= to <= cs@.len(),
            s@ == cs@.subrange(from as int, k as int),
        decreases to - k,
    {
        push_char(&mut s, cs[k]);
        proof {
            assert(cs@.subrange(from as int, k + 1) == cs@.subrange(from as int, k as int).push(cs@[k as int]));
        }
        k = k + 1;
    }
    s
}

/// An owned copy of `s`.
pub fn owned(s: &str) -> (r: String)
    ensures
        r@ == s@,
{
    s.to_owned()
}

/// Appends `t` to `s`.
pub fn push_text(s: &mut String, t: &str)
    ensures
        final(s)@ == old(s)@ + t@,
{
    let cs = chars_of(t);
    let mut k: usize = 0;
    while k < cs.len()
        invariant
            k <= cs@.len(),
            cs@ == t@,
            s@ == old(s)@ + t@.subrange(0, k as int),
        decreases cs@.len() - k,
    {
        push_char(s, cs[k]);
        proof {
            assert(t@.subrange(0, k + 1) == t@.subrange(0, k as int).push(t@[k as int]));
        }
        k = k + 1;
    }
    proof {
        assert(t@.subrange(0, cs@.len() as int) == t@);
    }
}

/// Whether `a` and `b` hold the same characters.
pub fn same_text(a: &str, b: &str) -> (r: bool)
    ensures
        r == (a@ == b@),
{
    let x = owned(a);
    let y = owned(b);
    x == y
}

/// An ASCII decimal digit.
pub open spec fn is_digit(c: char) -> bool {
    '0' <= c <= '9'
}

/// The value of a decimal digit.
pub open spec fn digit_value(c: char) -> nat {
    (c as u32 - '0' as u32) as nat
}

/// The number that a string of decimal digits denotes.
pub open spec fn digits_value(cs: Seq<char>) -> nat
    decreases cs.len(),
{
    if cs.len() == 0 {
        0
    } else {
        10 * digits_value(cs.drop_last()) + digit_value(cs.last())
    }
}

/// Every character is a decimal digit.
pub open spec fn all_digits(cs: Seq<char>) -> bool {
    forall|i: int| 0 <= i < cs.len() ==> #[trigger] is_digit(cs[i])
}

/// `cs` without one leading `+`, if it has one.
pub open spec fn without_plus(cs: Seq<char>) -> Seq<char> {
    if cs.len() > 0 && cs[0] == '+' {
        cs.drop_first()
    } else {
        cs
    }
}

/// The unsigned integer that `cs` writes: an optional `+`, then one or more decimal digits.
pub open spec fn unsigned_text(cs: Seq<char>) -> Option<nat> {
    let d = without_plus(cs);
    if d.len() > 0 && all_digits(d) {
        Some(digits_value(d))
    } else {
        None
    }
}

proof fn lemma_digits_prefix_grows(cs: Seq<char>, k: int)
    requires
        0 <= k <= cs.len(),
        all_digits(cs),
    ensures
        digits_value(cs.subrange(0, k)) <= digits_value(cs),
    decreases cs.len() - k,
{
    if k < cs.len() {
        lemma_digits_prefix_grows(cs, k + 1);
        assert(cs.subrange(0, k + 1).drop_last() == cs.subrange(0, k));
    } else {
        assert(cs.subrange(0, k) == cs);
    }
}

/// Reads an unsigned integer written as `unsigned_text` describes, when it is at most `limit`.
pub fn parse_unsigned(cs: &[char], limit: u64) -> (r: Option<u64>)
    ensures
        r matches Some(v) ==> unsigned_text(cs@) == Some(v as nat) && v <= limit,
        r is None ==> match unsigned_text(cs@) {
            Some(v) => v > limit,
            None => true,
        },
{
    let start: usize = if cs.len() > 0 && cs[0] == '+' { 1 } else { 0 };
    let ghost d = without_plus(cs@);
    proof {
        assert(d == cs@.subrange(start as int, cs@.len() as int));
    }
    if start >= cs.len() {
        return None;
    }
    let mut v: u64 = 0;
    let mut k: usize = start;
    while k < cs.len()
        invariant
            start <= k <= cs@.len(),
            d == cs@.subrange(start as int, cs@.len() as int),
            d == without_plus(cs@),
            d.len() > 0,
            all_digits(d.subrange(0, k - start)),
            v as nat == digits_value(d.subrange(0, k - start)),
            v <= limit,
        decreases cs@.len() - k,
    {
        let c = cs[k];
        if !('0' <= c && c <= '9') {
            proof {
                assert(!is_digit(d[k - start]));
                assert(!all_digits(d));
                assert(unsigned_text(cs@) is None);
            }
            return None;
        }
        let dv = (c as u32 - '0' as u32) as u64;
        proof {
            assert(d.subrange(0, k + 1 - start).drop_last() == d.subrange(0, k - start));
            assert(all_digits(d.subrange(0, k + 1 - start)));
        }
        let next = (v as u128) * 10 + dv as u128;
        if next > limit as u128 {
            proof {
                assert(digits_value(d.subrange(0, k + 1 - start)) > limit);
                if all_digits(d) {
                    lemma_digits_prefix_grows(d, k + 1 - start);
                    assert(digits_value(d) > limit);
                    assert(unsigned_text(cs@) == Some(digits_value(d)));
                }
            }
            return None;
        }
        v = next as u64;
        k = k + 1;
    }
    proof {
        assert(d.subrange(0, k - start) == d);
    }
    Some(v)
}

/// Reads the digits `cs[from..to]` (no sign), when all are digits and their value is at
/// most `limit`; an empty range reads as 0.
pub fn parse_digits(cs: &[char], from: usize, to: usize, limit: u64) -> (r: Option<u64>)
    requires
        from <= to <= cs@.len(),
    ensures
        r matches Some(v) ==> all_digits(cs@.subrange(from as int, to as int)) && v as nat
            == digits_value(cs@.subrange(from as int, to as int)) && v <= limit,
        r is None ==> !all_digits(cs@.subrange(from as int, to as int)) || digits_value(
            cs@.subrange(from as int, to as int),
        ) > limit,
{
    let ghost d = cs@.subrange(from as int, to as int);
    let mut v: u64 = 0;
    let mut k: usize = from;
    while k < to
        invariant
            from <= k <= to <= cs@.len(),
            d == cs@.subrange(from as int, to as int),
            all_digits(d.subrange(0, k - from)),
            v as nat == digits_value(d.subrange(0, k - from)),
            v <= limit,
        decreases to - k,
    {
        let c = cs[k];
        if !('0' <= c && c <= '9') {
            proof {
                assert(!is_digit(d[k - from]));
            }
            return None;
        }
        let dv = (c as u32 - '0' as u32) as u64;
        proof {
            assert(d.subrange(0, k + 1 - from).drop_last() == d.subrange(0, k - from));
            assert(all_digits(d.subrange(0, k + 1 - from)));
        }
        let next = (v as u128) * 10 + dv as u128;
        if next > limit as u128 {
            proof {
                if all_digits(d) {
                    lemma_digits_prefix_grows(d, k + 1 - from);
                }
            }
            return None;
        }
        v = next as u64;
        k = k + 1;
    }
    proof {
        assert(d.subrange(0, k - from) == d);
    }
    Some(v)
}

/// Ten to the power `k`.
pub open spec fn pow10(k: nat) -> nat
    decreases k,
{
    if k == 0 {
        1
    } else {
        10 * pow10((k - 1) as nat)
    }
}

/// Index of the first `.` in `d` at or after `k`, or `d.len()` when there is none.
pub open spec fn first_dot(d: Seq<char>, k: int) -> int
    decreases d.len() - k,
{
    if k < 0 || k >= d.len() {
        d.len() as int
    } else if d[k] == '.' {
        k
    } else {
        first_dot(d, k + 1)
    }
}

/// Most fraction digits that a decimal fraction may have.
pub const MAX_FRACTION_DIGITS: usize = 18;

/// The value of a decimal fraction `[+]I[.F]`, with at least one digit and at most
/// `MAX_FRACTION_DIGITS` digits in `F`, as a numerator over `10^|F|`.
pub open spec fn fraction_text(cs: Seq<char>) -> Option<(nat, nat)> {
    let d = without_plus(cs);
    let p = first_dot(d, 0);
    let ip = d.subrange(0, p);
    if p == d.len() {
        if d.len() > 0 && all_digits(d) {
            Some((digits_value(d), 1nat))
        } else {
            None
        }
    } else {
        let fp = d.subrange(p + 1, d.len() as int);
        if d.len() > 1 && all_digits(ip) && all_digits(fp) && fp.len() <= MAX_FRACTION_DIGITS {
            Some((digits_value(ip) * pow10(fp.len()) + digits_value(fp), pow10(fp.len())))
        } else {
            None
        }
    }
}

proof fn lemma_pow10_bound(k: nat)
    requires
        k <= 18,
    ensures
        1 <= pow10(k) <= 1_000_000_000_000_000_000,
    decreases 18 - k,
{
    if k < 18 {
        lemma_pow10_bound(k + 1);
    } else {
        reveal_with_fuel(pow10, 19);
    }
}

proof fn lemma_first_dot_scan(d: Seq<char>, k: int)
    requires
        0 <= k <= d.len(),
        forall|j: int| 0 <= j < k ==> d[j] != '.',
    ensures
        first_dot(d, 0) == first_dot(d, k),
    decreases k,
{
    if k > 0 {
        lemma_first_dot_scan(d, k - 1);
    }
}

/// Reads a decimal fraction as `fraction_text` describes, when its value is at most 1;
/// the result is `(numerator, denominator)`.
pub fn parse_unit_fraction(cs: &[char]) -> (r: Option<(u64, u64)>)
    ensures
        r matches Some(v) ==> fraction_text(cs@) == Some((v.0 as nat, v.1 as nat)) && v.0 <= v.1
            && 0 < v.1 <= 1_000_000_000_000_000_000,
        r is None ==> match fraction_text(cs@) {
            Some(v) => v.0 > v.1,
            None => true,
        },
{
    let start: usize = if cs.len() > 0 && cs[0] == '+' { 1 } else { 0 };
    let ghost d = without_plus(cs@);
    proof {
        assert(d == cs@.subrange(start as int, cs@.len() as int));
    }
    let mut p = start;
    while p < cs.len() && cs[p] != '.'
        invariant
            start <= p <= cs@.len(),
            d == cs@.subrange(start as int, cs@.len() as int),
            forall|j: int| 0 <= j < p - start ==> d[j] != '.',
        decreases cs@.len() - p,
    {
        p = p + 1;
    }
    proof {
        lemma_first_dot_scan(d, p - start);
        if p < cs@.len() {
            assert(d[p - start] == '.');
        }
        assert(first_dot(d, 0) == p - start);
        assert(d.subrange(0, p - start) == cs@.subrange(start as int, p as int));
    }
    if p == cs.len() {
        if p == start {
            return None;
        }
        proof {
            assert(d == cs@.subrange(start as int, p as int));
        }
        match parse_digits(cs, start, p, 1) {
            Some(v) => return Some((v, 1)),
            None => return None,
        }
    }
    proof {
        assert(d.subrange(p - start + 1, d.len() as int) == cs@.subrange(p + 1, cs@.len() as int));
    }
    if cs.len() - start <= 1 || cs.len() - p - 1 > MAX_FRACTION_DIGITS {
        return None;
    }
    let whole = parse_digits(cs, start, p, 1);
    let frac = parse_digits(cs, p + 1, cs.len(), 999_999_999_999_999_999);
    let ghost ip = cs@.subrange(start as int, p as int);
    let ghost fp = cs@.subrange(p + 1, cs@.len() as int);
    proof {
        lemma_pow10_bound(fp.len());
        if all_digits(fp) {
            lemma_digits_below_pow10(fp);
        }
        if all_digits(ip) && all_digits(fp) && digits_value(ip) > 1 {
            assert(digits_value(ip) * pow10(fp.len()) >= 2 * pow10(fp.len())) by (nonlinear_arith)
                requires digits_value(ip) >= 2;
        }
    }
    match (whole, frac) {
        (Some(w), Some(f)) => {
            let k = cs.len() - p - 1;
            let mut den: u64 = 1;
            let mut j: usize = 0;
            while j < k
                invariant
                    j <= k <= MAX_FRACTION_DIGITS,
                    den as nat == pow10(j as nat),
                decreases k - j,
            {
                proof {
                    lemma_pow10_bound((j + 1) as nat);
                }
                den = den * 10;
                j = j + 1;
            }
            proof {
                lemma_pow10_bound(k as nat);
                lemma_digits_below_pow10(cs@.subrange(p + 1, cs@.len() as int));
            }
            proof {
                assert(d.subrange(0, p - start) == ip);
                assert(d.subrange(p - start + 1, d.len() as int) == fp);
                assert(fraction_text(cs@) == Some((digits_value(ip) * pow10(fp.len()) + digits_value(fp), pow10(fp.len()))));
                assert(den as nat == pow10(fp.len()));
                assert(w == 0 || w == 1);
                assert(digits_value(ip) * pow10(fp.len()) == w * den);
                if w == 1 {
                    assert(w * den == den) by (nonlinear_arith)
                        requires w == 1;
                } else {
                    assert(w * den == 0) by (nonlinear_arith)
                        requires w == 0;
                }
            }
            if w == 1 {
                if f > 0 {
                    return None;
                }
                Some((den, den))
            } else {
                Some((f, den))
            }
        },
        _ => None,
    }
}

proof fn lemma_digits_below_pow10(cs: Seq<char>)
    requires
        all_digits(cs),
    ensures
        digits_value(cs) < pow10(cs.len()),
    decreases cs.len(),
{
    if cs.len() > 0 {
        let p = cs.drop_last();
        assert(all_digits(p));
        lemma_digits_below_pow10(p);
        assert(is_digit(cs[cs.len() - 1]));
    }
}

/// The ASCII digit for `d < 10`.
pub open spec fn digit_char(d: nat) -> char {
    ((d + '0' as u32) as u32) as char
}

/// The decimal digits of `n`, without leading zeros.
pub open spec fn decimal_text(n: nat) -> Seq<char>
    decreases n,
{
    if n < 10 {
        seq![digit_char(n)]
    } else {
        decimal_text(n / 10).push(digit_char(n % 10))
    }
}

fn digit_of(d: u64) -> (c: char)
    requires
        d < 10,
    ensures
        c == digit_char(d as nat),
{
    let v: u32 = d as u32 + 48;
    proof {
        assert(48 <= v < 58);
    }
    char_from_ascii(v as u8)
}

fn char_from_ascii(b: u8) -> (c: char)
    requires
        48 <= b < 58,
    ensures
        c as u32 == b as u32,
{
    match b {
        48 => '0',
        49 => '1',
        50 => '2',
        51 => '3',
        52 => '4',
        53 => '5',
        54 => '6',
        55 => '7',
        56 => '8',
        _ => '9',
    }
}

/// `n` written in decimal.
pub fn decimal_string(n: u64) -> (r: String)
    ensures
        r@ == decimal_text(n as nat),
    decreases n,
{
    if n < 10 {
        let mut s = String::new();
        push_char(&mut s, digit_of(n));
        proof {
            assert(s@ == seq![digit_char(n as nat)]);
        }
        s
    } else {
        let mut s = decimal_string(n / 10);
        push_char(&mut s, digit_of(n % 10));
        s
    }
}

/// Up to `k` digits of the decimal expansion of `rem / den` (with `rem < den`), stopping
/// early when the expansion ends.
pub open spec fn fraction_digits(rem: nat, den: nat, k: nat) -> Seq<char>
    decreases k,
{
    if k == 0 || rem == 0 || den == 0 {
        Seq::empty()
    } else {
        seq![digit_char((rem * 10) / den)] + fraction_digits((rem * 10) % den, den, (k - 1) as nat)
    }
}

/// `num / den` in decimal: the whole part, then, when the value is not whole, a point and
/// at most `MAX_FRACTION_DIGITS` digits of the fraction.
pub open spec fn ratio_text(num: nat, den: nat) -> Seq<char> {
    let whole = decimal_text(num / den);
    let rem = num % den;
    if rem == 0 {
        whole
    } else {
        whole + seq!['.'] + fraction_digits(rem, den, MAX_FRACTION_DIGITS as nat)
    }
}

/// `num / den` written as `ratio_text` describes.
pub fn ratio_string(num: u64, den: u64) -> (r: String)
    requires
        0 < den <= 1_000_000_000_000_000_000,
    ensures
        r@ == ratio_text(num as nat, den as nat),
{
    let mut s = decimal_string(num / den);
    let mut rem = num % den;
    if rem == 0 {
        return s;
    }
    push_char(&mut s, '.');
    let ghost head = s@;
    let mut k: usize = 0;
    while k < MAX_FRACTION_DIGITS && rem != 0
        invariant
            0 < den <= 1_000_000_000_000_000_000,
            rem < den,
            k <= MAX_FRACTION_DIGITS,
            s@ + fraction_digits(rem as nat, den as nat, (MAX_FRACTION_DIGITS - k) as nat)
                == head + fraction_digits((num % den) as nat, den as nat, MAX_FRACTION_DIGITS as nat),
        decreases MAX_FRACTION_DIGITS - k,
    {
        let t = (rem as u128) * 10;
        let d = (t / den as u128) as u64;
        proof {
            assert(t / (den as u128) < 10) by (nonlinear_arith)
                requires t == rem * 10, rem < den, den > 0;
        }
        let ghost before = s@;
        push_char(&mut s, digit_of(d));
        proof {
            assert(fraction_digits(rem as nat, den as nat, (MAX_FRACTION_DIGITS - k) as nat)
                == seq![digit_char(d as nat)] + fraction_digits((t % den as u128) as nat, den as nat, (MAX_FRACTION_DIGITS - k - 1) as nat));
            assert(s@ + fraction_digits((t % den as u128) as nat, den as nat, (MAX_FRACTION_DIGITS - k - 1) as nat)
                =~= before + fraction_digits(rem as nat, den as nat, (MAX_FRACTION_DIGITS - k) as nat));
        }
        rem = (t % den as u128) as u64;
        k = k + 1;
    }
    proof {
        assert(fraction_digits(rem as nat, den as nat, (MAX_FRACTION_DIGITS - k) as nat) == Seq::<char>::empty());
        assert(s@ + Seq::<char>::empty() == s@);
    }
    s
}

/// `needle` occurs in `hay` at position `i`.
pub open spec fn occurs_at(hay: Seq<char>, needle: Seq<char>, i: int) -> bool {
    0 <= i && i + needle.len() <= hay.len() && hay.subrange(i, i + needle.len()) == needle
}

/// `needle` occurs somewhere in `hay`.
pub open spec fn contains_seq(hay: Seq<char>, needle: Seq<char>) -> bool {
    exists|i: int| occurs_at(hay, needle, i)
}

/// Whether `needle` occurs in `hay`.
pub fn contains_text(hay: &str, needle: &str) -> (r: bool)
    ensures
        r == contains_seq(hay@, needle@),
{
    let h = chars_of(hay);
    let n = chars_of(needle);
    if n.len() > h.len() {
        return false;
    }
    let hl = h.len();
    let mut i: usize = 0;
    while i <= h.len() - n.len()
        invariant
            hl == h@.len(),
            h@ == hay@,
            n@ == needle@,
            n@.len() <= h@.len(),
            i <= h@.len() - n@.len() + 1,
            forall|j: int| 0 <= j < i ==> !occurs_at(hay@, needle@, j),
        decreases h@.len() - n@.len() + 1 - i,
    {
        let mut k: usize = 0;
        while k < n.len() && h[i + k] == n[k]
            invariant
                hl == h@.len(),
                h@ == hay@,
                n@ == needle@,
                i + n@.len() <= h@.len(),
                k <= n@.len(),
                forall|q: int| 0 <= q < k ==> h@[i + q] == n@[q],
            decreases n@.len() - k,
        {
            k = k + 1;
        }
        if k == n.len() {
            proof {
                assert(hay@.subrange(i as int, i + needle@.len()) =~= needle@);
                assert(occurs_at(hay@, needle@, i as int));
            }
            return true;
        }
        proof {
            if occurs_at(hay@, needle@, i as int) {
                assert(hay@.subrange(i as int, i + needle@.len())[k as int] == needle@[k as int]);
            }
        }
        i = i + 1;
    }
    proof {
        assert forall|j: int| !occurs_at(hay@, needle@, j) by {
            if 0 <= j && j + needle@.len() <= hay@.len() {
                assert(j < i);
            }
        }
    }
    false
}

/// `text` holds the character `c`.
pub fn has_char(text: &str, c: char) -> (r: bool)
    ensures
        r == text@.contains(c),
{
    let cs = chars_of(text);
    let mut i: usize = 0;
    while i < cs.len()
        invariant
            cs@ == text@,
            i <= cs@.len(),
            forall|j: int| 0 <= j < i ==> cs@[j] != c,
        decreases cs@.len() - i,
    {
        if cs[i] == c {
            return true;
        }
        i = i + 1;
    }
    false
}

} // verus!
