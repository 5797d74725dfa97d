use vstd::prelude::*;

verus! {

/// The decimal digit character for `d` (0 to 9).
pub open spec fn digit_char(d: int) -> char {
    if d == 0 { '0' }
    else if d == 1 { '1' }
    else if d == 2 { '2' }
    else if d == 3 { '3' }
    else if d == 4 { '4' }
    else if d == 5 { '5' }
    else if d == 6 { '6' }
    else if d == 7 { '7' }
    else if d == 8 { '8' }
    else { '9' }
}

/// `c` is an ASCII decimal digit.
pub open spec fn is_digit(c: char) -> bool {
    '0' <= c && c <= '9'
}

/// The value of the decimal digit `c`.
pub open spec fn digit_value(c: char) -> int {
    (c as int) - ('0' as int)
}

/// Every character of `s` is a decimal digit.
pub open spec fn all_digits(s: Seq<char>) -> bool {
    forall|i: int| 0 <= i < s.len() ==> is_digit(#[trigger] s[i])
}

/// The value of a string of decimal digits.
pub open spec fn digits_value(s: Seq<char>) -> int
    decreases s.len(),
{
    if s.len() == 0 {
        0
    } else {
        digits_value(s.drop_last()) * 10 + digit_value(s.last())
    }
}

/// The integer that `s` spells as `str::parse` reads one: an optional `+` or `-`, then one
/// or more decimal digits, nothing else. `None` where `s` is not of that form.
pub open spec fn int_literal(s: Seq<char>) -> Option<int> {
    if s.len() > 0 && (s[0] == '+' || s[0] == '-') {
        let d = s.drop_first();
        if d.len() > 0 && all_digits(d) {
            Some(if s[0] == '-' { -digits_value(d) } else { digits_value(d) })
        } else {
            None
        }
    } else if s.len() > 0 && all_digits(s) {
        Some(digits_value(s))
    } else {
        None
    }
}

/// What `s.parse::<i64>().ok()` gives.
pub open spec fn parse_i64_spec(s: Seq<char>) -> Option<i64> {
    match int_literal(s) {
        Some(v) => if i64::MIN <= v <= i64::MAX { Some(v as i64) } else { None },
        None => None,
    }
}

/// What `s.parse::<i32>().ok()` gives.
pub open spec fn parse_i32_spec(s: Seq<char>) -> Option<i32> {
    match int_literal(s) {
        Some(v) => if i32::MIN <= v <= i32::MAX { Some(v as i32) } else { None },
        None => None,
    }
}

/// The decimal digits of `n`, without leading zeros.
pub open spec fn nat_digits(n: nat) -> Seq<char>
    decreases n,
{
    if n < 10 {
        seq![digit_char(n as int)]
    } else {
        nat_digits(n / 10) + seq![digit_char((n % 10) as int)]
    }
}

/// `n` written in decimal as `{}` formats an integer: a `-` for a negative number, then its digits.
pub open spec fn decimal(n: int) -> Seq<char> {
    if n < 0 {
        seq!['-'] + nat_digits((-n) as nat)
    } else {
        nat_digits(n as nat)
    }
}

/// `n` right-aligned in a field of width 4, as `{:>4}` formats it.
pub open spec fn padded4(n: int) -> Seq<char> {
    let d = decimal(n);
    if d.len() < 4 {
        Seq::new((4 - d.len()) as nat, |i: int| ' ') + d
    } else {
        d
    }
}

fn digit_char_exec(d: u64) -> (c: char)
    requires
        d < 10,
    ensures
        c == digit_char(d as int),
{
    if d == 0 { '0' }
    else if d == 1 { '1' }
    else if d == 2 { '2' }
    else if d == 3 { '3' }
    else if d == 4 { '4' }
    else if d == 5 { '5' }
    else if d == 6 { '6' }
    else if d == 7 { '7' }
    else if d == 8 { '8' }
    else { '9' }
}

fn push_nat_digits(out: &mut Vec<char>, n: u64)
    ensures
        final(out)@ == old(out)@ + nat_digits(n as nat),
    decreases n,
{
    if n >= 10 {
        push_nat_digits(out, n / 10);
    }
    let c = digit_char_exec(n % 10);
    out.push(c);
    assert(final(out)@ =~= old(out)@ + nat_digits(n as nat));
}

/// `n` written in decimal.
pub fn decimal_i64(n: i64) -> (v: Vec<char>)
    ensures
        v@ == decimal(n as int),
{
    let mut v: Vec<char> = Vec::new();
    if n < 0 {
        v.push('-');
        let m = (-(n as i128)) as u64;
        push_nat_digits(&mut v, m);
    } else {
        push_nat_digits(&mut v, n as u64);
    }
    assert(v@ =~= decimal(n as int));
    v
}

/// `n` written in decimal.
pub fn decimal_usize(n: usize) -> (v: Vec<char>)
    ensures
        v@ == decimal(n as int),
{
    let mut v: Vec<char> = Vec::new();
    push_nat_digits(&mut v, n as u64);
    assert(v@ =~= decimal(n as int));
    v
}

proof fn lemma_digits_value_prefix(s: Seq<char>, i: int)
    requires
        all_digits(s),
        0 <= i <= s.len(),
    ensures
        digits_value(s.take(i)) <= digits_value(s),
        0 <= digits_value(s),
    decreases s.len(),
{
    if s.len() > 0 {
        let init = s.drop_last();
        assert(is_digit(s[s.len() - 1]));
        assert(all_digits(init)) by {
            assert forall|k: int| 0 <= k < init.len() implies is_digit(#[trigger] init[k]) by {
                assert(init[k] == s[k]);
            }
        }
        if i == s.len() {
            assert(s.take(i) =~= s);
            lemma_digits_value_prefix(init, 0);
        } else {
            lemma_digits_value_prefix(init, i);
            assert(init.take(i) =~= s.take(i));
        }
    }
}

/// Reads an integer literal whose value lies in `lo..=hi`.
fn parse_bounded(s: &Vec<char>, lo: i128, hi: i128) -> (r: Option<i128>)
    requires
        -0x1_0000_0000_0000_0000 < lo <= 0 <= hi < 0x1_0000_0000_0000_0000,
    ensures
        r == (match int_literal(s@) {
            Some(v) => if lo <= v <= hi { Some(v as i128) } else { None },
            None => None,
        }),
{
    let n = s.len();
    if n == 0 {
        return None;
    }
    let negative = s[0] == '-';
    let start: usize = if s[0] == '+' || s[0] == '-' { 1 } else { 0 };
    if start == n {
        return None;
    }
    let ghost d = s@.subrange(start as int, n as int);
    let mut acc: u128 = 0;
    let mut i: usize = start;
    while i < n
        invariant
            start <= i <= n,
            n == s.len(),
            n > 0,
            -0x1_0000_0000_0000_0000 < lo <= 0 <= hi < 0x1_0000_0000_0000_0000,
            start == (if s@[0] == '+' || s@[0] == '-' { 1usize } else { 0usize }),
            start < n,
            negative == (s@[0] == '-'),
            d == s@.subrange(start as int, n as int),
            all_digits(d.take(i - start)),
            acc == digits_value(d.take(i - start)),
            acc <= 0x1_0000_0000_0000_0000,
        decreases n - i,
    {
        let c = s[i];
        if !('0' <= c && c <= '9') {
            assert(d[i - start] == c);
            assert(!all_digits(d));
            assert(s@[0] != '+' && s@[0] != '-' ==> d =~= s@);
            return None;
        }
        let dv = (c as u32 - '0' as u32) as u128;
        let ghost before = d.take(i - start);
        acc = acc * 10 + dv;
        i = i + 1;
        assert(d.take(i - start).drop_last() =~= before);
        assert(all_digits(d.take(i - start))) by {
            assert forall|k: int| 0 <= k < d.take(i - start).len() implies is_digit(
                #[trigger] d.take(i - start)[k],
            ) by {
                if k < before.len() {
                    assert(d.take(i - start)[k] == before[k]);
                }
            }
        }
        assert(acc == digits_value(d.take(i - start)));
        if acc > 0x1_0000_0000_0000_0000 {
            proof {
                assert(s@[0] != '+' && s@[0] != '-' ==> d =~= s@);
                assert(start == 1 ==> s@.drop_first() =~= d);
                match int_literal(s@) {
                    Some(v) => {
                        assert(all_digits(d));
                        assert(v == digits_value(d) || v == -digits_value(d));
                        lemma_digits_value_prefix(d, i - start);
                        assert(v > hi || v < lo);
                    },
                    None => {},
                }
            }
            return None;
        }
    }
    assert(d.take(n - start) =~= d);
    assert(s@[0] != '+' && s@[0] != '-' ==> d =~= s@);
    assert(s@.drop_first() =~= s@.subrange(1, n as int));
    let v: i128 = if negative { -(acc as i128) } else { acc as i128 };
    if lo <= v && v <= hi {
        Some(v)
    } else {
        None
    }
}

/// What `s.parse::<i64>().ok()` gives.
pub fn parse_i64(s: &Vec<char>) -> (r: Option<i64>)
    ensures
        r == parse_i64_spec(s@),
{
    match parse_bounded(s, i64::MIN as i128, i64::MAX as i128) {
        Some(v) => Some(v as i64),
        None => None,
    }
}

/// What `s.parse::<i32>().ok()` gives.
pub fn parse_i32(s: &Vec<char>) -> (r: Option<i32>)
    ensures
        r == parse_i32_spec(s@),
{
    match parse_bounded(s, i32::MIN as i128, i32::MAX as i128) {
        Some(v) => Some(v as i32),
        None => None,
    }
}

proof fn lemma_nat_digits(n: nat)
    ensures
        all_digits(nat_digits(n)),
        digits_value(nat_digits(n)) == n,
        nat_digits(n).len() > 0,
    decreases n,
{
    let s = nat_digits(n);
    if n < 10 {
        assert(digits_value(s) == digits_value(s.drop_last()) * 10 + digit_value(s.last()));
        assert(s.drop_last() =~= Seq::<char>::empty());
    } else {
        lemma_nat_digits(n / 10);
        let p = nat_digits(n / 10);
        assert(s.drop_last() =~= p);
        assert(all_digits(s)) by {
            assert forall|k: int| 0 <= k < s.len() implies is_digit(#[trigger] s[k]) by {
                if k < p.len() {
                    assert(s[k] == p[k]);
                }
            }
        }
    }
}

/// Reading back an `i64` written in decimal gives the same number.
pub proof fn lemma_decimal_parse_i64(n: i64)
    ensures
        parse_i64_spec(decimal(n as int)) == Some(n),
{
    lemma_decimal_literal(n as int);
}

/// Reading back an `i32` written in decimal gives the same number.
pub proof fn lemma_decimal_parse_i32(n: i32)
    ensures
        parse_i32_spec(decimal(n as int)) == Some(n),
{
    lemma_decimal_literal(n as int);
}

/// Decimal text spells the number it was written from.
pub proof fn lemma_decimal_literal(n: int)
    ensures
        int_literal(decimal(n)) == Some(n),
{
    if n < 0 {
        let m = (-n) as nat;
        lemma_nat_digits(m);
        let s = decimal(n);
        assert(s.drop_first() =~= nat_digits(m));
    } else {
        lemma_nat_digits(n as nat);
        assert(is_digit(nat_digits(n as nat)[0]));
    }
}

/// Decimal text is a single line with no `'\r'`.
pub proof fn lemma_decimal_plain(n: int)
    ensures
        forall|i: int| 0 <= i < decimal(n).len() ==> (#[trigger] decimal(n)[i] != '\n' && decimal(n)[i] != '\r'),
{
    if n < 0 {
        lemma_nat_digits((-n) as nat);
        assert forall|i: int| 0 <= i < decimal(n).len() implies (#[trigger] decimal(n)[i] != '\n' && decimal(n)[i] != '\r') by {
            if i > 0 {
                assert(decimal(n)[i] == nat_digits((-n) as nat)[i - 1]);
                assert(is_digit(nat_digits((-n) as nat)[i - 1]));
            }
        }
    } else {
        lemma_nat_digits(n as nat);
        assert forall|i: int| 0 <= i < decimal(n).len() implies (#[trigger] decimal(n)[i] != '\n' && decimal(n)[i] != '\r') by {
            assert(is_digit(nat_digits(n as nat)[i]));
        }
    }
}

} // verus!
