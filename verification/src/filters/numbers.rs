//! Decimal integers as text: the parsing and zero-padded printing that
//! brace ranges use.

use vstd::prelude::*;

verus! {

pub open spec fn is_digit(c: char) -> bool {
    '0' <= c && c <= '9'
}

pub open spec fn digit_value(c: char) -> int {
    (c as u32) - ('0' as u32)
}

/// The value of a run of decimal digits.
pub open spec fn digits_value(s: Seq<char>) -> int
    decreases s.len(),
{
    if s.len() == 0 {
        0
    } else {
        digits_value(s.drop_last()) * 10 + digit_value(s.last())
    }
}

pub open spec fn all_digits(s: Seq<char>) -> bool {
    forall|i: int| 0 <= i < s.len() ==> is_digit(#[trigger] s[i])
}

/// The integer `s` spells, as `str::parse` reads it: an optional sign (`-`
/// only when `signed`), then one or more decimal digits. The range of the
/// target type is checked by the caller.
pub open spec fn parse_int(s: Seq<char>, signed: bool) -> Option<int> {
    if s.len() > 0 && s[0] == '+' {
        if s.len() > 1 && all_digits(s.drop_first()) {
            Some(digits_value(s.drop_first()))
        } else {
            None
        }
    } else if s.len() > 0 && s[0] == '-' && signed {
        if s.len() > 1 && all_digits(s.drop_first()) {
            Some(-digits_value(s.drop_first()))
        } else {
            None
        }
    } else if s.len() > 0 && all_digits(s) {
        Some(digits_value(s))
    } else {
        None
    }
}

/// `s` read as an `i64`, as `i64::from_str` does.
pub open spec fn parse_i64(s: Seq<char>) -> Option<int> {
    match parse_int(s, true) {
        Some(v) => if i64::MIN <= v <= i64::MAX {
            Some(v)
        } else {
            None
        },
        None => None,
    }
}

/// `s` read as a `u32`, as `u32::from_str` does.
pub open spec fn parse_u32(s: Seq<char>) -> Option<int> {
    match parse_int(s, false) {
        Some(v) => if v <= u32::MAX {
            Some(v)
        } else {
            None
        },
        None => None,
    }
}

/// The decimal digits of `n`, without leading zeros (`0` for zero).
pub open spec fn decimal(n: nat) -> Seq<char>
    decreases n,
{
    if n < 10 {
        seq![(('0' as u32) + n) as char]
    } else {
        decimal(n / 10).push((('0' as u32) + n % 10) as char)
    }
}

/// `n` zeros.
pub open spec fn zeros(n: nat) -> Seq<char> {
    Seq::new(n, |i: int| '0')
}

/// `v` printed as `format!("{:0width$}", v)` prints it: the sign, then the
/// digits padded with zeros to `width` characters in all.
pub open spec fn format_padded(v: int, width: nat) -> Seq<char> {
    let sign: Seq<char> = if v < 0 {
        seq!['-']
    } else {
        Seq::empty()
    };
    let d = decimal(if v < 0 {
        (-v) as nat
    } else {
        v as nat
    });
    let pad: nat = if sign.len() + d.len() < width {
        (width - sign.len() - d.len()) as nat
    } else {
        0
    };
    sign + zeros(pad) + d
}

/// Reads a run of decimal digits from `s[from..to]` as long as the value
/// stays below `limit`.
fn read_digits(s: &[char], from: usize, to: usize, limit: u64) -> (r: Option<u64>)
    requires
        from <= to <= s@.len(),
        all_digits(s@.subrange(from as int, to as int)),
    ensures
        match r {
            Some(v) => v == digits_value(s@.subrange(from as int, to as int)) && v <= limit,
            None => digits_value(s@.subrange(from as int, to as int)) > limit,
        },
{
    let mut v: u64 = 0;
    let mut i = from;
    while i < to
        invariant
            from <= i <= to <= s@.len(),
            all_digits(s@.subrange(from as int, to as int)),
            v == digits_value(s@.subrange(from as int, i as int)),
            v <= limit,
        decreases to - i,
    {
        let c = s[i];
        proof {
            assert(s@.subrange(from as int, to as int)[i - from] == c);
            assert(s@.subrange(from as int, i + 1).drop_last() =~= s@.subrange(from as int, i as int));
            lemma_digits_value_monotone(s@.subrange(from as int, to as int), (i + 1 - from) as nat);
            assert(s@.subrange(from as int, to as int).take(i + 1 - from) =~= s@.subrange(
                from as int,
                i + 1,
            ));
        }
        let d = (c as u32 - '0' as u32) as u64;
        if d > limit || v > (limit - d) / 10 {
            proof {
                assert(digits_value(s@.subrange(from as int, i + 1)) == v * 10 + d) by {
                    assert(s@.subrange(from as int, i + 1).last() == c);
                }
                if d <= limit {
                    assert(v * 10 + d > limit) by (nonlinear_arith)
                        requires
                            v > (limit - d) / 10,
                            d <= limit,
                    ;
                }
            }
            return None;
        }
        v = v * 10 + d;
        proof {
            assert(s@.subrange(from as int, i + 1).last() == c);
        }
        i = i + 1;
    }
    Some(v)
}

proof fn lemma_digits_value_monotone(s: Seq<char>, n: nat)
    requires
        n <= s.len(),
        all_digits(s),
    ensures
        digits_value(s.take(n as int)) <= digits_value(s),
        0 <= digits_value(s.take(n as int)),
    decreases s.len(),
{
    if n < s.len() {
        assert(s.drop_last().take(n as int) =~= s.take(n as int));
        assert forall|i: int| 0 <= i < s.drop_last().len() implies is_digit(
            #[trigger] s.drop_last()[i],
        ) by {
            assert(s.drop_last()[i] == s[i]);
        }
        lemma_digits_value_monotone(s.drop_last(), n);
        assert(is_digit(s[s.len() - 1]));
        lemma_digits_value_nonneg(s.drop_last());
    } else {
        assert(s.take(n as int) =~= s);
        lemma_digits_value_nonneg(s);
    }
}

proof fn lemma_digits_value_nonneg(s: Seq<char>)
    requires
        all_digits(s),
    ensures
        digits_value(s) >= 0,
    decreases s.len(),
{
    if s.len() > 0 {
        assert forall|i: int| 0 <= i < s.drop_last().len() implies is_digit(
            #[trigger] s.drop_last()[i],
        ) by {
            assert(s.drop_last()[i] == s[i]);
        }
        lemma_digits_value_nonneg(s.drop_last());
        assert(is_digit(s[s.len() - 1]));
    }
}

fn all_digits_exec(s: &[char], from: usize) -> (r: bool)
    requires
        from <= s@.len(),
    ensures
        r == all_digits(s@.subrange(from as int, s@.len() as int)),
{
    let mut i = from;
    while i < s.len()
        invariant
            from <= i <= s@.len(),
            forall|j: int| from <= j < i ==> is_digit(#[trigger] s@[j]),
        decreases s@.len() - i,
    {
        if !('0' <= s[i] && s[i] <= '9') {
            assert(!is_digit(s@.subrange(from as int, s@.len() as int)[i - from]));
            return false;
        }
        i = i + 1;
    }
    assert forall|j: int| 0 <= j < s@.len() - from implies is_digit(
        #[trigger] s@.subrange(from as int, s@.len() as int)[j],
    ) by {
        assert(s@.subrange(from as int, s@.len() as int)[j] == s@[from + j]);
    }
    true
}

/// `s` read as an `i64`, as `i64::from_str` reads it.
pub fn parse_i64_exec(s: &[char]) -> (r: Option<i64>)
    ensures
        match r {
            Some(v) => parse_i64(s@) == Some(v as int),
            None => parse_i64(s@) is None,
        },
{
    let n = s.len();
    if n > 0 && (s[0] == '+' || s[0] == '-') {
        proof {
            assert(s@.drop_first() =~= s@.subrange(1, n as int));
        }
        if n == 1 || !all_digits_exec(s, 1) {
            return None;
        }
        if s[0] == '-' {
            match read_digits(s, 1, n, 0x8000_0000_0000_0000u64) {
                Some(v) => {
                    if v == 0x8000_0000_0000_0000u64 {
                        Some(i64::MIN)
                    } else {
                        Some(-(v as i64))
                    }
                },
                None => None,
            }
        } else {
            match read_digits(s, 1, n, 0x7FFF_FFFF_FFFF_FFFFu64) {
                Some(v) => Some(v as i64),
                None => None,
            }
        }
    } else {
        proof {
            assert(s@.subrange(0, n as int) =~= s@);
        }
        if n == 0 || !all_digits_exec(s, 0) {
            return None;
        }
        match read_digits(s, 0, n, 0x7FFF_FFFF_FFFF_FFFFu64) {
            Some(v) => Some(v as i64),
            None => None,
        }
    }
}

/// `s` read as a `u32`, as `u32::from_str` reads it.
pub fn parse_u32_exec(s: &[char]) -> (r: Option<u32>)
    ensures
        match r {
            Some(v) => parse_u32(s@) == Some(v as int),
            None => parse_u32(s@) is None,
        },
{
    let n = s.len();
    if n > 0 && s[0] == '+' {
        proof {
            assert(s@.drop_first() =~= s@.subrange(1, n as int));
        }
        if n == 1 || !all_digits_exec(s, 1) {
            return None;
        }
        match read_digits(s, 1, n, 0xFFFF_FFFFu64) {
            Some(v) => Some(v as u32),
            None => None,
        }
    } else {
        proof {
            assert(s@.subrange(0, n as int) =~= s@);
            if n > 0 && s@[0] == '-' {
                assert(!is_digit(s@[0]));
            }
        }
        if n == 0 || !all_digits_exec(s, 0) {
            return None;
        }
        match read_digits(s, 0, n, 0xFFFF_FFFFu64) {
            Some(v) => Some(v as u32),
            None => None,
        }
    }
}

/// The decimal digits of `n`.
pub fn decimal_exec(n: u64) -> (r: Vec<char>)
    ensures
        r@ == decimal(n as nat),
    decreases n,
{
    if n < 10 {
        let mut v: Vec<char> = Vec::new();
        v.push(((('0' as u32) + n as u32) as u8) as char);
        proof {
            assert(v@ =~= decimal(n as nat));
        }
        v
    } else {
        let mut v = decimal_exec(n / 10);
        v.push(((('0' as u32) + (n % 10) as u32) as u8) as char);
        v
    }
}

pub open spec fn pow10(k: nat) -> nat
    decreases k,
{
    if k == 0 {
        1
    } else {
        10 * pow10((k - 1) as nat)
    }
}

proof fn lemma_decimal_len(n: nat, k: nat)
    requires
        k >= 1,
        n < pow10(k),
    ensures
        decimal(n).len() <= k,
    decreases n,
{
    if n >= 10 {
        assert(k >= 2) by {
            if k == 1 {
                reveal_with_fuel(pow10, 2);
                assert(pow10(1) == 10);
            }
        }
        assert(n / 10 < pow10((k - 1) as nat));
        lemma_decimal_len(n / 10, (k - 1) as nat);
    }
}

/// `v` printed as `format!("{:0width$}", v)` prints it.
pub fn format_padded_exec(v: i64, width: usize) -> (r: Vec<char>)
    ensures
        r@ == format_padded(v as int, width as nat),
{
    let mag: u64 = if v < 0 {
        if v == i64::MIN {
            0x8000_0000_0000_0000u64
        } else {
            (-v) as u64
        }
    } else {
        v as u64
    };
    let d = decimal_exec(mag);
    proof {
        assert(pow10(20) == 100_000_000_000_000_000_000nat) by {
            reveal_with_fuel(pow10, 21);
        }
        lemma_decimal_len(mag as nat, 20);
    }
    let mut out: Vec<char> = Vec::new();
    if v < 0 {
        out.push('-');
    }
    let used = out.len() + d.len();
    if used < width {
        let mut k: usize = 0;
        while k < width - used
            invariant
                k <= width - used,
                used < width,
                used == out@.len() - k + d@.len(),
                out@ == (if v < 0 {
                    seq!['-']
                } else {
                    Seq::<char>::empty()
                }) + zeros(k as nat),
            decreases width - used - k,
        {
            out.push('0');
            k = k + 1;
            proof {
                assert(out@ =~= (if v < 0 {
                    seq!['-']
                } else {
                    Seq::<char>::empty()
                }) + zeros(k as nat));
            }
        }
    } else {
        proof {
            assert(out@ =~= (if v < 0 {
                seq!['-']
            } else {
                Seq::<char>::empty()
            }) + zeros(0));
        }
    }
    super::text::push_chars(&mut out, &d);
    out
}

} // verus!
