//! Decimal digits and fixed-width numerals: the character-level ground the
//! timestamp parser and the snapshot codec are built on.

use vstd::prelude::*;
use vstd::string::*;

verus! {

/// Whether `c` is a decimal digit.
pub open spec fn is_digit(c: char) -> bool {
    48 <= c as u32 <= 57
}

/// The numeric value of a decimal digit.
pub open spec fn digit_val(c: char) -> nat {
    (c as u32 - 48) as nat
}

/// The decimal digit with value `d` (meaningful for `d < 10`).
pub open spec fn digit_char_spec(d: nat) -> char {
    if d == 0 { '0' }
    else if d == 1 { '1' }
    else if d == 2 { '2' }
    else if d == 3 { '3' }
    else if d == 4 { '4' }
    else if d == 5 { '5' }
    else if d == 6 { '6' }
    else if d == 7 { '7' }
    else if d == 8 { '8' }
    else { '9' }
}

pub open spec fn pow10(w: nat) -> nat
    decreases w,
{
    if w == 0 { 1 } else { 10 * pow10((w - 1) as nat) }
}

/// `n` written as exactly `w` decimal digits, most significant first
/// (meaningful for `n < pow10(w)`).
pub open spec fn enc_fixed(n: nat, w: nat) -> Seq<char>
    decreases w,
{
    if w == 0 {
        Seq::empty()
    } else {
        enc_fixed(n / 10, (w - 1) as nat).push(digit_char_spec(n % 10))
    }
}

/// Whether `s` holds `w` decimal digits starting at index `i`.
pub open spec fn digits_at(s: Seq<char>, i: int, w: nat) -> bool {
    &&& 0 <= i
    &&& i + w <= s.len()
    &&& forall|j: int| 0 <= j < w ==> is_digit(#[trigger] s[i + j])
}

/// The value of the `w` digits of `s` starting at index `i`.
pub open spec fn dec_fixed(s: Seq<char>, i: int, w: nat) -> nat
    decreases w,
{
    if w == 0 {
        0
    } else {
        dec_fixed(s, i, (w - 1) as nat) * 10 + digit_val(s[i + w - 1])
    }
}

pub proof fn lemma_pow10_monotone(a: nat, b: nat)
    requires
        a <= b,
    ensures
        pow10(a) <= pow10(b),
    decreases b,
{
    if a < b {
        lemma_pow10_monotone(a, (b - 1) as nat);
    }
}

pub proof fn lemma_enc_fixed_len(n: nat, w: nat)
    ensures
        enc_fixed(n, w).len() == w,
    decreases w,
{
    if w > 0 {
        lemma_enc_fixed_len(n / 10, (w - 1) as nat);
    }
}

pub proof fn lemma_dec_fixed_bound(s: Seq<char>, i: int, w: nat)
    requires
        digits_at(s, i, w),
    ensures
        dec_fixed(s, i, w) < pow10(w),
    decreases w,
{
    if w > 0 {
        assert(digits_at(s, i, (w - 1) as nat));
        lemma_dec_fixed_bound(s, i, (w - 1) as nat);
        assert(is_digit(s[i + (w - 1)]));
        assert(digit_val(s[i + w - 1]) <= 9);
    }
}

/// Reading back the fixed-width digits of `n` yields `n`.
pub proof fn lemma_enc_dec_fixed(n: nat, w: nat, s: Seq<char>, i: int)
    requires
        n < pow10(w),
        0 <= i,
        i + w <= s.len(),
        s.subrange(i, i + w) == enc_fixed(n, w),
    ensures
        digits_at(s, i, w),
        dec_fixed(s, i, w) == n,
    decreases w,
{
    lemma_enc_fixed_len(n, w);
    if w == 0 {
        assert(n == 0);
    } else {
        let w1 = (w - 1) as nat;
        let e = enc_fixed(n, w);
        let e1 = enc_fixed(n / 10, w1);
        lemma_enc_fixed_len(n / 10, w1);
        assert(e == e1.push(digit_char_spec(n % 10)));
        assert(s.subrange(i, i + w1) =~= e1) by {
            assert(forall|j: int| 0 <= j < w1 ==> s.subrange(i, i + w)[j] == #[trigger] s.subrange(
                i,
                i + w1,
            )[j]);
        }
        assert(n / 10 < pow10(w1)) by (nonlinear_arith)
            requires
                n < 10 * pow10(w1),
        ;
        lemma_enc_dec_fixed(n / 10, w1, s, i);
        assert(s[i + w - 1] == e[w - 1]);
        assert(e[w - 1] == digit_char_spec(n % 10));
        assert(is_digit(digit_char_spec(n % 10)) && digit_val(digit_char_spec(n % 10)) == n % 10);
        assert(digits_at(s, i, w)) by {
            assert(forall|j: int| 0 <= j < w1 ==> is_digit(#[trigger] s[i + j]));
        }
        assert(dec_fixed(s, i, w) == (n / 10) * 10 + n % 10);
    }
}

/// The decimal digit with value `d`.
pub fn digit_char(d: u8) -> (c: char)
    requires
        d < 10,
    ensures
        c == digit_char_spec(d as nat),
{
    match d {
        0 => '0',
        1 => '1',
        2 => '2',
        3 => '3',
        4 => '4',
        5 => '5',
        6 => '6',
        7 => '7',
        8 => '8',
        _ => '9',
    }
}

/// The value of `c` when it is a decimal digit.
pub fn char_digit(c: char) -> (r: Option<u8>)
    ensures
        r == if is_digit(c) { Some(digit_val(c) as u8) } else { None::<u8> },
{
    let u = c as u32;
    if 48 <= u && u <= 57 {
        Some((u - 48) as u8)
    } else {
        None
    }
}

/// Appends `n` as exactly `w` decimal digits, most significant first.
pub fn push_fixed(out: &mut Vec<char>, n: u64, w: u8)
    requires
        (n as nat) < pow10(w as nat),
    ensures
        final(out)@ == old(out)@ + enc_fixed(n as nat, w as nat),
    decreases w,
{
    if w == 0 {
        assert(out@ + enc_fixed(n as nat, 0) =~= out@);
    } else {
        proof {
            assert(n as nat / 10 < pow10((w - 1) as nat)) by (nonlinear_arith)
                requires
                    (n as nat) < 10 * pow10((w - 1) as nat),
            ;
        }
        push_fixed(out, n / 10, w - 1);
        out.push(digit_char((n % 10) as u8));
        assert(out@ =~= old(out)@ + enc_fixed(n as nat, w as nat));
    }
}

/// Reads exactly `w` decimal digits of `s` starting at `i`.
pub fn read_fixed(s: &Vec<char>, i: usize, w: u8) -> (r: Option<(u64, usize)>)
    requires
        w <= 20,
    ensures
        match r {
            Some(p) => {
                &&& digits_at(s@, i as int, w as nat)
                &&& dec_fixed(s@, i as int, w as nat) <= u64::MAX
                &&& p.0 as nat == dec_fixed(s@, i as int, w as nat)
                &&& p.1 == i + w
            },
            None => !digits_at(s@, i as int, w as nat) || dec_fixed(s@, i as int, w as nat)
                > u64::MAX,
        },
{
    proof {
        reveal_with_fuel(pow10, 21);
        assert(pow10(20) == 100000000000000000000);
    }
    let n = s.len();
    if i > n || w as usize > n - i {
        return None;
    }
    let mut acc: u128 = 0;
    let mut j: usize = 0;
    while j < w as usize
        invariant
            0 <= j <= w <= 20,
            n == s@.len(),
            i + w <= n,
            digits_at(s@, i as int, j as nat),
            acc as nat == dec_fixed(s@, i as int, j as nat),
            acc < pow10(j as nat),
            pow10(20) == 100000000000000000000,
        decreases w as int - j,
    {
        let c = s[i + j];
        match char_digit(c) {
            None => {
                assert(!is_digit(s@[i + j as int]));
                assert(!digits_at(s@, i as int, w as nat));
                return None;
            },
            Some(d) => {
                proof {
                    lemma_pow10_monotone((j + 1) as nat, 20);
                }
                acc = acc * 10 + d as u128;
            },
        }
        j += 1;
        assert(digits_at(s@, i as int, j as nat));
    }
    if acc > u64::MAX as u128 {
        None
    } else {
        Some((acc as u64, i + w as usize))
    }
}

/// The characters of `s`, in order.
pub fn chars_of(s: &str) -> (r: Vec<char>)
    ensures
        r@ == s@,
{
    let n = s.unicode_len();
    let mut r: Vec<char> = Vec::new();
    let mut i: usize = 0;
    while i < n
        invariant
            n == s@.len(),
            i <= n,
            r@ == s@.subrange(0, i as int),
        decreases n - i,
    {
        r.push(s.get_char(i));
        assert(r@ =~= s@.subrange(0, i + 1));
        i += 1;
    }
    assert(r@ =~= s@);
    r
}

} // verus!
