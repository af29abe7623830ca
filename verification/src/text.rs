//! Byte-level text utilities: decimal numerals, UTF-8 validity, and the
//! grammar of floating-point numerals.
//!
//! The wire codec works on raw bytes; numeric fields are carried as the
//! exact numeral text so that re-encoding reproduces the datagram byte for
//! byte.

use vstd::prelude::*;

verus! {

/// ASCII decimal digit.
pub open spec fn is_digit(b: u8) -> bool {
    0x30 <= b <= 0x39
}

/// Decimal numeral of `n`, most significant digit first, no sign and no
/// leading zeros (`0` itself is the single digit `0`).
pub open spec fn dec_of(n: nat) -> Seq<u8>
    decreases n,
{
    if n < 10 {
        seq![(n + 0x30) as u8]
    } else {
        dec_of(n / 10) + seq![((n % 10) + 0x30) as u8]
    }
}

/// Value of a digit string, most significant digit first.
pub open spec fn digits_val(s: Seq<u8>) -> nat
    decreases s.len(),
{
    if s.len() == 0 {
        0
    } else {
        digits_val(s.drop_last()) * 10 + (s.last() - 0x30) as nat
    }
}

pub open spec fn all_digits(s: Seq<u8>) -> bool {
    forall|i: int| 0 <= i < s.len() ==> is_digit(s[i])
}

pub proof fn lemma_dec_of_digits(n: nat)
    ensures
        dec_of(n).len() >= 1,
        all_digits(dec_of(n)),
        digits_val(dec_of(n)) == n,
    decreases n,
{
    if n < 10 {
        assert(dec_of(n).drop_last() =~= Seq::<u8>::empty());
        assert(dec_of(n).last() == (n + 0x30) as u8);
        assert((n + 0x30) as u8 == n + 0x30);
        assert(digits_val(dec_of(n)) == digits_val(dec_of(n).drop_last()) * 10 + (dec_of(n).last()
            - 0x30) as nat);
        assert(digits_val(dec_of(n).drop_last()) == 0);
        assert(digits_val(dec_of(n)) == n);
    } else {
        lemma_dec_of_digits(n / 10);
        let d = dec_of(n / 10);
        let last = ((n % 10) + 0x30) as u8;
        assert(dec_of(n).drop_last() =~= d);
        assert(dec_of(n).last() == last);
        assert(digits_val(dec_of(n)) == n / 10 * 10 + n % 10);
        assert(n / 10 * 10 + n % 10 == n) by (nonlinear_arith);
        assert forall|i: int| 0 <= i < dec_of(n).len() implies is_digit(dec_of(n)[i]) by {
            if i < d.len() {
                assert(dec_of(n)[i] == d[i]);
            } else {
                assert(dec_of(n)[i] == last);
            }
        }
    }
}

/// Digit strings hold digits only; in particular no separator bytes.
pub proof fn lemma_dec_of_no_byte(n: nat, b: u8)
    requires
        !is_digit(b),
    ensures
        !dec_of(n).contains(b),
{
    lemma_dec_of_digits(n);
    if dec_of(n).contains(b) {
        let i = choose|i: int| 0 <= i < dec_of(n).len() && dec_of(n)[i] == b;
        assert(is_digit(dec_of(n)[i]));
    }
}

/// Format an unsigned value as its decimal numeral.
pub fn format_u64(n: u64) -> (r: Vec<u8>)
    ensures
        r@ == dec_of(n as nat),
{
    let mut rev: Vec<u8> = Vec::new();
    let mut m: u64 = n;
    proof {
        assert(dec_of(n as nat) =~= dec_of(n as nat) + rev@.reverse());
    }
    loop
        invariant_except_break
            dec_of(n as nat) == dec_of(m as nat) + rev@.reverse(),
        ensures
            dec_of(n as nat) == rev@.reverse(),
        decreases m,
    {
        let ghost old_rev = rev@;
        let d: u8 = (m % 10) as u8 + 0x30;
        rev.push(d);
        proof {
            assert(rev@ =~= old_rev + seq![d]);
            assert(rev@.reverse() =~= seq![d] + old_rev.reverse());
        }
        if m < 10 {
            proof {
                assert(dec_of(m as nat) =~= seq![d]);
                assert(dec_of(m as nat) + old_rev.reverse() =~= rev@.reverse());
            }
            break ;
        }
        proof {
            assert(dec_of(m as nat) =~= dec_of(m as nat / 10) + seq![d]);
            assert(dec_of(m as nat / 10) + rev@.reverse() =~= (dec_of(m as nat / 10) + seq![d])
                + old_rev.reverse());
        }
        m = m / 10;
    }
    let mut r: Vec<u8> = Vec::new();
    let mut i: usize = rev.len();
    proof {
        assert(rev@.subrange(i as int, rev@.len() as int).reverse() =~= Seq::<u8>::empty());
    }
    while i > 0
        invariant
            i <= rev.len(),
            r@ == rev@.subrange(i as int, rev@.len() as int).reverse(),
        decreases i,
    {
        i = i - 1;
        let b = rev[i];
        proof {
            assert(rev@.subrange(i as int, rev@.len() as int) =~= seq![b] + rev@.subrange(
                i + 1,
                rev@.len() as int,
            ));
            assert(rev@.subrange(i as int, rev@.len() as int).reverse() =~= rev@.subrange(
                i + 1,
                rev@.len() as int,
            ).reverse() + seq![b]);
        }
        r.push(b);
    }
    proof {
        assert(rev@.subrange(0, rev@.len() as int) =~= rev@);
    }
    r
}

/// Strings accepted by an unsigned decimal parser: an optional `+` sign,
/// then at least one digit.
pub open spec fn strip_plus(s: Seq<u8>) -> Seq<u8> {
    if s.len() > 0 && s[0] == 0x2b {
        s.skip(1)
    } else {
        s
    }
}

pub open spec fn unsigned_numeral(s: Seq<u8>, bound: nat) -> bool {
    let t = strip_plus(s);
    t.len() > 0 && all_digits(t) && digits_val(t) <= bound
}

pub open spec fn unsigned_numeral_val(s: Seq<u8>) -> nat {
    digits_val(strip_plus(s))
}

/// The value of a digit string never shrinks as more digits are read.
proof fn lemma_digits_val_prefix_mono(s: Seq<u8>, j: int)
    requires
        0 <= j <= s.len(),
    ensures
        digits_val(s.take(j)) <= digits_val(s),
    decreases s.len() - j,
{
    if j < s.len() {
        assert(s.take(j + 1).drop_last() =~= s.take(j));
        assert(digits_val(s.take(j + 1)) == digits_val(s.take(j)) * 10 + (s.take(j + 1).last()
            - 0x30) as nat);
        lemma_digits_val_prefix_mono(s, j + 1);
    } else {
        assert(s.take(j) =~= s);
    }
}

/// Parse the digit run `s[start..]` as an unsigned value, refusing values
/// above `bound`.
fn parse_mag(s: &[u8], start: usize, bound: u64) -> (r: Option<u64>)
    requires
        start <= s@.len(),
        9 <= bound <= 0x8000_0000_0000_0000,
    ensures
        ({
            let t = s@.skip(start as int);
            match r {
                Some(v) => t.len() > 0 && all_digits(t) && digits_val(t) <= bound && v
                    == digits_val(t),
                None => !(t.len() > 0 && all_digits(t) && digits_val(t) <= bound),
            }
        }),
{
    let ghost t = s@.skip(start as int);
    if start == s.len() {
        return None;
    }
    let mut acc: u64 = 0;
    let mut i: usize = start;
    while i < s.len()
        invariant
            start <= i <= s@.len(),
            start < s@.len(),
            9 <= bound <= 0x8000_0000_0000_0000,
            t == s@.skip(start as int),
            acc == digits_val(t.take(i - start)),
            all_digits(t.take(i - start)),
            acc <= bound,
        decreases s@.len() - i,
    {
        let b = s[i];
        proof {
            assert(t[i - start] == s@[i as int]);
            assert(t.take(i - start + 1).drop_last() =~= t.take(i - start));
            assert(t.take(i - start + 1).last() == t[i - start]);
        }
        if b < 0x30 || b > 0x39 {
            proof {
                assert(!is_digit(t[i - start]));
            }
            return None;
        }
        let d: u64 = (b - 0x30) as u64;
        if acc > bound / 10 {
            proof {
                assert(acc * 10 + d > bound) by (nonlinear_arith)
                    requires
                        acc > bound / 10,
                        d >= 0,
                ;
                assert(digits_val(t.take(i - start + 1)) == acc * 10 + d);
                lemma_digits_val_prefix_mono(t, i - start + 1);
            }
            return None;
        }
        proof {
            assert(acc * 10 <= bound) by (nonlinear_arith)
                requires
                    acc <= bound / 10,
            ;
        }
        if acc * 10 > bound - d {
            proof {
                assert(digits_val(t.take(i - start + 1)) == acc * 10 + d);
                lemma_digits_val_prefix_mono(t, i - start + 1);
            }
            return None;
        }
        acc = acc * 10 + d;
        i = i + 1;
    }
    proof {
        assert(t.take(i - start) =~= t);
    }
    Some(acc)
}

/// Parse an unsigned 32-bit decimal numeral (optional leading `+`).
pub fn parse_u32(s: &[u8]) -> (r: Option<u32>)
    ensures
        r is Some <==> unsigned_numeral(s@, u32::MAX as nat),
        r is Some ==> r->0 == unsigned_numeral_val(s@),
{
    let start: usize = if s.len() > 0 && s[0] == 0x2b {
        1
    } else {
        0
    };
    proof {
        assert(strip_plus(s@) == s@.skip(start as int));
    }
    match parse_mag(s, start, 0xffff_ffff) {
        Some(v) => Some(v as u32),
        None => None,
    }
}

/// Numerals accepted by a signed 32-bit decimal parser.
pub open spec fn i32_numeral(s: Seq<u8>) -> bool {
    if s.len() > 0 && s[0] == 0x2d {
        let t = s.skip(1);
        t.len() > 0 && all_digits(t) && digits_val(t) <= 0x8000_0000
    } else {
        unsigned_numeral(s, 0x7fff_ffff as nat)
    }
}

pub open spec fn i32_numeral_val(s: Seq<u8>) -> int {
    if s.len() > 0 && s[0] == 0x2d {
        -(digits_val(s.skip(1)) as int)
    } else {
        unsigned_numeral_val(s) as int
    }
}

/// Parse a signed 32-bit decimal numeral (optional `+` or `-`).
pub fn parse_i32(s: &[u8]) -> (r: Option<i32>)
    ensures
        r is Some <==> i32_numeral(s@),
        r is Some ==> r->0 as int == i32_numeral_val(s@),
{
    if s.len() > 0 && s[0] == 0x2d {
        match parse_mag(s, 1, 0x8000_0000) {
            Some(v) => Some((-(v as i64)) as i32),
            None => None,
        }
    } else {
        let start: usize = if s.len() > 0 && s[0] == 0x2b {
            1
        } else {
            0
        };
        proof {
            assert(strip_plus(s@) == s@.skip(start as int));
        }
        match parse_mag(s, start, 0x7fff_ffff) {
            Some(v) => Some(v as i32),
            None => None,
        }
    }
}

/// Decimal numeral of a signed value: `-` then the magnitude, or the plain
/// magnitude.
pub open spec fn dec_of_i32(v: int) -> Seq<u8> {
    if v < 0 {
        seq![0x2du8] + dec_of((-v) as nat)
    } else {
        dec_of(v as nat)
    }
}

pub fn format_u32(n: u32) -> (r: Vec<u8>)
    ensures
        r@ == dec_of(n as nat),
{
    format_u64(n as u64)
}

pub fn format_i32(v: i32) -> (r: Vec<u8>)
    ensures
        r@ == dec_of_i32(v as int),
{
    if v < 0 {
        let mag: u64 = (-(v as i64)) as u64;
        let digits = format_u64(mag);
        let mut r: Vec<u8> = Vec::new();
        r.push(0x2d);
        let mut i: usize = 0;
        while i < digits.len()
            invariant
                i <= digits@.len(),
                r@ == seq![0x2du8] + digits@.take(i as int),
            decreases digits@.len() - i,
        {
            proof {
                assert(seq![0x2du8] + digits@.take(i + 1) =~= (seq![0x2du8] + digits@.take(
                    i as int,
                )).push(digits@[i as int]));
            }
            let b = digits[i];
            r.push(b);
            i = i + 1;
        }
        proof {
            assert(digits@.take(digits@.len() as int) =~= digits@);
        }
        r
    } else {
        format_u64(v as u64)
    }
}

/// An emitted unsigned numeral parses back to the same value.
pub proof fn lemma_u32_numeral_roundtrip(n: u32)
    ensures
        unsigned_numeral(dec_of(n as nat), u32::MAX as nat),
        unsigned_numeral_val(dec_of(n as nat)) == n,
{
    lemma_dec_of_digits(n as nat);
    assert(dec_of(n as nat)[0] != 0x2b);
    assert(strip_plus(dec_of(n as nat)) == dec_of(n as nat));
}

/// UTF-8 continuation byte.
pub open spec fn is_cont(b: u8) -> bool {
    0x80 <= b <= 0xbf
}

/// Strict UTF-8 validity of a byte string (surrogates and overlong forms
/// excluded), as the decoder demands of a datagram.
pub open spec fn is_utf8(s: Seq<u8>) -> bool
    decreases s.len(),
{
    if s.len() == 0 {
        true
    } else {
        let b0 = s[0];
        if b0 < 0x80 {
            is_utf8(s.skip(1))
        } else if 0xc2 <= b0 <= 0xdf {
            s.len() >= 2 && is_cont(s[1]) && is_utf8(s.skip(2))
        } else if b0 == 0xe0 {
            s.len() >= 3 && 0xa0 <= s[1] <= 0xbf && is_cont(s[2]) && is_utf8(s.skip(3))
        } else if 0xe1 <= b0 <= 0xec || b0 == 0xee || b0 == 0xef {
            s.len() >= 3 && is_cont(s[1]) && is_cont(s[2]) && is_utf8(s.skip(3))
        } else if b0 == 0xed {
            s.len() >= 3 && 0x80 <= s[1] <= 0x9f && is_cont(s[2]) && is_utf8(s.skip(3))
        } else if b0 == 0xf0 {
            s.len() >= 4 && 0x90 <= s[1] <= 0xbf && is_cont(s[2]) && is_cont(s[3]) && is_utf8(
                s.skip(4),
            )
        } else if 0xf1 <= b0 <= 0xf3 {
            s.len() >= 4 && is_cont(s[1]) && is_cont(s[2]) && is_cont(s[3]) && is_utf8(s.skip(4))
        } else if b0 == 0xf4 {
            s.len() >= 4 && 0x80 <= s[1] <= 0x8f && is_cont(s[2]) && is_cont(s[3]) && is_utf8(
                s.skip(4),
            )
        } else {
            false
        }
    }
}

/// ASCII strings are valid UTF-8.
pub proof fn lemma_ascii_is_utf8(s: Seq<u8>)
    requires
        forall|i: int| 0 <= i < s.len() ==> s[i] < 0x80,
    ensures
        is_utf8(s),
    decreases s.len(),
{
    if s.len() > 0 {
        lemma_ascii_is_utf8(s.skip(1));
    }
}

/// Concatenating valid UTF-8 strings yields a valid UTF-8 string.
pub proof fn lemma_utf8_concat(a: Seq<u8>, b: Seq<u8>)
    requires
        is_utf8(a),
        is_utf8(b),
    ensures
        is_utf8(a + b),
    decreases a.len(),
{
    if a.len() == 0 {
        assert(a + b =~= b);
    } else {
        let b0 = a[0];
        let k: int = if b0 < 0x80 {
            1
        } else if 0xc2 <= b0 <= 0xdf {
            2
        } else if 0xe0 <= b0 <= 0xef {
            3
        } else {
            4
        };
        assert((a + b).skip(k) =~= a.skip(k) + b);
        lemma_utf8_concat(a.skip(k), b);
    }
}

/// Check UTF-8 validity of a byte string.
pub fn check_utf8(s: &[u8]) -> (r: bool)
    ensures
        r == is_utf8(s@),
{
    let n = s.len();
    let mut i: usize = 0;
    proof {
        assert(s@.skip(0) =~= s@);
    }
    while i < n
        invariant
            i <= n,
            n == s@.len(),
            is_utf8(s@) == is_utf8(s@.skip(i as int)),
        decreases n - i,
    {
        let ghost t = s@.skip(i as int);
        let b0 = s[i];
        proof {
            assert(t[0] == s@[i as int]);
        }
        let k: usize;
        if b0 < 0x80 {
            k = 1;
        } else if 0xc2 <= b0 && b0 <= 0xdf {
            if i + 1 >= n || !(0x80 <= s[i + 1] && s[i + 1] <= 0xbf) {
                proof {
                    if t.len() >= 2 {
                        assert(t[1] == s@[i + 1]);
                    }
                }
                return false;
            }
            k = 2;
        } else if 0xe0 <= b0 && b0 <= 0xef {
            let lo: u8 = if b0 == 0xe0 {
                0xa0
            } else {
                0x80
            };
            let hi: u8 = if b0 == 0xed {
                0x9f
            } else {
                0xbf
            };
            if n - i < 3 || !(lo <= s[i + 1] && s[i + 1] <= hi) || !(0x80 <= s[i + 2] && s[i + 2]
                <= 0xbf) {
                proof {
                    if t.len() >= 2 {
                        assert(t[1] == s@[i + 1]);
                    }
                    if t.len() >= 3 {
                        assert(t[2] == s@[i + 2]);
                    }
                }
                return false;
            }
            k = 3;
        } else if 0xf0 <= b0 && b0 <= 0xf4 {
            let lo: u8 = if b0 == 0xf0 {
                0x90
            } else {
                0x80
            };
            let hi: u8 = if b0 == 0xf4 {
                0x8f
            } else {
                0xbf
            };
            if n - i < 4 || !(lo <= s[i + 1] && s[i + 1] <= hi) || !(0x80 <= s[i + 2] && s[i + 2]
                <= 0xbf) || !(0x80 <= s[i + 3] && s[i + 3] <= 0xbf) {
                proof {
                    if t.len() >= 2 {
                        assert(t[1] == s@[i + 1]);
                    }
                    if t.len() >= 3 {
                        assert(t[2] == s@[i + 2]);
                    }
                    if t.len() >= 4 {
                        assert(t[3] == s@[i + 3]);
                    }
                }
                return false;
            }
            k = 4;
        } else {
            return false;
        }
        proof {
            if t.len() >= 2 {
                assert(t[1] == s@[i + 1]);
            }
            if t.len() >= 3 {
                assert(t[2] == s@[i + 2]);
            }
            if t.len() >= 4 {
                assert(t[3] == s@[i + 3]);
            }
            assert(s@.skip(i as int).skip(k as int) =~= s@.skip(i + k));
        }
        i = i + k;
    }
    proof {
        assert(s@.skip(n as int) =~= Seq::<u8>::empty());
    }
    true
}

/// States of the floating-point numeral automaton, following the grammar
/// of Rust's `f64` parser: an optional sign, then `inf`, `infinity`, `nan`
/// (case-insensitive) or a decimal mantissa with an optional exponent.
#[derive(Clone, Copy, Debug, PartialEq, Eq)]
pub enum FloatSt {
    Start,
    Sign,
    Int,
    Dot,
    Frac,
    DotOnly,
    ExpStart,
    ExpSign,
    ExpDigit,
    WordI1,
    WordI2,
    Inf,
    WordI4,
    WordI5,
    WordI6,
    WordI7,
    Infinity,
    WordN1,
    WordN2,
    Nan,
    Bad,
}

pub open spec fn lc(b: u8) -> u8 {
    if 0x41 <= b <= 0x5a {
        (b + 0x20) as u8
    } else {
        b
    }
}

pub open spec fn fstep(st: FloatSt, b: u8) -> FloatSt {
    match st {
        FloatSt::Start | FloatSt::Sign => if is_digit(b) {
            FloatSt::Int
        } else if st == FloatSt::Start && (b == 0x2b || b == 0x2d) {
            FloatSt::Sign
        } else if b == 0x2e {
            FloatSt::DotOnly
        } else if lc(b) == 0x69 {
            FloatSt::WordI1
        } else if lc(b) == 0x6e {
            FloatSt::WordN1
        } else {
            FloatSt::Bad
        },
        FloatSt::Int => if is_digit(b) {
            FloatSt::Int
        } else if b == 0x2e {
            FloatSt::Dot
        } else if lc(b) == 0x65 {
            FloatSt::ExpStart
        } else {
            FloatSt::Bad
        },
        FloatSt::Dot | FloatSt::Frac => if is_digit(b) {
            FloatSt::Frac
        } else if lc(b) == 0x65 {
            FloatSt::ExpStart
        } else {
            FloatSt::Bad
        },
        FloatSt::DotOnly => if is_digit(b) {
            FloatSt::Frac
        } else {
            FloatSt::Bad
        },
        FloatSt::ExpStart => if is_digit(b) {
            FloatSt::ExpDigit
        } else if b == 0x2b || b == 0x2d {
            FloatSt::ExpSign
        } else {
            FloatSt::Bad
        },
        FloatSt::ExpSign | FloatSt::ExpDigit => if is_digit(b) {
            FloatSt::ExpDigit
        } else {
            FloatSt::Bad
        },
        FloatSt::WordI1 => if lc(b) == 0x6e {
            FloatSt::WordI2
        } else {
            FloatSt::Bad
        },
        FloatSt::WordI2 => if lc(b) == 0x66 {
            FloatSt::Inf
        } else {
            FloatSt::Bad
        },
        FloatSt::Inf => if lc(b) == 0x69 {
            FloatSt::WordI4
        } else {
            FloatSt::Bad
        },
        FloatSt::WordI4 => if lc(b) == 0x6e {
            FloatSt::WordI5
        } else {
            FloatSt::Bad
        },
        FloatSt::WordI5 => if lc(b) == 0x69 {
            FloatSt::WordI6
        } else {
            FloatSt::Bad
        },
        FloatSt::WordI6 => if lc(b) == 0x74 {
            FloatSt::WordI7
        } else {
            FloatSt::Bad
        },
        FloatSt::WordI7 => if lc(b) == 0x79 {
            FloatSt::Infinity
        } else {
            FloatSt::Bad
        },
        FloatSt::WordN1 => if lc(b) == 0x61 {
            FloatSt::WordN2
        } else {
            FloatSt::Bad
        },
        FloatSt::WordN2 => if lc(b) == 0x6e {
            FloatSt::Nan
        } else {
            FloatSt::Bad
        },
        _ => FloatSt::Bad,
    }
}

pub open spec fn faccept(st: FloatSt) -> bool {
    match st {
        FloatSt::Int | FloatSt::Dot | FloatSt::Frac | FloatSt::ExpDigit | FloatSt::Inf
            | FloatSt::Infinity | FloatSt::Nan => true,
        _ => false,
    }
}

pub open spec fn frun(st: FloatSt, s: Seq<u8>) -> FloatSt
    decreases s.len(),
{
    if s.len() == 0 {
        st
    } else {
        frun(fstep(st, s[0]), s.skip(1))
    }
}

/// A byte string that parses as a 64-bit float.
pub open spec fn float_text(s: Seq<u8>) -> bool {
    faccept(frun(FloatSt::Start, s))
}

proof fn lemma_frun_snoc(st: FloatSt, s: Seq<u8>, b: u8)
    ensures
        frun(st, s.push(b)) == fstep(frun(st, s), b),
    decreases s.len(),
{
    if s.len() == 0 {
        assert(s.push(b)[0] == b);
        assert(s.push(b).skip(1) =~= Seq::<u8>::empty());
        assert(frun(st, s.push(b)) == frun(fstep(st, b), Seq::<u8>::empty()));
        assert(frun(fstep(st, b), Seq::<u8>::empty()) == fstep(st, b));
        assert(frun(st, s) == st);
    } else {
        assert(s.push(b)[0] == s[0]);
        assert(s.push(b).skip(1) =~= s.skip(1).push(b));
        assert(frun(st, s.push(b)) == frun(fstep(st, s[0]), s.skip(1).push(b)));
        lemma_frun_snoc(fstep(st, s[0]), s.skip(1), b);
        assert(frun(st, s) == frun(fstep(st, s[0]), s.skip(1)));
    }
}

/// Check whether a byte string is a floating-point numeral.
pub fn is_float_text(s: &[u8]) -> (r: bool)
    ensures
        r == float_text(s@),
{
    let mut st = FloatSt::Start;
    let mut i: usize = 0;
    proof {
        assert(s@.take(0) =~= Seq::<u8>::empty());
    }
    while i < s.len()
        invariant
            i <= s@.len(),
            st == frun(FloatSt::Start, s@.take(i as int)),
        decreases s@.len() - i,
    {
        let b = s[i];
        let is_d = 0x30 <= b && b <= 0x39;
        let l: u8 = if 0x41 <= b && b <= 0x5a {
            b + 0x20
        } else {
            b
        };
        let next = match st {
            FloatSt::Start | FloatSt::Sign => {
                if is_d {
                    FloatSt::Int
                } else if matches!(st, FloatSt::Start) && (b == 0x2b || b == 0x2d) {
                    FloatSt::Sign
                } else if b == 0x2e {
                    FloatSt::DotOnly
                } else if l == 0x69 {
                    FloatSt::WordI1
                } else if l == 0x6e {
                    FloatSt::WordN1
                } else {
                    FloatSt::Bad
                }
            },
            FloatSt::Int => {
                if is_d {
                    FloatSt::Int
                } else if b == 0x2e {
                    FloatSt::Dot
                } else if l == 0x65 {
                    FloatSt::ExpStart
                } else {
                    FloatSt::Bad
                }
            },
            FloatSt::Dot | FloatSt::Frac => {
                if is_d {
                    FloatSt::Frac
                } else if l == 0x65 {
                    FloatSt::ExpStart
                } else {
                    FloatSt::Bad
                }
            },
            FloatSt::DotOnly => {
                if is_d {
                    FloatSt::Frac
                } else {
                    FloatSt::Bad
                }
            },
            FloatSt::ExpStart => {
                if is_d {
                    FloatSt::ExpDigit
                } else if b == 0x2b || b == 0x2d {
                    FloatSt::ExpSign
                } else {
                    FloatSt::Bad
                }
            },
            FloatSt::ExpSign | FloatSt::ExpDigit => {
                if is_d {
                    FloatSt::ExpDigit
                } else {
                    FloatSt::Bad
                }
            },
            FloatSt::WordI1 => {
                if l == 0x6e {
                    FloatSt::WordI2
                } else {
                    FloatSt::Bad
                }
            },
            FloatSt::WordI2 => {
                if l == 0x66 {
                    FloatSt::Inf
                } else {
                    FloatSt::Bad
                }
            },
            FloatSt::Inf => {
                if l == 0x69 {
                    FloatSt::WordI4
                } else {
                    FloatSt::Bad
                }
            },
            FloatSt::WordI4 => {
                if l == 0x6e {
                    FloatSt::WordI5
                } else {
                    FloatSt::Bad
                }
            },
            FloatSt::WordI5 => {
                if l == 0x69 {
                    FloatSt::WordI6
                } else {
                    FloatSt::Bad
                }
            },
            FloatSt::WordI6 => {
                if l == 0x74 {
                    FloatSt::WordI7
                } else {
                    FloatSt::Bad
                }
            },
            FloatSt::WordI7 => {
                if l == 0x79 {
                    FloatSt::Infinity
                } else {
                    FloatSt::Bad
                }
            },
            FloatSt::WordN1 => {
                if l == 0x61 {
                    FloatSt::WordN2
                } else {
                    FloatSt::Bad
                }
            },
            FloatSt::WordN2 => {
                if l == 0x6e {
                    FloatSt::Nan
                } else {
                    FloatSt::Bad
                }
            },
            _ => FloatSt::Bad,
        };
        proof {
            assert(next == fstep(st, b));
            assert(s@.take(i + 1) =~= s@.take(i as int).push(s@[i as int]));
            lemma_frun_snoc(FloatSt::Start, s@.take(i as int), s@[i as int]);
        }
        st = next;
        i = i + 1;
    }
    proof {
        assert(s@.take(s@.len() as int) =~= s@);
    }
    match st {
        FloatSt::Int | FloatSt::Dot | FloatSt::Frac | FloatSt::ExpDigit | FloatSt::Inf
            | FloatSt::Infinity | FloatSt::Nan => true,
        _ => false,
    }
}

/// The bytes a floating-point numeral may hold.
pub open spec fn float_byte(b: u8) -> bool {
    is_digit(b) || b == 0x2b || b == 0x2d || b == 0x2e || lc(b) == 0x65 || lc(b) == 0x69 || lc(b)
        == 0x6e || lc(b) == 0x66 || lc(b) == 0x61 || lc(b) == 0x74 || lc(b) == 0x79
}

proof fn lemma_frun_bad(s: Seq<u8>)
    ensures
        frun(FloatSt::Bad, s) == FloatSt::Bad,
    decreases s.len(),
{
    if s.len() > 0 {
        lemma_frun_bad(s.skip(1));
    }
}

proof fn lemma_frun_bytes(st: FloatSt, s: Seq<u8>)
    requires
        frun(st, s) != FloatSt::Bad,
    ensures
        forall|i: int| 0 <= i < s.len() ==> #[trigger] float_byte(s[i]),
    decreases s.len(),
{
    if s.len() > 0 {
        if fstep(st, s[0]) == FloatSt::Bad {
            lemma_frun_bad(s.skip(1));
        }
        assert(float_byte(s[0]));
        lemma_frun_bytes(fstep(st, s[0]), s.skip(1));
        assert forall|i: int| 0 <= i < s.len() implies #[trigger] float_byte(s[i]) by {
            if i > 0 {
                assert(float_byte(s.skip(1)[i - 1]));
            }
        }
    }
}

/// A floating-point numeral holds neither separator bytes nor non-ASCII
/// bytes.
pub proof fn lemma_float_text_bytes(s: Seq<u8>)
    requires
        float_text(s),
    ensures
        forall|i: int| 0 <= i < s.len() ==> #[trigger] float_byte(s[i]),
        !s.contains(0x7cu8),
        !s.contains(0x3au8),
        !s.contains(0x2cu8),
        forall|i: int| 0 <= i < s.len() ==> s[i] < 0x80,
{
    lemma_frun_bytes(FloatSt::Start, s);
    assert forall|i: int| 0 <= i < s.len() implies s[i] < 0x80 by {
        assert(float_byte(s[i]));
    }
    if s.contains(0x7cu8) {
        let i = choose|i: int| 0 <= i < s.len() && s[i] == 0x7c;
        assert(float_byte(s[i]));
    }
    if s.contains(0x3au8) {
        let i = choose|i: int| 0 <= i < s.len() && s[i] == 0x3a;
        assert(float_byte(s[i]));
    }
    if s.contains(0x2cu8) {
        let i = choose|i: int| 0 <= i < s.len() && s[i] == 0x2c;
        assert(float_byte(s[i]));
    }
}

/// An emitted signed numeral parses back to the same value.
pub proof fn lemma_i32_numeral_roundtrip(v: i32)
    ensures
        i32_numeral(dec_of_i32(v as int)),
        i32_numeral_val(dec_of_i32(v as int)) == v,
{
    if v < 0 {
        let mag = (-(v as int)) as nat;
        lemma_dec_of_digits(mag);
        assert(dec_of_i32(v as int)[0] == 0x2d);
        assert(dec_of_i32(v as int).skip(1) =~= dec_of(mag));
    } else {
        lemma_dec_of_digits(v as nat);
        assert(dec_of_i32(v as int)[0] != 0x2d);
        assert(strip_plus(dec_of_i32(v as int)) == dec_of(v as nat));
    }
}

} // verus!
