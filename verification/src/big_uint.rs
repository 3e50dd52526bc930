//! Arbitrary-precision unsigned integers.
//!
//! A number is stored as a vector of base-`2^64` limbs, least significant
//! first, with no trailing zero limb; the empty vector denotes zero.

use vstd::arithmetic::div_mod::lemma_fundamental_div_mod;
use vstd::arithmetic::mul::lemma_mul_inequality;
use vstd::arithmetic::mul::lemma_mul_is_distributive_add;
use vstd::arithmetic::power2::lemma2_to64;
use vstd::arithmetic::power2::lemma_pow2_adds;
use vstd::arithmetic::power2::lemma_pow2_pos;
use vstd::arithmetic::power2::pow2;
use vstd::prelude::*;
use vstd::string::StrSliceExecFns;
use vstd::string::StringExecFns;

verus! {

/// The number denoted by a sequence of base-`2^64` limbs, least significant
/// limb first.
pub open spec fn limbs_val(s: Seq<u64>) -> nat
    decreases s.len(),
{
    if s.len() == 0 {
        0
    } else {
        limbs_val(s.drop_last()) + (s.last() as nat) * pow2((64 * (s.len() - 1)) as nat)
    }
}

/// A limb sequence is canonical when it has no trailing zero limb, so that
/// every number has exactly one representation.
pub open spec fn limbs_canonical(s: Seq<u64>) -> bool {
    s.len() == 0 || s.last() != 0
}


/// A decimal digit character.
pub open spec fn is_dec_digit(c: char) -> bool {
    48 <= c as u32 <= 57
}

/// A digit-group separator accepted inside a number.
pub open spec fn is_group_sep(c: char) -> bool {
    c == ',' || c == '_'
}

/// The numeric value of a decimal digit character.
pub open spec fn digit_val(c: char) -> nat {
    (c as u32 - 48) as nat
}

/// The number denoted by a decimal string read left to right, with
/// digit-group separators ignored.
pub open spec fn dec_str_val(s: Seq<char>) -> nat
    decreases s.len(),
{
    if s.len() == 0 {
        0
    } else {
        let prev = dec_str_val(s.drop_last());
        if is_group_sep(s.last()) {
            prev
        } else {
            prev * 10 + digit_val(s.last())
        }
    }
}

/// Every character is a digit or a separator.
pub open spec fn dec_str_chars_ok(s: Seq<char>) -> bool {
    forall|i: int| 0 <= i < s.len() ==> is_dec_digit(s[i]) || is_group_sep(s[i])
}

/// The strings that parse successfully: a single zero, or a string that
/// starts with a nonzero digit and holds only digits and separators.
pub open spec fn parse_ok(s: Seq<char>) -> bool {
    s.len() > 0 && (if s[0] == '0' {
        s.len() == 1
    } else {
        is_dec_digit(s[0]) && dec_str_chars_ok(s)
    })
}

/// The error reported for a string that does not parse.
pub open spec fn parse_err(s: Seq<char>) -> ParseBigUIntError {
    if s.len() == 0 {
        ParseBigUIntError::Empty
    } else if s[0] == '0' {
        ParseBigUIntError::LeadingZero
    } else if !is_dec_digit(s[0]) {
        ParseBigUIntError::NotStartingWithDigit
    } else {
        ParseBigUIntError::InvalidCharacter
    }
}


/// A canonical decimal string — nonempty, all digits, no leading zero
/// unless it is exactly "0" — parses successfully, so printing a number and
/// parsing the result always round-trips to the same value.
pub proof fn lemma_decimal_roundtrip(s: Seq<char>)
    requires
        s.len() > 0,
        forall|i: int| 0 <= i < s.len() ==> is_dec_digit(s[i]),
        s.len() > 1 ==> s[0] != '0',
    ensures
        parse_ok(s),
{
    assert(is_dec_digit(s[0]));
    assert forall|i: int| 0 <= i < s.len() implies is_dec_digit(s[i]) || is_group_sep(s[i]) by {
        assert(is_dec_digit(s[i]));
    }
}

/// Why a string failed to parse as a big unsigned integer.
#[derive(Debug, Copy, Clone, PartialEq, Eq, Structural)]
pub enum ParseBigUIntError {
    /// The string was empty.
    Empty,
    /// The first character was not a decimal digit.
    NotStartingWithDigit,
    /// A zero digit started a longer number.
    LeadingZero,
    /// A character other than a digit or a separator appeared.
    InvalidCharacter,
}


impl ParseBigUIntError {
    /// The error's description, as a plain string.
    pub fn message(&self) -> (r: String)
        ensures
            self is Empty ==> r@ == "empty string"@,
            self is NotStartingWithDigit ==> r@ == "number does not start with digit"@,
            self is LeadingZero ==> r@ == "number contains leading zero"@,
            self is InvalidCharacter ==> r@ == "number contains invalid character"@,
    {
        match self {
            ParseBigUIntError::Empty => "empty string".to_owned(),
            ParseBigUIntError::NotStartingWithDigit => "number does not start with digit".to_owned(),
            ParseBigUIntError::LeadingZero => "number contains leading zero".to_owned(),
            ParseBigUIntError::InvalidCharacter => "number contains invalid character".to_owned(),
        }
    }
}

/// Powers of ten.
pub open spec fn pow10(n: nat) -> nat
    decreases n,
{
    if n == 0 {
        1
    } else {
        10 * pow10((n - 1) as nat)
    }
}

/// The number denoted by a sequence of decimal digits, least significant
/// digit first.
spec fn digits_le_val(s: Seq<u64>) -> nat
    decreases s.len(),
{
    if s.len() == 0 {
        0
    } else {
        digits_le_val(s.drop_last()) + (s.last() as nat) * pow10((s.len() - 1) as nat)
    }
}

/// A least-significant-first digit sequence read as its first digit plus ten
/// times the rest.
proof fn lemma_digits_le_cons(u: Seq<u64>)
    requires
        u.len() > 0,
    ensures
        digits_le_val(u) == u[0] + 10 * digits_le_val(u.skip(1)),
    decreases u.len(),
{
    if u.len() == 1 {
        assert(u.drop_last() =~= Seq::<u64>::empty());
        assert(digits_le_val(Seq::<u64>::empty()) == 0);
        assert(u.skip(1) =~= Seq::<u64>::empty());
        assert(u.last() == u[0]);
        assert(pow10(0) == 1);
    } else {
        let d = u.drop_last();
        lemma_digits_le_cons(d);
        assert(u.skip(1).drop_last() =~= d.skip(1));
        assert(u.skip(1).last() == u.last());
        let n = u.len() as int;
        let x = u.last() as int;
        let p = pow10((n - 2) as nat) as int;
        assert(pow10((n - 1) as nat) == 10 * p);
        assert(digits_le_val(u.skip(1)) == digits_le_val(d.skip(1)) + x * p);
        assert(10 * (digits_le_val(d.skip(1)) + x * p) == 10 * digits_le_val(d.skip(1)) + x * (10
            * p)) by (nonlinear_arith);
    }
}

/// The character of one decimal digit.
spec fn digit_char(d: nat) -> char {
    if d == 0 {
        '0'
    } else if d == 1 {
        '1'
    } else if d == 2 {
        '2'
    } else if d == 3 {
        '3'
    } else if d == 4 {
        '4'
    } else if d == 5 {
        '5'
    } else if d == 6 {
        '6'
    } else if d == 7 {
        '7'
    } else if d == 8 {
        '8'
    } else {
        '9'
    }
}

/// A digit's character is a digit character denoting that digit.
proof fn lemma_digit_char_val(d: nat)
    requires
        d < 10,
    ensures
        is_dec_digit(digit_char(d)),
        digit_val(digit_char(d)) == d,
{
}

/// Appends the character of one decimal digit to a string.
fn push_digit(out: &mut String, d: u64)
    requires
        d < 10,
    ensures
        final(out)@ == old(out)@.push(digit_char(d as nat)),
{
    proof {
        reveal_strlit("0123456789");
        assert("0123456789"@.len() == 10);
    }
    let piece = "0123456789".substring_char(d as usize, d as usize + 1);
    proof {
        assert(piece@.len() == 1);
        assert(piece@[0] == "0123456789"@[d as int]);
        assert(piece@[0] == digit_char(d as nat)) by {
            if d == 0 {
                assert("0123456789"@[0] == '0');
            } else if d == 1 {
                assert("0123456789"@[1] == '1');
            } else if d == 2 {
                assert("0123456789"@[2] == '2');
            } else if d == 3 {
                assert("0123456789"@[3] == '3');
            } else if d == 4 {
                assert("0123456789"@[4] == '4');
            } else if d == 5 {
                assert("0123456789"@[5] == '5');
            } else if d == 6 {
                assert("0123456789"@[6] == '6');
            } else if d == 7 {
                assert("0123456789"@[7] == '7');
            } else if d == 8 {
                assert("0123456789"@[8] == '8');
            } else {
                assert("0123456789"@[9] == '9');
            }
        }
    }
    let ghost before = out@;
    out.append(piece);
    proof {
        assert(out@ =~= before.push(digit_char(d as nat)));
    }
}

/// Big unsigned integer.
#[derive(Debug)]
pub struct BigUInt {
    inner: Vec<u64>,
}

impl View for BigUInt {
    type V = nat;

    closed spec fn view(&self) -> nat {
        limbs_val(self.inner@)
    }
}

/// Appending a zero limb does not change the denoted number.
proof fn lemma_val_push_zero(s: Seq<u64>)
    ensures
        limbs_val(s.push(0)) == limbs_val(s),
{
    assert(s.push(0).drop_last() =~= s);
    assert(s.push(0).last() == 0u64);
}

/// Dropping a trailing zero limb does not change the denoted number.
proof fn lemma_val_drop_zero_last(s: Seq<u64>)
    requires
        s.len() > 0,
        s.last() == 0,
    ensures
        limbs_val(s.drop_last()) == limbs_val(s),
{
}

/// The first `i + 1` limbs denote what the first `i` limbs denote, plus limb
/// `i` at its weight.
proof fn lemma_val_take_succ(s: Seq<u64>, i: int)
    requires
        0 <= i < s.len(),
    ensures
        limbs_val(s.take(i + 1)) == limbs_val(s.take(i)) + s[i] * pow2((64 * i) as nat),
{
    assert(s.take(i + 1).drop_last() =~= s.take(i));
    assert(s.take(i + 1).last() == s[i]);
}

/// Taking all limbs denotes the whole number.
proof fn lemma_val_take_full(s: Seq<u64>)
    ensures
        limbs_val(s.take(s.len() as int)) == limbs_val(s),
{
    assert(s.take(s.len() as int) =~= s);
}

/// A limb sequence of length `n` denotes a number below `2^(64n)`.
proof fn lemma_val_bound(s: Seq<u64>)
    ensures
        limbs_val(s) < pow2((64 * s.len()) as nat),
    decreases s.len(),
{
    if s.len() == 0 {
        lemma_pow2_pos(0);
    } else {
        let n = s.len();
        let w = pow2((64 * (n - 1)) as nat);
        lemma_val_bound(s.drop_last());
        lemma_pow2_pos((64 * (n - 1)) as nat);
        assert(s.last() * w <= (0xffff_ffff_ffff_ffffu64) * w) by {
            lemma_mul_inequality(s.last() as int, 0xffff_ffff_ffff_ffff, w as int);
        }
        assert(w + 0xffff_ffff_ffff_ffff * w == 0x1_0000_0000_0000_0000 * w) by {
            lemma_mul_is_distributive_add(w as int, 1, 0xffff_ffff_ffff_ffff);
        }
        assert(pow2(64) * w == pow2((64 * n) as nat)) by {
            lemma_pow2_adds(64, (64 * (n - 1)) as nat);
        }
        lemma2_to64();
    }
}

/// A canonical, non-empty limb sequence denotes at least the weight of its
/// top limb.
proof fn lemma_val_lower_bound(s: Seq<u64>)
    requires
        limbs_canonical(s),
        s.len() > 0,
    ensures
        limbs_val(s) >= pow2((64 * (s.len() - 1)) as nat),
{
    let w = pow2((64 * (s.len() - 1)) as nat);
    lemma_pow2_pos((64 * (s.len() - 1)) as nat);
    assert(s.last() * w >= 1 * w) by {
        lemma_mul_inequality(1, s.last() as int, w as int);
    }
}


/// A single limb denotes its own value.
proof fn lemma_val_singleton(s: Seq<u64>)
    requires
        s.len() == 1,
    ensures
        limbs_val(s) == s[0],
{
    assert(s.drop_last() =~= Seq::<u64>::empty());
    assert(limbs_val(Seq::<u64>::empty()) == 0);
    lemma2_to64();
    assert(limbs_val(s) == limbs_val(s.drop_last()) + (s.last() as nat) * pow2(
        (64 * (s.len() - 1)) as nat,
    ));
}

/// Splitting a limb sequence at position `j`: the whole number is the low
/// part plus the high part at weight `2^(64j)`.
proof fn lemma_val_split(s: Seq<u64>, j: int)
    requires
        0 <= j <= s.len(),
    ensures
        limbs_val(s) == limbs_val(s.take(j)) + pow2((64 * j) as nat) * limbs_val(s.skip(j)),
    decreases s.len(),
{
    let n = s.len() as int;
    if j == n {
        lemma_val_take_full(s);
        assert(s.skip(j) =~= Seq::<u64>::empty());
        assert(limbs_val(Seq::<u64>::empty()) == 0);
    } else {
        let d = s.drop_last();
        lemma_val_split(d, j);
        assert(d.take(j) =~= s.take(j));
        let hi_s = s.skip(j);
        let hi_d = d.skip(j);
        assert(hi_s.drop_last() =~= hi_d);
        assert(hi_s.last() == s.last());
        let w = pow2((64 * j) as nat) as int;
        let wl = pow2((64 * (n - 1 - j)) as nat) as int;
        let wh = pow2((64 * (n - 1)) as nat) as int;
        lemma_pow2_adds((64 * j) as nat, (64 * (n - 1 - j)) as nat);
        let x = s.last() as int;
        let hd = limbs_val(hi_d) as int;
        assert(limbs_val(hi_s) == hd + x * wl);
        assert(w * (hd + x * wl) == w * hd + x * wh) by (nonlinear_arith)
            requires
                w * wl == wh,
        ;
    }
}

/// If two equally long limb sequences agree above position `i` and differ at
/// `i`, the one with the smaller limb denotes the smaller number.
proof fn lemma_val_cmp_at(a: Seq<u64>, b: Seq<u64>, i: int)
    requires
        a.len() == b.len(),
        0 <= i < a.len(),
        a.skip(i + 1) == b.skip(i + 1),
        a[i] < b[i],
    ensures
        limbs_val(a) < limbs_val(b),
{
    let n = a.len() as int;
    let w = pow2((64 * i) as nat) as int;
    lemma_pow2_pos((64 * i) as nat);
    lemma_val_split(a, i);
    lemma_val_split(b, i);
    let ua = a.skip(i);
    let ub = b.skip(i);
    lemma_val_split(ua, 1);
    lemma_val_split(ub, 1);
    assert(ua.take(1) =~= seq![a[i]]);
    assert(ub.take(1) =~= seq![b[i]]);
    lemma_val_singleton(seq![a[i]]);
    lemma_val_singleton(seq![b[i]]);
    assert(ua.skip(1) =~= a.skip(i + 1));
    assert(ub.skip(1) =~= b.skip(i + 1));
    let hi = limbs_val(a.skip(i + 1)) as int;
    let xa = limbs_val(ua) as int;
    let xb = limbs_val(ub) as int;
    assert(xa == a[i] + pow2(64) * hi);
    assert(xb == b[i] + pow2(64) * hi);
    let ta = limbs_val(a.take(i)) as int;
    let tb = limbs_val(b.take(i)) as int;
    lemma_val_bound(a.take(i));
    assert(ta < w);
    assert(tb >= 0);
    // ta + w * xa < w * (xa + 1) <= w * xb <= tb + w * xb
    assert(ta + w * xa < w * (xa + 1)) by (nonlinear_arith)
        requires
            ta < w,
            0 < w,
    ;
    assert(w * (xa + 1) <= w * xb) by (nonlinear_arith)
        requires
            xa + 1 <= xb,
            0 < w,
    ;
}

/// A longer canonical limb sequence denotes a strictly larger number.
proof fn lemma_val_shorter_smaller(a: Seq<u64>, b: Seq<u64>)
    requires
        limbs_canonical(b),
        a.len() < b.len(),
    ensures
        limbs_val(a) < limbs_val(b),
{
    lemma_val_bound(a);
    lemma_val_lower_bound(b);
    let ea = (64 * a.len()) as nat;
    let eb = (64 * (b.len() - 1)) as nat;
    if ea < eb {
        vstd::arithmetic::power2::lemma_pow2_strictly_increases(ea, eb);
    }
}


/// Multiplies a limb sequence by a single limb, schoolbook style.
#[verifier::rlimit(40)]
fn mul_limb(a: &Vec<u64>, x: u64) -> (out: Vec<u64>)
    ensures
        limbs_canonical(out@),
        limbs_val(out@) == limbs_val(a@) * (x as nat),
{
    let mut out: Vec<u64> = Vec::new();
    let mut carry: u64 = 0;
    let mut i: usize = 0;
    let n = a.len();
    proof {
        assert(a@.take(0) =~= Seq::<u64>::empty());
        assert(limbs_val(Seq::<u64>::empty()) == 0);
    }
    while i < n
        invariant
            n == a.len(),
            i <= n,
            out.len() == i,
            limbs_val(out@) + (carry as nat) * pow2((64 * i) as nat) == limbs_val(
                a@.take(i as int),
            ) * (x as nat),
        decreases n - i,
    {
        let base: u128 = 0x1_0000_0000_0000_0000;
        proof {
            let m: int = 0xffff_ffff_ffff_ffff;
            lemma_mul_inequality(a@[i as int] as int, m, x as int);
            lemma_mul_inequality(x as int, m, m);
        }
        let t: u128 = a[i] as u128 * x as u128 + carry as u128;
        let low: u64 = (t % base) as u64;
        let c2: u64 = (t / base) as u64;
        proof {
            lemma_fundamental_div_mod(t as int, base as int);
            let w = pow2((64 * i) as nat) as int;
            let w2 = pow2((64 * (i + 1)) as nat) as int;
            lemma_pow2_adds(64, (64 * i) as nat);
            lemma2_to64();
            lemma_val_take_succ(a@, i as int);
            let ai = a@[i as int] as int;
            let xx = x as int;
            let cin = carry as int;
            let lo = low as int;
            let hi = c2 as int;
            assert(limbs_val(out@.push(low)) == limbs_val(out@) + lo * w) by {
                assert(out@.push(low).drop_last() =~= out@);
            }
            assert(ai * xx + cin == lo + hi * 0x1_0000_0000_0000_0000);
            assert((ai * xx + cin) * w == lo * w + hi * (0x1_0000_0000_0000_0000 * w)) by (
            nonlinear_arith)
                requires
                    ai * xx + cin == lo + hi * 0x1_0000_0000_0000_0000,
            ;
            assert(hi * (0x1_0000_0000_0000_0000 * w) == hi * w2) by (nonlinear_arith)
                requires
                    0x1_0000_0000_0000_0000 * w == w2,
            ;
            assert((limbs_val(a@.take(i as int)) + ai * w) * xx == limbs_val(a@.take(i as int))
                * xx + (ai * xx + cin) * w - cin * w) by (nonlinear_arith);
        }
        out.push(low);
        carry = c2;
        i = i + 1;
    }
    proof {
        lemma_val_take_full(a@);
        assert(limbs_val(out@) + (carry as nat) * pow2((64 * n) as nat) == limbs_val(a@) * (
        x as nat));
    }
    if carry > 0 {
        proof {
            let w = pow2((64 * n) as nat);
            assert(limbs_val(out@.push(carry)) == limbs_val(out@) + (carry as nat) * w) by {
                assert(out@.push(carry).drop_last() =~= out@);
            }
        }
        out.push(carry);
    } else {
        proof {
            assert((carry as nat) * pow2((64 * n) as nat) == 0) by (nonlinear_arith)
                requires
                    carry == 0u64,
            ;
        }
    }
    proof {
        assert(limbs_val(out@) == limbs_val(a@) * (x as nat));
    }
    trim(&mut out);
    out
}


impl Clone for BigUInt {
    /// An exact copy of the number.
    fn clone(&self) -> (r: BigUInt)
        ensures
            r@ == self@,
            r.wf() == self.wf(),
    {
        let v = self.inner.clone();
        proof {
            assert(v@ =~= self.inner@);
        }
        BigUInt { inner: v }
    }
}


/// Equally long limb sequences denoting the same number are identical.
proof fn lemma_val_inj(a: Seq<u64>, b: Seq<u64>)
    requires
        a.len() == b.len(),
        limbs_val(a) == limbs_val(b),
    ensures
        a == b,
    decreases a.len(),
{
    if a.len() == 0 {
        assert(a =~= b);
    } else {
        let n = a.len() as int;
        assert(a.skip(n) =~= b.skip(n));
        if a.last() < b.last() {
            lemma_val_cmp_at(a, b, n - 1);
        }
        if b.last() < a.last() {
            lemma_val_cmp_at(b, a, n - 1);
        }
        lemma_val_inj(a.drop_last(), b.drop_last());
        assert forall|i: int| 0 <= i < n implies a[i] == b[i] by {
            if i < n - 1 {
                assert(a.drop_last()[i] == a[i]);
                assert(b.drop_last()[i] == b[i]);
            }
        }
        assert(a =~= b);
    }
}

/// For canonical numbers, representation equality is value equality.
pub proof fn lemma_same_repr_is_same_value(x: &BigUInt, y: &BigUInt)
    requires
        x.wf(),
        y.wf(),
    ensures
        x.same_repr(y) <==> x@ == y@,
{
    if x@ == y@ {
        if x.inner@.len() < y.inner@.len() {
            lemma_val_shorter_smaller(x.inner@, y.inner@);
        }
        if y.inner@.len() < x.inner@.len() {
            lemma_val_shorter_smaller(y.inner@, x.inner@);
        }
        lemma_val_inj(x.inner@, y.inner@);
    }
}

/// Removes trailing zero limbs, leaving the canonical representation.
fn trim(v: &mut Vec<u64>)
    ensures
        limbs_canonical(final(v)@),
        limbs_val(final(v)@) == limbs_val(old(v)@),
{
    while v.len() > 0 && v[v.len() - 1] == 0
        invariant
            limbs_val(v@) == limbs_val(old(v)@),
        decreases v.len(),
    {
        proof {
            lemma_val_drop_zero_last(v@);
        }
        v.pop();
    }
}

impl BigUInt {
    /// The representation is canonical: no trailing zero limb.
    pub closed spec fn wf(&self) -> bool {
        limbs_canonical(self.inner@)
    }

    /// Two numbers hold identical limb vectors.
    pub closed spec fn same_repr(&self, other: &BigUInt) -> bool {
        self.inner@ == other.inner@
    }

    /// The number zero.
    pub fn zero() -> (r: BigUInt)
        ensures
            r.wf(),
            r@ == 0,
    {
        BigUInt { inner: Vec::new() }
    }

    /// The number one.
    pub fn one() -> (r: BigUInt)
        ensures
            r.wf(),
            r@ == 1,
    {
        let mut v: Vec<u64> = Vec::new();
        v.push(1);
        proof {
            assert(v@.drop_last() =~= Seq::<u64>::empty());
            assert(limbs_val(Seq::<u64>::empty()) == 0);
            lemma2_to64();
        }
        BigUInt { inner: v }
    }

    /// The big integer with the value of one machine word.
    pub fn from_u64(x: u64) -> (r: BigUInt)
        ensures
            r.wf(),
            r@ == x,
    {
        let mut v: Vec<u64> = Vec::new();
        if x > 0 {
            v.push(x);
        }
        proof {
            lemma2_to64();
            if x > 0 {
                assert(v@.drop_last() =~= Seq::<u64>::empty());
                assert(limbs_val(Seq::<u64>::empty()) == 0);
                assert(limbs_val(v@) == (x as nat) * pow2(0));
            } else {
                assert(limbs_val(v@) == 0);
            }
        }
        BigUInt { inner: v }
    }

    /// Whether the number is zero.
    pub fn is_zero(&self) -> (r: bool)
        requires
            self.wf(),
        ensures
            r == (self@ == 0),
    {
        proof {
            if self.inner@.len() > 0 {
                lemma_val_lower_bound(self.inner@);
                lemma_pow2_pos((64 * (self.inner@.len() - 1)) as nat);
            }
        }
        self.inner.len() == 0
    }

    /// Addition.
    pub fn add(&self, rhs: &BigUInt) -> (r: BigUInt)
        requires
            self.wf(),
            rhs.wf(),
        ensures
            r.wf(),
            r@ == self@ + rhs@,
    {
        let mut a = self.inner.clone();
        let mut b = rhs.inner.clone();
        proof {
            assert(a@ =~= self.inner@);
            assert(b@ =~= rhs.inner@);
        }
        // Pad the shorter operand with zero limbs.
        let ghost a0 = a@;
        let ghost b0 = b@;
        while a.len() < b.len()
            invariant
                limbs_val(a@) == limbs_val(a0),
            decreases b.len() - a.len(),
        {
            proof {
                lemma_val_push_zero(a@);
            }
            a.push(0);
        }
        while b.len() < a.len()
            invariant
                b.len() <= a.len(),
                limbs_val(b@) == limbs_val(b0),
            decreases a.len() - b.len(),
        {
            proof {
                lemma_val_push_zero(b@);
            }
            b.push(0);
        }
        let n = a.len();
        let mut out: Vec<u64> = Vec::new();
        let mut carry: u64 = 0;
        let mut i: usize = 0;
        while i < n
            invariant
                n == a.len(),
                n == b.len(),
                i <= n,
                out.len() == i,
                carry <= 1,
                limbs_val(out@) + carry * pow2((64 * i) as nat) == limbs_val(a@.take(i as int))
                    + limbs_val(b@.take(i as int)),
            decreases n - i,
        {
            let base: u128 = 0x1_0000_0000_0000_0000;
            let t: u128 = a[i] as u128 + b[i] as u128 + carry as u128;
            let low: u64 = (t % base) as u64;
            let c2: u64 = (t / base) as u64;
            proof {
                lemma_fundamental_div_mod(t as int, base as int);
                let w = pow2((64 * i) as nat) as int;
                let w2 = pow2((64 * (i + 1)) as nat) as int;
                lemma_pow2_adds(64, (64 * i) as nat);
                lemma2_to64();
                lemma_val_take_succ(a@, i as int);
                lemma_val_take_succ(b@, i as int);
                let ai = a@[i as int] as int;
                let bi = b@[i as int] as int;
                let cin = carry as int;
                let lo = low as int;
                let hi = c2 as int;
                assert(limbs_val(out@.push(low)) == limbs_val(out@) + lo * w) by {
                    assert(out@.push(low).drop_last() =~= out@);
                }
                assert(ai + bi + cin == lo + hi * 0x1_0000_0000_0000_0000);
                assert((ai + bi + cin) * w == lo * w + hi * (0x1_0000_0000_0000_0000 * w)) by (
                nonlinear_arith)
                    requires
                        ai + bi + cin == lo + hi * 0x1_0000_0000_0000_0000,
                ;
                assert(hi * (0x1_0000_0000_0000_0000 * w) == hi * w2) by (nonlinear_arith)
                    requires
                        0x1_0000_0000_0000_0000 * w == w2,
                ;
                assert((ai + bi + cin) * w == ai * w + bi * w + cin * w) by (nonlinear_arith);
            }
            out.push(low);
            carry = c2;
            i = i + 1;
        }
        proof {
            lemma_val_take_full(a@);
            lemma_val_take_full(b@);
            assert(limbs_val(out@) + (carry as nat) * pow2((64 * n) as nat) == limbs_val(a@)
                + limbs_val(b@));
        }
        if carry > 0 {
            proof {
                let w = pow2((64 * n) as nat);
                assert(limbs_val(out@.push(carry)) == limbs_val(out@) + (carry as nat) * w) by {
                    assert(out@.push(carry).drop_last() =~= out@);
                }
            }
            out.push(carry);
        } else {
            proof {
                assert((carry as nat) * pow2((64 * n) as nat) == 0) by (nonlinear_arith)
                    requires
                        carry == 0u64,
                ;
            }
        }
        proof {
            assert(limbs_val(out@) == limbs_val(a@) + limbs_val(b@));
        }
        let mut out = out;
        trim(&mut out);
        BigUInt { inner: out }
    }

    /// Three-way comparison of the denoted numbers.
    pub fn cmp(&self, rhs: &BigUInt) -> (r: core::cmp::Ordering)
        requires
            self.wf(),
            rhs.wf(),
        ensures
            r == core::cmp::Ordering::Less <==> self@ < rhs@,
            r == core::cmp::Ordering::Equal <==> self@ == rhs@,
            r == core::cmp::Ordering::Greater <==> self@ > rhs@,
    {
        let a = &self.inner;
        let b = &rhs.inner;
        if a.len() < b.len() {
            proof {
                lemma_val_shorter_smaller(a@, b@);
            }
            return core::cmp::Ordering::Less;
        }
        if b.len() < a.len() {
            proof {
                lemma_val_shorter_smaller(b@, a@);
            }
            return core::cmp::Ordering::Greater;
        }
        let n = a.len();
        let mut i = n;
        proof {
            assert(a@.skip(n as int) =~= b@.skip(n as int));
        }
        while i > 0
            invariant
                a@ == self.inner@,
                b@ == rhs.inner@,
                n == a.len(),
                n == b.len(),
                i <= n,
                a@.skip(i as int) == b@.skip(i as int),
            decreases i,
        {
            let x = a[i - 1];
            let y = b[i - 1];
            if x < y {
                proof {
                    lemma_val_cmp_at(a@, b@, i - 1);
                }
                return core::cmp::Ordering::Less;
            }
            if y < x {
                proof {
                    lemma_val_cmp_at(b@, a@, i - 1);
                }
                return core::cmp::Ordering::Greater;
            }
            proof {
                let sa = a@.skip(i as int);
                let sb = b@.skip(i as int);
                assert forall|k: int| i - 1 <= k < n implies a@[k] == b@[k] by {
                    if k >= i {
                        assert(a@[k] == sa[k - i]);
                        assert(b@[k] == sb[k - i]);
                    }
                }
                assert(a@.skip(i - 1) =~= b@.skip(i - 1));
            }
            i = i - 1;
        }
        proof {
            assert(a@.skip(0) =~= a@);
            assert(b@.skip(0) =~= b@);
            assert(a@ =~= b@);
        }
        core::cmp::Ordering::Equal
    }

    /// Whether this number is strictly smaller than `rhs`.
    pub fn lt(&self, rhs: &BigUInt) -> (r: bool)
        requires
            self.wf(),
            rhs.wf(),
        ensures
            r == (self@ < rhs@),
    {
        matches!(self.cmp(rhs), core::cmp::Ordering::Less)
    }

    /// Whether this number is at most `rhs`.
    pub fn le(&self, rhs: &BigUInt) -> (r: bool)
        requires
            self.wf(),
            rhs.wf(),
        ensures
            r == (self@ <= rhs@),
    {
        !matches!(self.cmp(rhs), core::cmp::Ordering::Greater)
    }

    /// Saturating subtraction: the difference, or zero when `rhs` is not
    /// smaller than this number.
    pub fn sub(&self, rhs: &BigUInt) -> (r: BigUInt)
        requires
            self.wf(),
            rhs.wf(),
        ensures
            r.wf(),
            r@ == if self@ > rhs@ { (self@ - rhs@) as nat } else { 0nat },
    {
        if self.le(rhs) {
            return BigUInt::zero();
        }
        let a = &self.inner;
        let mut b = rhs.inner.clone();
        proof {
            assert(b@ =~= rhs.inner@);
        }
        let ghost b0 = b@;
        proof {
            if a@.len() < b0.len() {
                lemma_val_shorter_smaller(a@, b0);
            }
        }
        while b.len() < a.len()
            invariant
                b.len() <= a.len(),
                limbs_val(b@) == limbs_val(b0),
            decreases a.len() - b.len(),
        {
            proof {
                lemma_val_push_zero(b@);
            }
            b.push(0);
        }
        let n = a.len();
        let mut out: Vec<u64> = Vec::new();
        let mut borrow: u64 = 0;
        let mut i: usize = 0;
        while i < n
            invariant
                n == a.len(),
                n == b.len(),
                i <= n,
                out.len() == i,
                borrow <= 1,
                limbs_val(out@) as int == limbs_val(a@.take(i as int)) - limbs_val(
                    b@.take(i as int),
                ) + (borrow as int) * pow2((64 * i) as nat),
            decreases n - i,
        {
            let base: u128 = 0x1_0000_0000_0000_0000;
            let t: u128 = base + a[i] as u128 - b[i] as u128 - borrow as u128;
            let low: u64 = (t % base) as u64;
            let b2: u64 = if t < base {
                1
            } else {
                0
            };
            proof {
                lemma_fundamental_div_mod(t as int, base as int);
                let w = pow2((64 * i) as nat) as int;
                let w2 = pow2((64 * (i + 1)) as nat) as int;
                lemma_pow2_adds(64, (64 * i) as nat);
                lemma2_to64();
                lemma_val_take_succ(a@, i as int);
                lemma_val_take_succ(b@, i as int);
                let ai = a@[i as int] as int;
                let bi = b@[i as int] as int;
                let cin = borrow as int;
                let lo = low as int;
                let cout = b2 as int;
                assert(limbs_val(out@.push(low)) == limbs_val(out@) + lo * w) by {
                    assert(out@.push(low).drop_last() =~= out@);
                }
                // t = 2^64 + ai - bi - cin = lo + k * 2^64 with k one or zero,
                // and cout = 1 - k, so ai - bi - cin = lo - cout * 2^64.
                assert(t < 2 * base);
                assert(t as int == lo + (t as int / base as int) * base as int);
                assert(ai - bi - cin == lo - cout * 0x1_0000_0000_0000_0000);
                assert((ai - bi - cin) * w == lo * w - cout * (0x1_0000_0000_0000_0000 * w)) by (
                nonlinear_arith)
                    requires
                        ai - bi - cin == lo - cout * 0x1_0000_0000_0000_0000,
                ;
                assert(cout * (0x1_0000_0000_0000_0000 * w) == cout * w2) by (nonlinear_arith)
                    requires
                        0x1_0000_0000_0000_0000 * w == w2,
                ;
                assert((ai - bi - cin) * w == ai * w - bi * w - cin * w) by (nonlinear_arith);
            }
            out.push(low);
            borrow = b2;
            i = i + 1;
        }
        proof {
            lemma_val_take_full(a@);
            lemma_val_take_full(b@);
            lemma_val_bound(out@);
            if borrow == 1 {
                // would mean the result value is at least 2^(64n), impossible
                assert(false);
            }
            assert((borrow as int) * pow2((64 * n) as nat) == 0) by (nonlinear_arith)
                requires
                    borrow == 0u64,
            ;
            assert(limbs_val(out@) as int == limbs_val(a@) - limbs_val(b@));
        }
        let mut out = out;
        trim(&mut out);
        BigUInt { inner: out }
    }

    /// Multiplication.
    pub fn mul(&self, rhs: &BigUInt) -> (r: BigUInt)
        requires
            self.wf(),
            rhs.wf(),
        ensures
            r.wf(),
            r@ == self@ * rhs@,
    {
        let b = &rhs.inner;
        let n = b.len();
        let mut acc = BigUInt::zero();
        let mut i = n;
        proof {
            assert(b@.skip(n as int) =~= Seq::<u64>::empty());
            assert(limbs_val(Seq::<u64>::empty()) == 0);
        }
        while i > 0
            invariant
                b@ == rhs.inner@,
                self.wf(),
                n == b.len(),
                i <= n,
                acc.wf(),
                acc@ == self@ * limbs_val(b@.skip(i as int)),
            decreases i,
        {
            i = i - 1;
            // acc := acc * 2^64 + self * b[i]
            let ghost acc0 = acc@;
            let ghost accv = acc.inner@;
            let mut shifted = acc.inner;
            if shifted.len() > 0 {
                shifted.insert(0, 0);
            }
            proof {
                let s = shifted@;
                if s.len() > 0 {
                    lemma_val_split(s, 1);
                    assert(s.take(1) =~= seq![0u64]);
                    lemma_val_singleton(seq![0u64]);
                    assert(s.skip(1) =~= accv);
                    lemma2_to64();
                } else {
                    assert(accv =~= Seq::<u64>::empty());
                    assert(limbs_val(Seq::<u64>::empty()) == 0);
                    assert(pow2(64) * (acc0 as int) == 0) by (nonlinear_arith)
                        requires
                            acc0 == 0nat,
                    ;
                }
                assert(limbs_val(s) == pow2(64) * (acc0 as int));
            }
            let part = mul_limb(&self.inner, b[i]);
            let shifted_big = BigUInt { inner: shifted };
            let part_big = BigUInt { inner: part };
            let next = shifted_big.add(&part_big);
            proof {
                let lo = b@[i as int] as int;
                let hi = limbs_val(b@.skip(i + 1)) as int;
                let u = b@.skip(i as int);
                lemma_val_split(u, 1);
                assert(u.take(1) =~= seq![b@[i as int]]);
                lemma_val_singleton(seq![b@[i as int]]);
                assert(u.skip(1) =~= b@.skip(i + 1));
                assert(limbs_val(u) == lo + pow2(64) * hi);
                let va = self@ as int;
                let p64 = pow2(64) as int;
                assert(p64 * (va * hi) + va * lo == va * (lo + p64 * hi)) by (nonlinear_arith);
            }
            acc = next;
        }
        proof {
            assert(b@.skip(0) =~= b@);
        }
        acc
    }

    /// Doubles the number in place: a left shift by one bit.
    fn shl_once(&mut self)
        requires
            old(self).wf(),
        ensures
            final(self).wf(),
            final(self)@ == 2 * old(self)@,
    {
        let d = self.add(self);
        *self = d;
    }

    /// Halves the number in place, rounding down: a right shift by one bit.
    fn shr_once(&mut self)
        requires
            old(self).wf(),
        ensures
            final(self).wf(),
            final(self)@ == old(self)@ / 2,
    {
        let ghost orig = self.inner@;
        let n = self.inner.len();
        let mut carry: u64 = 0;
        let mut i = n;
        proof {
            assert(orig.skip(n as int) =~= Seq::<u64>::empty());
            assert(self.inner@.skip(n as int) =~= Seq::<u64>::empty());
            assert(limbs_val(Seq::<u64>::empty()) == 0);
            assert(orig.take(n as int) =~= self.inner@.take(n as int));
        }
        while i > 0
            invariant
                n == self.inner.len(),
                n == orig.len(),
                i <= n,
                carry <= 1,
                self.inner@.take(i as int) == orig.take(i as int),
                limbs_val(orig.skip(i as int)) == 2 * limbs_val(self.inner@.skip(i as int))
                    + carry,
            decreases i,
        {
            i = i - 1;
            let ghost pre = self.inner@;
            let x = self.inner[i];
            let nv = x / 2 + carry * 0x8000_0000_0000_0000;
            self.inner.set(i, nv);
            let c2 = x % 2;
            proof {
                lemma_fundamental_div_mod(x as int, 2);
                lemma2_to64();
                let s2 = self.inner@;
                let p64 = pow2(64) as int;
                assert forall|j: int| 0 <= j < i + 1 implies pre[j] == orig[j] by {
                    assert(pre.take(i + 1)[j] == pre[j]);
                    assert(orig.take(i + 1)[j] == orig[j]);
                }
                assert(pre[i as int] == orig[i as int]);
                assert(s2.take(i as int) =~= orig.take(i as int));
                assert(s2.skip(i + 1) =~= pre.skip(i + 1));
                let vh = limbs_val(pre.skip(i + 1)) as int;
                // old suffix: x + 2^64 * (2 * vh + carry)
                let uo = orig.skip(i as int);
                lemma_val_split(uo, 1);
                assert(uo.take(1) =~= seq![orig[i as int]]);
                lemma_val_singleton(seq![orig[i as int]]);
                assert(uo.skip(1) =~= orig.skip(i + 1));
                // new suffix: nv + 2^64 * vh
                let un = s2.skip(i as int);
                lemma_val_split(un, 1);
                assert(un.take(1) =~= seq![nv]);
                lemma_val_singleton(seq![nv]);
                assert(un.skip(1) =~= s2.skip(i + 1));
                let xi = x as int;
                let ci = carry as int;
                assert(nv as int == xi / 2 + ci * 0x8000_0000_0000_0000);
                assert(2 * (nv as int) + (xi % 2) == xi + ci * p64) by (nonlinear_arith)
                    requires
                        nv as int == xi / 2 + ci * 0x8000_0000_0000_0000,
                        xi == 2 * (xi / 2) + xi % 2,
                        p64 == 0x1_0000_0000_0000_0000,
                ;
                assert(limbs_val(uo) as int == xi + p64 * (2 * vh + ci));
                assert(limbs_val(un) as int == nv as int + p64 * vh);
                assert(xi + p64 * (2 * vh + ci) == 2 * (nv as int + p64 * vh) + (xi % 2)) by (
                nonlinear_arith)
                    requires
                        2 * (nv as int) + (xi % 2) == xi + ci * p64,
                ;
            }
            carry = c2;
        }
        proof {
            assert(orig.skip(0) =~= orig);
            assert(self.inner@.skip(0) =~= self.inner@);
            vstd::arithmetic::div_mod::lemma_fundamental_div_mod_converse(
                limbs_val(orig) as int,
                2,
                limbs_val(self.inner@) as int,
                carry as int,
            );
        }
        trim(&mut self.inner);
    }

    /// Division, rounding down.
    pub fn div(&self, rhs: &BigUInt) -> (r: BigUInt)
        requires
            self.wf(),
            rhs.wf(),
            rhs@ > 0,
        ensures
            r.wf(),
            r@ == self@ / rhs@,
    {
        let (q, _) = div_rem(self, rhs);
        q
    }

    /// Remainder of division.
    pub fn rem(&self, rhs: &BigUInt) -> (r: BigUInt)
        requires
            self.wf(),
            rhs.wf(),
            rhs@ > 0,
        ensures
            r.wf(),
            r@ == self@ % rhs@,
    {
        let (_, m) = div_rem(self, rhs);
        m
    }

    /// The machine-word value of a number that fits in one limb.
    fn as_u64(&self) -> (r: u64)
        requires
            self.wf(),
            self@ < 0x1_0000_0000_0000_0000,
        ensures
            r == self@,
    {
        if self.inner.len() == 0 {
            0
        } else {
            proof {
                if self.inner@.len() >= 2 {
                    lemma_val_lower_bound(self.inner@);
                    let e = (64 * (self.inner@.len() - 1)) as nat;
                    if e > 64 {
                        vstd::arithmetic::power2::lemma_pow2_strictly_increases(64, e);
                    }
                    lemma2_to64();
                }
                lemma_val_singleton(self.inner@);
            }
            self.inner[0]
        }
    }

    /// Parses a decimal string. Digit-group separators are skipped; the
    /// checks and the reported errors follow `parse_ok` and `parse_err`.
    pub fn from_str(s: &str) -> (r: Result<BigUInt, ParseBigUIntError>)
        ensures
            r is Ok <==> parse_ok(s@),
            r matches Ok(b) ==> b.wf() && b@ == dec_str_val(s@),
            r matches Err(e) ==> e == parse_err(s@),
    {
        let n = s.unicode_len();
        if n == 0 {
            return Err(ParseBigUIntError::Empty);
        }
        let c0 = s.get_char(0);
        if c0 == '0' {
            if n == 1 {
                proof {
                    assert(s@.drop_last() =~= Seq::<char>::empty());
                    assert(dec_str_val(Seq::<char>::empty()) == 0);
                }
                return Ok(BigUInt::zero());
            }
            return Err(ParseBigUIntError::LeadingZero);
        }
        let v0 = c0 as u32;
        if !(48 <= v0 && v0 <= 57) {
            return Err(ParseBigUIntError::NotStartingWithDigit);
        }
        let ten = BigUInt::from_u64(10);
        let mut acc = BigUInt::zero();
        let mut i: usize = 0;
        proof {
            assert(s@.take(0) =~= Seq::<char>::empty());
            assert(dec_str_val(Seq::<char>::empty()) == 0);
        }
        while i < n
            invariant
                n == s@.len(),
                n > 0,
                s@[0] != '0',
                is_dec_digit(s@[0]),
                i <= n,
                ten@ == 10,
                ten.wf(),
                acc.wf(),
                acc@ == dec_str_val(s@.take(i as int)),
                forall|j: int| 0 <= j < i ==> is_dec_digit(s@[j]) || is_group_sep(s@[j]),
            decreases n - i,
        {
            let c = s.get_char(i);
            proof {
                assert(s@.take(i + 1).drop_last() =~= s@.take(i as int));
                assert(s@.take(i + 1).last() == s@[i as int]);
            }
            if c == ',' || c == '_' {
                // separator: the value is unchanged
            } else {
                let cv = c as u32;
                if !(48 <= cv && cv <= 57) {
                    return Err(ParseBigUIntError::InvalidCharacter);
                }
                let d = cv - 48;
                let scaled = acc.mul(&ten);
                acc = scaled.add(&BigUInt::from_u64(d as u64));
            }
            i = i + 1;
        }
        proof {
            assert(s@.take(n as int) =~= s@);
        }
        Ok(acc)
    }

    /// The canonical decimal representation: digits only, no leading zero.
    pub fn to_string(&self) -> (r: String)
        requires
            self.wf(),
        ensures
            r@.len() > 0,
            forall|i: int| 0 <= i < r@.len() ==> is_dec_digit(r@[i]),
            dec_str_val(r@) == self@,
            r@.len() > 1 ==> r@[0] != '0',
    {
        if self.is_zero() {
            let mut out = String::new();
            push_digit(&mut out, 0);
            proof {
                lemma_digit_char_val(0);
                assert(out@.drop_last() =~= Seq::<char>::empty());
                assert(dec_str_val(Seq::<char>::empty()) == 0);
            }
            return out;
        }
        let ghost v0 = self@;
        let ten = BigUInt::from_u64(10);
        let mut t = self.clone();
        let mut digs: Vec<u64> = Vec::new();
        let mut go = !t.is_zero();
        proof {
            assert(digits_le_val(Seq::<u64>::empty()) == 0);
            assert(pow10(0) == 1);
        }
        while go
            invariant
                t.wf(),
                ten@ == 10,
                ten.wf(),
                v0 == t@ * pow10(digs@.len()) + digits_le_val(digs@),
                forall|j: int| 0 <= j < digs@.len() ==> digs@[j] < 10,
                t@ == 0 ==> digs@.len() > 0 && digs@.last() > 0,
                go == (t@ > 0),
            decreases t@,
        {
            let (q, r) = div_rem(&t, &ten);
            let d = r.as_u64();
            proof {
                let l = digs@.len();
                assert(digs@.push(d).drop_last() =~= digs@);
                assert(pow10((l + 1) as nat) == 10 * pow10(l));
                let qv = q@ as int;
                let rv = r@ as int;
                let p = pow10(l) as int;
                assert((qv * 10 + rv) * p == qv * (10 * p) + rv * p) by (nonlinear_arith);
                if qv == 0 {
                    assert(rv > 0);
                } else {
                    assert(t@ == qv * 10 + rv);
                    assert(qv < t@);
                }
            }
            digs.push(d);
            t = q;
            go = !t.is_zero();
        }
        proof {
            assert(t@ * pow10(digs@.len()) == 0) by (nonlinear_arith)
                requires
                    t@ == 0nat,
            ;
            assert(v0 == digits_le_val(digs@));
        }
        let ghost l0 = digs@.len() as int;
        let mut out = String::new();
        let mut j = digs.len();
        proof {
            assert(digs@.skip(l0) =~= Seq::<u64>::empty());
            assert(digits_le_val(Seq::<u64>::empty()) == 0);
            assert(dec_str_val(Seq::<char>::empty()) == 0);
        }
        while j > 0
            invariant
                l0 == digs@.len(),
                j <= l0,
                forall|jj: int| 0 <= jj < digs@.len() ==> digs@[jj] < 10,
                digs@.len() > 0 && digs@.last() > 0,
                out@.len() == l0 - j,
                dec_str_val(out@) == digits_le_val(digs@.skip(j as int)),
                forall|m: int| 0 <= m < out@.len() ==> is_dec_digit(out@[m]),
                out@.len() > 0 ==> digit_val(out@[0]) == digs@.last(),
            decreases j,
        {
            j = j - 1;
            let d = digs[j];
            proof {
                lemma_digit_char_val(d as nat);
                let c = digit_char(d as nat);
                assert(out@.push(c).drop_last() =~= out@);
                let u = digs@.skip(j as int);
                lemma_digits_le_cons(u);
                assert(u.skip(1) =~= digs@.skip(j + 1));
            }
            push_digit(&mut out, d);
        }
        proof {
            assert(digs@.skip(0) =~= digs@);
            assert(dec_str_val(out@) == digits_le_val(digs@));
            assert(dec_str_val(out@) == v0);
        }
        out
    }
}

impl PartialEq for BigUInt {
    /// Representation equality; on canonical values this is value equality.
    fn eq(&self, other: &BigUInt) -> (r: bool)
        ensures
            r == self.same_repr(other),
    {
        if self.inner.len() != other.inner.len() {
            proof {
                assert(self.inner@.len() != other.inner@.len());
            }
            return false;
        }
        let n = self.inner.len();
        let mut i: usize = 0;
        while i < n
            invariant
                n == self.inner.len(),
                n == other.inner.len(),
                i <= n,
                forall|j: int| 0 <= j < i ==> self.inner@[j] == other.inner@[j],
            decreases n - i,
        {
            if self.inner[i] != other.inner[i] {
                return false;
            }
            i = i + 1;
        }
        proof {
            assert(self.inner@ =~= other.inner@);
        }
        true
    }
}

impl vstd::std_specs::cmp::PartialEqSpecImpl for BigUInt {
    open spec fn obeys_eq_spec() -> bool {
        true
    }

    open spec fn eq_spec(&self, other: &BigUInt) -> bool {
        self.same_repr(other)
    }
}


/// Distance measure for scaling the divisor up past the dividend.
spec fn scale_gap(l: nat, d: nat) -> nat {
    if d <= l {
        (l + 1 - d) as nat
    } else {
        0
    }
}

/// Division with remainder by repeated shifting and subtraction.
pub fn div_rem(lhs: &BigUInt, rhs: &BigUInt) -> (qr: (BigUInt, BigUInt))
    requires
        lhs.wf(),
        rhs.wf(),
        rhs@ > 0,
    ensures
        qr.0.wf(),
        qr.1.wf(),
        qr.0@ == lhs@ / rhs@,
        qr.1@ == lhs@ % rhs@,
        qr.0@ * rhs@ + qr.1@ == lhs@,
{
    let ghost d0 = rhs@;
    if lhs.lt(rhs) {
        let q = BigUInt::zero();
        let r = lhs.clone();
        proof {
            vstd::arithmetic::div_mod::lemma_fundamental_div_mod_converse(
                lhs@ as int,
                d0 as int,
                0,
                lhs@ as int,
            );
        }
        return (q, r);
    }
    let mut rem = lhs.clone();
    let mut div = rhs.clone();
    let mut shift = BigUInt::one();
    let mut quot = BigUInt::zero();
    let ghost mut k: nat = 0;
    proof {
        lemma2_to64();
    }
    // Scale the divisor up until it exceeds the dividend.
    let mut more = !rem.lt(&div);
    while more
        invariant
            rem.wf(),
            div.wf(),
            shift.wf(),
            rem@ == lhs@,
            d0 == rhs@,
            d0 > 0,
            shift@ == pow2(k),
            div@ == d0 * pow2(k),
            more == (rem@ >= div@),
        decreases scale_gap(lhs@, div@),
    {
        proof {
            lemma_pow2_pos(k);
            assert(d0 * pow2(k) >= 1 * pow2(k)) by (nonlinear_arith)
                requires
                    d0 >= 1,
            ;
        }
        div.shl_once();
        shift.shl_once();
        proof {
            k = k + 1;
            vstd::arithmetic::power2::lemma_pow2_unfold(k);
            assert(2 * (d0 * pow2((k - 1) as nat)) == d0 * pow2(k)) by (nonlinear_arith)
                requires
                    pow2(k) == 2 * pow2((k - 1) as nat),
            ;
            assert(d0 * pow2((k - 1) as nat) >= 1 * pow2((k - 1) as nat)) by (nonlinear_arith)
                requires
                    d0 >= 1,
            ;
            lemma_pow2_pos((k - 1) as nat);
        }
        more = !rem.lt(&div);
    }
    proof {
        lemma_pow2_pos(k);
    }
    // Walk the divisor back down, subtracting where it fits.
    let mut go = !rem.is_zero() && !shift.is_zero();
    while go
        invariant
            rem.wf(),
            div.wf(),
            shift.wf(),
            quot.wf(),
            d0 == rhs@,
            d0 > 0,
            quot@ * d0 + rem@ == lhs@,
            shift@ > 0 ==> shift@ == pow2(k) && div@ == d0 * pow2(k) && rem@ < 2 * div@,
            shift@ == 0 ==> rem@ < d0,
            go == (rem@ > 0 && shift@ > 0),
        decreases shift@,
    {
        let ghost shift0 = shift@;
        let ghost div_before = div@;
        if !rem.lt(&div) {
            let r2 = rem.sub(&div);
            let q2 = quot.add(&shift);
            proof {
                assert(q2@ * d0 == quot@ * d0 + shift@ * d0) by (nonlinear_arith)
                    requires
                        q2@ == quot@ + shift@,
                ;
                assert(shift@ * d0 == div@) by (nonlinear_arith)
                    requires
                        shift@ == pow2(k),
                        div@ == d0 * pow2(k),
                ;
            }
            rem = r2;
            quot = q2;
        }
        // here the remainder is below the scaled divisor
        div.shr_once();
        shift.shr_once();
        proof {
            lemma_pow2_pos(k);
            if k > 0 {
                vstd::arithmetic::power2::lemma_pow2_unfold(k);
                lemma_pow2_pos((k - 1) as nat);
                assert(pow2(k) / 2 == pow2((k - 1) as nat)) by (nonlinear_arith)
                    requires
                        pow2(k) == 2 * pow2((k - 1) as nat),
                ;
                assert((d0 * pow2(k)) / 2 == d0 * pow2((k - 1) as nat)) by (nonlinear_arith)
                    requires
                        pow2(k) == 2 * pow2((k - 1) as nat),
                ;
                assert(d0 * pow2(k) == 2 * (d0 * pow2((k - 1) as nat))) by (nonlinear_arith)
                    requires
                        pow2(k) == 2 * pow2((k - 1) as nat),
                ;
                k = (k - 1) as nat;
            } else {
                lemma2_to64();
                assert(pow2(k) == 1);
                assert(shift0 == 1);
                assert(d0 * 1 == d0) by (nonlinear_arith);
                assert(div_before == d0);
            }
        }
        go = !rem.is_zero() && !shift.is_zero();
    }
    proof {
        vstd::arithmetic::div_mod::lemma_fundamental_div_mod_converse(
            lhs@ as int,
            d0 as int,
            quot@ as int,
            rem@ as int,
        );
    }
    (quot, rem)
}

} // verus!
