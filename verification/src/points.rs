//! Query points and the coordinate-list grammar.
//!
//! A query string is a list of coordinate tuples such as
//! `"(48.35,5.3),(48.43,5.23)"`. Parens and commas are structural delimiters
//! and tuples may be concatenated without separators between them. Each
//! scalar is a decimal number in fixed-point range: an optional sign, digits
//! with at most one dot, and an optional exponent field; the value is kept to
//! six fractional digits and must stay below a trillion whole units.

use vstd::prelude::*;

verus! {

/// A geographic point, in millionths of a degree.
#[derive(Clone, Copy, Debug, PartialEq, Eq, Structural)]
pub struct Point {
    pub lat: i64,
    pub lon: i64,
}

/// Why a query string was rejected.
#[derive(Clone, Copy, Debug, PartialEq, Eq, Structural)]
pub enum PointParseError {
    /// A tuple does not contain exactly two values.
    BadTuple,
    /// A scalar is not a decimal number in fixed-point range.
    BadScalar,
}

// ---------------------------------------------------------------------------
// Decimal scalars.
// ---------------------------------------------------------------------------

/// Upper bound (exclusive) on a scalar's magnitude in millionths of a unit:
/// values must stay below a trillion whole units to fit the fixed-point
/// range.
pub const MAX_SCALAR_MICROS: u64 = 1000000000000000000;

/// Upper bound (inclusive) on the digits of an exponent field. Any value the
/// fixed-point range can hold needs far less; larger exponents are rejected
/// with the out-of-range scalars.
pub const MAX_EXPONENT: u64 = 1000000;

pub open spec fn is_digit(c: char) -> bool {
    '0' as int <= c as int <= '9' as int
}

pub open spec fn digit_val(c: char) -> int {
    c as int - '0' as int
}

pub open spec fn all_digits(s: Seq<char>) -> bool {
    forall|i: int| 0 <= i < s.len() ==> is_digit(#[trigger] s[i])
}

/// The value of a digit string read in base ten; the empty string reads as
/// zero.
pub open spec fn digits_val(s: Seq<char>) -> int
    decreases s.len(),
{
    if s.len() == 0 {
        0
    } else {
        digits_val(s.drop_last()) * 10 + digit_val(s.last())
    }
}

/// Ten to the `k`th power.
pub open spec fn pow10(k: int) -> int
    decreases k,
{
    if k <= 0 {
        1
    } else {
        10 * pow10(k - 1)
    }
}

/// The index of the first `.` in `s`, or `-1` if there is none.
pub open spec fn first_dot(s: Seq<char>) -> int
    decreases s.len(),
{
    if s.len() == 0 {
        -1
    } else if s[0] == '.' {
        0
    } else {
        let r = first_dot(s.drop_first());
        if r < 0 {
            -1
        } else {
            r + 1
        }
    }
}

/// A character that opens an exponent field.
pub open spec fn is_exp_char(c: char) -> bool {
    c == 'e' || c == 'E'
}

/// The index of the first `e` or `E` in `s`, or `-1` if there is none.
pub open spec fn first_exp(s: Seq<char>) -> int
    decreases s.len(),
{
    if s.len() == 0 {
        -1
    } else if is_exp_char(s[0]) {
        0
    } else {
        let r = first_exp(s.drop_first());
        if r < 0 {
            -1
        } else {
            r + 1
        }
    }
}

/// Number of leading sign characters of a scalar: one when it starts with
/// `+` or `-`, else zero.
pub open spec fn sign_len(s: Seq<char>) -> int {
    if s.len() > 0 && (s[0] == '+' || s[0] == '-') {
        1
    } else {
        0
    }
}

/// The scalar with its sign stripped.
pub open spec fn scalar_body(s: Seq<char>) -> Seq<char> {
    s.skip(sign_len(s))
}

/// The mantissa of a scalar body: what stands before the exponent marker.
pub open spec fn mantissa_of(b: Seq<char>) -> Seq<char> {
    if first_exp(b) < 0 {
        b
    } else {
        b.take(first_exp(b))
    }
}

/// The exponent field of a scalar body: what follows the marker.
pub open spec fn exp_field(b: Seq<char>) -> Seq<char> {
    if first_exp(b) < 0 {
        Seq::empty()
    } else {
        b.skip(first_exp(b) + 1)
    }
}

/// The integer digits of a mantissa: what stands before the dot.
pub open spec fn int_digits(m: Seq<char>) -> Seq<char> {
    if first_dot(m) < 0 {
        m
    } else {
        m.take(first_dot(m))
    }
}

/// The fraction digits of a mantissa: what follows the dot.
pub open spec fn frac_digits(m: Seq<char>) -> Seq<char> {
    if first_dot(m) < 0 {
        Seq::empty()
    } else {
        m.skip(first_dot(m) + 1)
    }
}

/// A well-formed exponent field: an optional sign, then digits, read as a
/// value of at most a million.
pub open spec fn exp_ok(es: Seq<char>) -> bool {
    let ed = es.skip(sign_len(es));
    &&& ed.len() > 0
    &&& all_digits(ed)
    &&& digits_val(ed) <= MAX_EXPONENT
}

/// The signed exponent of a scalar body; zero when there is none.
pub open spec fn exp_val(b: Seq<char>) -> int {
    if first_exp(b) < 0 {
        0
    } else {
        let es = exp_field(b);
        let v = digits_val(es.skip(sign_len(es)));
        if es.len() > 0 && es[0] == '-' {
            -v
        } else {
            v
        }
    }
}

/// A digit string's value under a decimal shift, truncated toward zero.
pub open spec fn shifted_micros(d: Seq<char>, shift: int) -> int {
    if shift >= 0 {
        digits_val(d) * pow10(shift)
    } else {
        digits_val(d) / pow10(-shift)
    }
}

/// The magnitude of a scalar body in millionths: the mantissa digits shifted
/// by the exponent, truncated toward zero beyond the sixth fractional place.
pub open spec fn scalar_mag_micros(b: Seq<char>) -> int {
    let m = mantissa_of(b);
    shifted_micros(int_digits(m) + frac_digits(m), exp_val(b) + 6 - frac_digits(m).len())
}

/// A well-formed scalar: optional sign, digits with at most one dot, at
/// least one mantissa digit, an optional exponent field, and a magnitude the
/// fixed-point range can hold.
pub open spec fn scalar_ok(s: Seq<char>) -> bool {
    let b = scalar_body(s);
    let m = mantissa_of(b);
    &&& all_digits(int_digits(m))
    &&& all_digits(frac_digits(m))
    &&& int_digits(m).len() + frac_digits(m).len() > 0
    &&& (first_exp(b) >= 0 ==> exp_ok(exp_field(b)))
    &&& scalar_mag_micros(b) < MAX_SCALAR_MICROS
}

/// The value of a well-formed scalar, in millionths of a unit.
pub open spec fn scalar_micros(s: Seq<char>) -> int {
    if s.len() > 0 && s[0] == '-' {
        -scalar_mag_micros(scalar_body(s))
    } else {
        scalar_mag_micros(scalar_body(s))
    }
}

pub proof fn lemma_digits_val_nonneg(s: Seq<char>)
    requires
        all_digits(s),
    ensures
        digits_val(s) >= 0,
    decreases s.len(),
{
    if s.len() > 0 {
        assert(all_digits(s.drop_last()));
        lemma_digits_val_nonneg(s.drop_last());
    }
}

/// Reading more digits never decreases the value.
pub proof fn lemma_digits_val_prefix_le(s: Seq<char>, j: int)
    requires
        all_digits(s),
        0 <= j <= s.len(),
    ensures
        digits_val(s.take(j)) <= digits_val(s),
    decreases s.len(),
{
    if j < s.len() {
        assert(all_digits(s.drop_last()));
        assert(s.take(j) =~= s.drop_last().take(j));
        lemma_digits_val_prefix_le(s.drop_last(), j);
        lemma_digits_val_nonneg(s.drop_last());
    } else {
        assert(s.take(j) =~= s);
    }
}

/// `first_dot` names the first dot: everything before it is not a dot, and a
/// negative answer means there is no dot at all.
pub proof fn lemma_first_dot_props(s: Seq<char>)
    ensures
        first_dot(s) >= 0 ==> {
            &&& first_dot(s) < s.len()
            &&& s[first_dot(s)] == '.'
            &&& forall|k: int| 0 <= k < first_dot(s) ==> s[k] != '.'
        },
        first_dot(s) < 0 ==> forall|k: int| 0 <= k < s.len() ==> s[k] != '.',
    decreases s.len(),
{
    if s.len() > 0 && s[0] != '.' {
        lemma_first_dot_props(s.drop_first());
        if first_dot(s.drop_first()) >= 0 {
            let d = first_dot(s);
            assert(d == first_dot(s.drop_first()) + 1);
            assert(s[d] == s.drop_first()[d - 1]);
            assert forall|k: int| 0 <= k < d implies s[k] != '.' by {
                if k > 0 {
                    assert(s[k] == s.drop_first()[k - 1]);
                }
            }
        } else {
            assert forall|k: int| 0 <= k < s.len() implies s[k] != '.' by {
                if k > 0 {
                    assert(s[k] == s.drop_first()[k - 1]);
                }
            }
        }
    }
}

/// Any index that is a dot with no dot before it is `first_dot`.
pub proof fn lemma_first_dot_at(s: Seq<char>, j: int)
    requires
        0 <= j < s.len(),
        s[j] == '.',
        forall|k: int| 0 <= k < j ==> s[k] != '.',
    ensures
        first_dot(s) == j,
    decreases s.len(),
{
    if s[0] != '.' {
        assert forall|k: int| 0 <= k < j - 1 implies s.drop_first()[k] != '.' by {
            assert(s.drop_first()[k] == s[k + 1]);
        }
        lemma_first_dot_at(s.drop_first(), j - 1);
    }
}

/// A digit string's value is below ten to the power of its length.
pub proof fn lemma_digits_val_bound(s: Seq<char>)
    requires
        all_digits(s),
    ensures
        0 <= digits_val(s) < pow10(s.len() as int),
    decreases s.len(),
{
    if s.len() > 0 {
        assert(all_digits(s.drop_last()));
        lemma_digits_val_bound(s.drop_last());
    }
}

/// `first_exp` names the first exponent marker: everything before it is no
/// marker, and a negative answer means there is none at all.
pub proof fn lemma_first_exp_props(s: Seq<char>)
    ensures
        first_exp(s) >= 0 ==> {
            &&& first_exp(s) < s.len()
            &&& is_exp_char(s[first_exp(s)])
            &&& forall|k: int| 0 <= k < first_exp(s) ==> !is_exp_char(s[k])
        },
        first_exp(s) < 0 ==> forall|k: int| 0 <= k < s.len() ==> !is_exp_char(s[k]),
    decreases s.len(),
{
    if s.len() > 0 && !is_exp_char(s[0]) {
        lemma_first_exp_props(s.drop_first());
        if first_exp(s.drop_first()) >= 0 {
            let d = first_exp(s);
            assert(d == first_exp(s.drop_first()) + 1);
            assert(s[d] == s.drop_first()[d - 1]);
            assert forall|k: int| 0 <= k < d implies !is_exp_char(s[k]) by {
                if k > 0 {
                    assert(s[k] == s.drop_first()[k - 1]);
                }
            }
        } else {
            assert forall|k: int| 0 <= k < s.len() implies !is_exp_char(s[k]) by {
                if k > 0 {
                    assert(s[k] == s.drop_first()[k - 1]);
                }
            }
        }
    }
}

/// Any exponent marker with no marker before it is `first_exp`.
pub proof fn lemma_first_exp_at(s: Seq<char>, j: int)
    requires
        0 <= j < s.len(),
        is_exp_char(s[j]),
        forall|k: int| 0 <= k < j ==> !is_exp_char(s[k]),
    ensures
        first_exp(s) == j,
    decreases s.len(),
{
    if !is_exp_char(s[0]) {
        assert forall|k: int| 0 <= k < j - 1 implies !is_exp_char(s.drop_first()[k]) by {
            assert(s.drop_first()[k] == s[k + 1]);
        }
        lemma_first_exp_at(s.drop_first(), j - 1);
    }
}

/// Ten to any power is at least one.
pub proof fn lemma_pow10_pos(k: int)
    ensures
        pow10(k) >= 1,
    decreases k,
{
    if k > 0 {
        lemma_pow10_pos(k - 1);
    }
}

/// Larger powers of ten are no smaller.
pub proof fn lemma_pow10_mono(a: int, b: int)
    requires
        a <= b,
    ensures
        pow10(a) <= pow10(b),
    decreases b - a,
{
    if a < b {
        lemma_pow10_mono(a, b - 1);
        lemma_pow10_pos(b - 1);
    }
}

/// Concatenated digit strings read as the left value shifted past the right.
pub proof fn lemma_digits_split(a: Seq<char>, b: Seq<char>)
    ensures
        digits_val(a + b) == digits_val(a) * pow10(b.len() as int) + digits_val(b),
    decreases b.len(),
{
    if b.len() == 0 {
        assert(a + b =~= a);
    } else {
        assert((a + b).drop_last() =~= a + b.drop_last());
        assert((a + b).last() == b.last());
        lemma_digits_split(a, b.drop_last());
        assert((digits_val(a) * pow10(b.len() - 1)) * 10 == digits_val(a) * pow10(
            b.len() as int,
        )) by (nonlinear_arith)
            requires
                pow10(b.len() as int) == 10 * pow10(b.len() - 1),
        ;
    }
}

/// Cutting a digit string after its first `k` digits divides its value by a
/// power of ten, dropping the rest.
pub proof fn lemma_digits_take_div(s: Seq<char>, k: int)
    requires
        all_digits(s),
        0 <= k <= s.len(),
    ensures
        digits_val(s.take(k)) == digits_val(s) / pow10(s.len() - k),
{
    let a = s.take(k);
    let b = s.skip(k);
    assert(s =~= a + b);
    lemma_digits_split(a, b);
    assert(all_digits(b)) by {
        assert forall|i: int| 0 <= i < b.len() implies is_digit(#[trigger] b[i]) by {
            assert(b[i] == s[k + i]);
        }
    }
    assert(all_digits(a)) by {
        assert forall|i: int| 0 <= i < a.len() implies is_digit(#[trigger] a[i]) by {
            assert(a[i] == s[i]);
        }
    }
    lemma_digits_val_bound(b);
    lemma_digits_val_nonneg(a);
    vstd::arithmetic::div_mod::lemma_fundamental_div_mod_converse(
        digits_val(s),
        pow10(b.len() as int),
        digits_val(a),
        digits_val(b),
    );
}

/// A digit string's value under a decimal shift, read off the digits that
/// survive it: none for a shift past the whole string, a prefix for a
/// leftward shift, trailing zeros for a rightward one.
pub proof fn lemma_shifted_value(d: Seq<char>, shift: int)
    requires
        all_digits(d),
    ensures
        ({
            let n_keep = d.len() + shift;
            shifted_micros(d, shift) == if n_keep <= 0 {
                0
            } else if n_keep >= d.len() {
                digits_val(d) * pow10(shift)
            } else {
                digits_val(d.take(n_keep))
            }
        }),
{
    let n_keep = d.len() + shift;
    if shift < 0 {
        if n_keep <= 0 {
            lemma_digits_val_bound(d);
            lemma_pow10_mono(d.len() as int, -shift);
            vstd::arithmetic::div_mod::lemma_fundamental_div_mod_converse(
                digits_val(d),
                pow10(-shift),
                0,
                digits_val(d),
            );
        } else {
            lemma_digits_take_div(d, n_keep);
        }
    }
}

/// Whether a character is a decimal digit; on a digit, also its value.
fn digit_of(c: char) -> (r: Option<u8>)
    ensures
        match r {
            Some(d) => is_digit(c) && d == digit_val(c),
            None => !is_digit(c),
        },
{
    let u = c as u32;
    if 48 <= u && u <= 57 {
        Some((u - 48) as u8)
    } else {
        None
    }
}

/// Parses one scalar: `Ok` with the fixed-point value exactly on well-formed
/// scalars, `BadScalar` on everything else.
#[verifier::rlimit(100)]
fn parse_scalar(cs: &Vec<char>) -> (r: Result<i64, PointParseError>)
    ensures
        match r {
            Ok(v) => scalar_ok(cs@) && v == scalar_micros(cs@),
            Err(e) => !scalar_ok(cs@) && e == PointParseError::BadScalar,
        },
{
    let n = cs.len();
    let mut bs: usize = 0;
    let mut neg = false;
    if n > 0 && (cs[0] == '+' || cs[0] == '-') {
        neg = cs[0] == '-';
        bs = 1;
    }
    proof {
        assert(sign_len(cs@) == bs);
        assert(neg <==> (cs@.len() > 0 && cs@[0] == '-'));
    }
    let ghost b = scalar_body(cs@);

    // Integer digits, collected by value.
    let mut vals: Vec<u8> = Vec::new();
    let mut i: usize = bs;
    while i < n && cs[i] != '.' && cs[i] != 'e' && cs[i] != 'E'
        invariant
            bs <= i <= n,
            n == cs@.len(),
            bs == sign_len(cs@),
            b == cs@.skip(bs as int),
            vals@.len() == i - bs,
            forall|k: int|
                0 <= k < i - bs ==> is_digit(#[trigger] b[k]) && vals@[k] == digit_val(b[k]),
        decreases n - i,
    {
        proof {
            assert(b[i - bs] == cs@[i as int]);
        }
        let d = match digit_of(cs[i]) {
            Some(d) => d,
            None => {
                proof {
                    lemma_bad_int_char(cs@, bs as int, i - bs);
                }
                return Err(PointParseError::BadScalar);
            },
        };
        vals.push(d);
        i = i + 1;
    }
    let ip_len = i - bs;

    // The optional dot and the fraction digits.
    let mut has_dot = false;
    if i < n && cs[i] == '.' {
        has_dot = true;
        proof {
            assert(b[ip_len as int] == cs@[i as int]);
        }
        i = i + 1;
        while i < n && cs[i] != 'e' && cs[i] != 'E'
            invariant
                bs + ip_len < i <= n,
                n == cs@.len(),
                bs == sign_len(cs@),
                b == cs@.skip(bs as int),
                b[ip_len as int] == '.',
                vals@.len() == i - bs - 1,
                forall|k: int|
                    0 <= k < ip_len ==> is_digit(#[trigger] b[k]) && vals@[k] == digit_val(b[k]),
                forall|k: int|
                    ip_len < k < i - bs ==> is_digit(#[trigger] b[k]) && vals@[k - 1]
                        == digit_val(b[k]),
            decreases n - i,
        {
            proof {
                assert(b[i - bs] == cs@[i as int]);
            }
            let d = match digit_of(cs[i]) {
                Some(d) => d,
                None => {
                    proof {
                        lemma_bad_frac_char(cs@, bs as int, ip_len as int, i - bs);
                    }
                    return Err(PointParseError::BadScalar);
                },
            };
            vals.push(d);
            i = i + 1;
        }
    }
    let mant_end = i;
    let ghost mant_rel = mant_end - bs;
    let dlen = vals.len();

    // Place the grammar's pieces over the scanned regions.
    let ghost m = mantissa_of(b);
    proof {
        if mant_end < n {
            assert(b[mant_rel as int] == cs@[mant_end as int]);
        }
        lemma_scan_pieces(b, ip_len as int, mant_rel as int, has_dot);
    }
    let ghost d_seq = int_digits(m) + frac_digits(m);
    proof {
        assert(d_seq.len() == dlen);
        assert forall|k: int|
            0 <= k < dlen implies is_digit(#[trigger] d_seq[k]) && vals@[k] == digit_val(
            d_seq[k],
        ) by {
            if k < ip_len {
                assert(d_seq[k] == b[k]);
            } else {
                assert(d_seq[k] == b[k + 1]);
            }
        }
        assert(all_digits(d_seq));
        assert(all_digits(int_digits(m))) by {
            assert forall|k: int|
                0 <= k < int_digits(m).len() implies is_digit(#[trigger] int_digits(m)[k]) by {
                assert(int_digits(m)[k] == d_seq[k]);
            }
        }
        assert(all_digits(frac_digits(m))) by {
            assert forall|k: int|
                0 <= k < frac_digits(m).len() implies is_digit(#[trigger] frac_digits(m)[k]) by {
                assert(frac_digits(m)[k] == d_seq[ip_len + k]);
            }
        }
    }

    // The optional exponent: a marker, an optional sign, then digits.
    let mut exp_neg = false;
    let mut ev: u64 = 0;
    if mant_end < n {
        match parse_exponent(cs, bs, mant_end, Ghost(b)) {
            Some((neg_found, v)) => {
                exp_neg = neg_found;
                ev = v;
            },
            None => {
                return Err(PointParseError::BadScalar);
            },
        }
    } else {
        proof {
            assert(exp_val(b) == 0);
        }
    }

    if dlen == 0 {
        proof {
            assert(int_digits(m).len() + frac_digits(m).len() == 0);
        }
        return Err(PointParseError::BadScalar);
    }

    let ghost shift = exp_val(b) + 6 - frac_digits(m).len();
    proof {
        assert(d_seq.len() - ip_len == frac_digits(m).len());
    }
    let mag = match scalar_magnitude(&vals, ip_len, exp_neg, ev, Ghost(d_seq), Ghost(shift)) {
        Some(mag) => mag,
        None => {
            proof {
                assert(scalar_mag_micros(b) == shifted_micros(d_seq, shift));
            }
            return Err(PointParseError::BadScalar);
        },
    };
    proof {
        assert(scalar_mag_micros(b) == shifted_micros(d_seq, shift));
        assert(scalar_ok(cs@));
    }
    let v: i64 = if neg {
        -(mag as i64)
    } else {
        mag as i64
    };
    Ok(v)
}

/// Reads the exponent field that starts at `mant_end`: the marker, an
/// optional sign, then digits valued at most a million; `None` on a
/// malformed or oversized field.
fn parse_exponent(cs: &Vec<char>, bs: usize, mant_end: usize, Ghost(b): Ghost<Seq<char>>) -> (r:
    Option<(bool, u64)>)
    requires
        bs == sign_len(cs@),
        b == cs@.skip(bs as int),
        bs <= mant_end < cs@.len(),
        first_exp(b) == mant_end - bs,
    ensures
        match r {
            Some(p) => {
                &&& exp_ok(exp_field(b))
                &&& p.1 <= MAX_EXPONENT
                &&& exp_val(b) == if p.0 {
                    -(p.1 as int)
                } else {
                    p.1 as int
                }
            },
            None => !exp_ok(exp_field(b)),
        },
{
    let n = cs.len();
    let ghost mant_rel = mant_end - bs;
    let ghost es = exp_field(b);
    proof {
        assert(es =~= b.skip(mant_rel + 1));
    }
    let mut i = mant_end + 1;
    let mut exp_neg = false;
    if i < n && (cs[i] == '+' || cs[i] == '-') {
        proof {
            assert(es[0] == b[mant_rel + 1]);
            assert(b[mant_rel + 1] == cs@[mant_end + 1]);
        }
        exp_neg = cs[i] == '-';
        i = i + 1;
    }
    let ed_start = i;
    let ghost ed = es.skip(sign_len(es));
    proof {
        if es.len() > 0 {
            assert(es[0] == b[mant_rel + 1]);
            assert(b[mant_rel + 1] == cs@[mant_end + 1]);
        }
        assert(sign_len(es) == ed_start - mant_end - 1);
        assert(ed =~= b.skip(ed_start - bs));
        assert(exp_neg <==> (es.len() > 0 && es[0] == '-'));
    }
    if i == n {
        proof {
            assert(ed.len() == 0);
        }
        return None;
    }
    let mut ev: u64 = 0;
    while i < n
        invariant
            bs <= ed_start <= i <= n,
            n == cs@.len(),
            b == cs@.skip(bs as int),
            ed == exp_field(b).skip(sign_len(exp_field(b))),
            ed == b.skip(ed_start - bs),
            ev == digits_val(ed.take(i - ed_start)),
            ev <= MAX_EXPONENT,
            forall|k: int| 0 <= k < i - ed_start ==> is_digit(#[trigger] ed[k]),
        decreases n - i,
    {
        proof {
            assert(ed[i - ed_start] == cs@[i as int]);
        }
        let d = match digit_of(cs[i]) {
            Some(d) => d,
            None => {
                proof {
                    assert(!all_digits(ed));
                }
                return None;
            },
        };
        proof {
            assert(ed.take(i - ed_start + 1).drop_last() =~= ed.take(i - ed_start));
            assert(ed.take(i - ed_start + 1).last() == ed[i - ed_start]);
        }
        ev = ev * 10 + (d as u64);
        if ev > MAX_EXPONENT {
            proof {
                if all_digits(ed) {
                    lemma_digits_val_prefix_le(ed, i - ed_start + 1);
                }
            }
            return None;
        }
        i = i + 1;
    }
    proof {
        assert(ed.take(n - ed_start) =~= ed);
        assert(exp_ok(exp_field(b)));
        assert(exp_val(b) == if exp_neg {
            -(ev as int)
        } else {
            ev as int
        });
    }
    Some((exp_neg, ev))
}

/// Computes a digit string's value under the exponent's decimal shift, in
/// millionths; `None` when the value leaves the fixed-point range.
fn scalar_magnitude(
    vals: &Vec<u8>,
    ip_len: usize,
    exp_neg: bool,
    ev: u64,
    Ghost(d_seq): Ghost<Seq<char>>,
    Ghost(shift): Ghost<int>,
) -> (r: Option<u64>)
    requires
        ev <= MAX_EXPONENT,
        ip_len <= vals@.len(),
        d_seq.len() == vals@.len(),
        forall|k: int|
            0 <= k < d_seq.len() ==> is_digit(#[trigger] d_seq[k]) && vals@[k] == digit_val(
                d_seq[k],
            ),
        shift == (if exp_neg {
            -(ev as int)
        } else {
            ev as int
        }) + 6 - (d_seq.len() - ip_len),
    ensures
        match r {
            Some(mag) => mag == shifted_micros(d_seq, shift) && mag < MAX_SCALAR_MICROS,
            None => shifted_micros(d_seq, shift) >= MAX_SCALAR_MICROS,
        },
{
    let dlen = vals.len();
    let n_keep: i128 = ip_len as i128 + (if exp_neg {
        -(ev as i128)
    } else {
        ev as i128
    }) + 6;
    proof {
        assert(n_keep == d_seq.len() + shift);
        lemma_shifted_value(d_seq, shift);
        lemma_digits_val_nonneg(d_seq);
    }

    let mut mag: u64 = 0;
    if n_keep > 0 {
        let keep: usize = if n_keep >= dlen as i128 {
            dlen
        } else {
            n_keep as usize
        };
        let ghost kept = d_seq.take(keep as int);
        proof {
            assert(all_digits(kept)) by {
                assert forall|q: int| 0 <= q < kept.len() implies is_digit(#[trigger] kept[q]) by {
                    assert(kept[q] == d_seq[q]);
                }
            }
        }
        let mut j: usize = 0;
        #[verifier::loop_isolation(false)]
        while j < keep
            invariant
                0 <= j <= keep,
                mag == digits_val(d_seq.take(j as int)),
                mag < MAX_SCALAR_MICROS,
            decreases keep - j,
        {
            proof {
                assert(d_seq.take(j + 1).drop_last() =~= d_seq.take(j as int));
                assert(d_seq.take(j + 1).last() == d_seq[j as int]);
            }
            mag = mag * 10 + (vals[j] as u64);
            if mag >= MAX_SCALAR_MICROS {
                proof {
                    assert(kept.take(j + 1) =~= d_seq.take(j + 1));
                    lemma_digits_val_prefix_le(kept, j + 1);
                    if n_keep >= dlen as i128 {
                        assert(kept =~= d_seq);
                        lemma_pow10_pos(shift);
                        assert(digits_val(d_seq) * pow10(shift) >= digits_val(
                            d_seq,
                        )) by (nonlinear_arith)
                            requires
                                digits_val(d_seq) >= 0,
                                pow10(shift) >= 1,
                        ;
                    }
                }
                return None;
            }
            j = j + 1;
        }
        if n_keep > dlen as i128 {
            // The shift runs past the collected digits.
            proof {
                assert(kept =~= d_seq);
                assert(shift == n_keep - dlen);
            }
            if mag > 0 {
                let pad_total: i128 = n_keep - dlen as i128;
                proof {
                    assert(pow10(0) == 1);
                    assert(mag == digits_val(d_seq) * pow10(0)) by (nonlinear_arith)
                        requires
                            pow10(0) == 1,
                            mag == digits_val(d_seq),
                    ;
                }
                let mut k: i128 = 0;
                #[verifier::loop_isolation(false)]
                while k < pad_total
                    invariant
                        0 <= k <= pad_total,
                        mag == digits_val(d_seq) * pow10(k as int),
                        mag < MAX_SCALAR_MICROS,
                    decreases pad_total - k,
                {
                    proof {
                        assert((digits_val(d_seq) * pow10(k as int)) * 10 == digits_val(d_seq)
                            * pow10(k as int + 1)) by (nonlinear_arith)
                            requires
                                pow10(k as int + 1) == 10 * pow10(k as int),
                        ;
                    }
                    mag = mag * 10;
                    if mag >= MAX_SCALAR_MICROS {
                        proof {
                            lemma_pow10_mono(k as int + 1, pad_total as int);
                            assert(digits_val(d_seq) * pow10(pad_total as int) >= digits_val(d_seq)
                                * pow10(k as int + 1)) by (nonlinear_arith)
                                requires
                                    digits_val(d_seq) >= 0,
                                    pow10(pad_total as int) >= pow10(k as int + 1),
                            ;
                        }
                        return None;
                    }
                    k = k + 1;
                }
                proof {
                    assert(mag == digits_val(d_seq) * pow10(shift));
                }
            } else {
                proof {
                    assert(d_seq.take(keep as int) =~= d_seq);
                    assert(digits_val(d_seq) == 0);
                    assert(digits_val(d_seq) * pow10(shift) == 0) by (nonlinear_arith)
                        requires
                            digits_val(d_seq) == 0,
                    ;
                }
            }
        } else {
            proof {
                if n_keep == dlen as i128 {
                    assert(shift == 0);
                    assert(pow10(0) == 1);
                    assert(d_seq.take(keep as int) =~= d_seq);
                }
            }
        }
    }
    proof {
        assert(mag == shifted_micros(d_seq, shift));
    }
    Some(mag)
}

/// Reads the grammar's pieces off a scanned body: digits up to `ip_len`, an
/// optional dot, fraction digits up to `mant_rel`, and an exponent marker
/// there if anything follows.
proof fn lemma_scan_pieces(b: Seq<char>, ip_len: int, mant_rel: int, has_dot: bool)
    requires
        0 <= ip_len <= mant_rel <= b.len(),
        has_dot ==> ip_len < mant_rel && b[ip_len] == '.',
        !has_dot ==> ip_len == mant_rel,
        forall|k: int| 0 <= k < ip_len ==> is_digit(#[trigger] b[k]),
        has_dot ==> forall|k: int| ip_len < k < mant_rel ==> is_digit(#[trigger] b[k]),
        mant_rel < b.len() ==> is_exp_char(b[mant_rel]),
    ensures
        first_exp(b) == if mant_rel < b.len() {
            mant_rel
        } else {
            -1
        },
        mantissa_of(b) == b.take(mant_rel),
        int_digits(mantissa_of(b)) == b.take(ip_len),
        frac_digits(mantissa_of(b)) == if has_dot {
            b.subrange(ip_len + 1, mant_rel)
        } else {
            Seq::<char>::empty()
        },
{
    if mant_rel < b.len() {
        assert forall|k: int| 0 <= k < mant_rel implies !is_exp_char(b[k]) by {
            if k < ip_len {
                assert(is_digit(b[k]));
            } else if k == ip_len {
                assert(b[k] == '.');
            } else {
                assert(is_digit(b[k]));
            }
        }
        lemma_first_exp_at(b, mant_rel);
    } else {
        lemma_first_exp_props(b);
        if first_exp(b) >= 0 {
            let fe = first_exp(b);
            assert(is_exp_char(b[fe]));
            if fe < ip_len {
                assert(is_digit(b[fe]));
            } else if has_dot && fe == ip_len {
                assert(b[fe] == '.');
            } else {
                assert(is_digit(b[fe]));
            }
            assert(false);
        }
    }
    let m = mantissa_of(b);
    assert(m =~= b.take(mant_rel));
    if has_dot {
        assert(m[ip_len] == b[ip_len]);
        assert forall|k: int| 0 <= k < ip_len implies m[k] != '.' by {
            assert(m[k] == b[k]);
            assert(is_digit(m[k]));
        }
        lemma_first_dot_at(m, ip_len);
        assert(int_digits(m) =~= b.take(ip_len));
        assert(frac_digits(m) =~= b.subrange(ip_len + 1, mant_rel));
    } else {
        lemma_first_dot_props(m);
        if first_dot(m) >= 0 {
            assert(m[first_dot(m)] == '.');
            assert(is_digit(b[first_dot(m)]));
            assert(false);
        }
        assert(int_digits(m) =~= b.take(ip_len));
        assert(frac_digits(m) =~= Seq::<char>::empty());
    }
}

/// A character that is no digit, no dot and no exponent marker, standing in
/// the integer-digit run, spoils the scalar.
proof fn lemma_bad_int_char(s: Seq<char>, bs: int, pos: int)
    requires
        bs == sign_len(s),
        0 <= pos < scalar_body(s).len(),
        !is_digit(scalar_body(s)[pos]),
        scalar_body(s)[pos] != '.',
        !is_exp_char(scalar_body(s)[pos]),
        forall|k: int| 0 <= k < pos ==> is_digit(#[trigger] scalar_body(s)[k]),
    ensures
        !scalar_ok(s),
{
    let b = scalar_body(s);
    lemma_first_exp_props(b);
    let fe = first_exp(b);
    if 0 <= fe && fe <= pos {
        assert(is_exp_char(b[fe]));
        if fe < pos {
            assert(is_digit(b[fe]));
        }
        assert(false);
    }
    let m = mantissa_of(b);
    assert(pos < m.len());
    assert forall|k: int| 0 <= k <= pos implies m[k] == b[k] by {}
    lemma_first_dot_props(m);
    let d = first_dot(m);
    if d < 0 {
        assert(!is_digit(int_digits(m)[pos]));
        assert(!all_digits(int_digits(m)));
    } else {
        assert(m[d] == '.');
        if d < pos {
            assert(is_digit(b[d]));
            assert(false);
        } else if d == pos {
            assert(false);
        } else {
            assert(int_digits(m)[pos] == m[pos]);
            assert(!all_digits(int_digits(m)));
        }
    }
}

/// A character that is no digit and no exponent marker, standing in the
/// fraction-digit run, spoils the scalar.
proof fn lemma_bad_frac_char(s: Seq<char>, bs: int, dpos: int, pos: int)
    requires
        bs == sign_len(s),
        0 <= dpos < pos < scalar_body(s).len(),
        scalar_body(s)[dpos] == '.',
        !is_digit(scalar_body(s)[pos]),
        !is_exp_char(scalar_body(s)[pos]),
        forall|k: int| 0 <= k < dpos ==> is_digit(#[trigger] scalar_body(s)[k]),
        forall|k: int| dpos < k < pos ==> is_digit(#[trigger] scalar_body(s)[k]),
    ensures
        !scalar_ok(s),
{
    let b = scalar_body(s);
    lemma_first_exp_props(b);
    let fe = first_exp(b);
    if 0 <= fe && fe <= pos {
        assert(is_exp_char(b[fe]));
        if fe < dpos {
            assert(is_digit(b[fe]));
        } else if fe == dpos {
            assert(b[fe] == '.');
        } else if fe < pos {
            assert(is_digit(b[fe]));
        }
        assert(false);
    }
    let m = mantissa_of(b);
    assert(pos < m.len());
    assert forall|k: int| 0 <= k <= pos implies m[k] == b[k] by {}
    assert forall|k: int| 0 <= k < dpos implies m[k] != '.' by {
        assert(is_digit(m[k]));
    }
    lemma_first_dot_at(m, dpos);
    assert(frac_digits(m)[pos - dpos - 1] == m[pos]);
    assert(!all_digits(frac_digits(m)));
}

// ---------------------------------------------------------------------------
// The coordinate-list grammar: split on `(`, drop empty segments, trim
// delimiters, split each segment on `,`, and read two scalars.
// ---------------------------------------------------------------------------

/// A character trimmed from a segment's ends: a closing paren or a comma.
pub open spec fn is_trim_char(c: char) -> bool {
    c == ')' || c == ','
}

/// The pieces of `s` between occurrences of `sep`; always at least one
/// piece, and empty pieces are kept.
pub open spec fn split_at_char(s: Seq<char>, sep: char) -> Seq<Seq<char>>
    decreases s.len(),
{
    if s.len() == 0 {
        seq![Seq::<char>::empty()]
    } else {
        let rest = split_at_char(s.drop_first(), sep);
        if s[0] == sep {
            seq![Seq::<char>::empty()] + rest
        } else {
            seq![seq![s[0]] + rest[0]] + rest.drop_first()
        }
    }
}

/// The non-empty pieces, in order.
pub open spec fn nonempty_of(parts: Seq<Seq<char>>) -> Seq<Seq<char>>
    decreases parts.len(),
{
    if parts.len() == 0 {
        Seq::empty()
    } else {
        let rest = nonempty_of(parts.drop_first());
        if parts[0].len() > 0 {
            seq![parts[0]] + rest
        } else {
            rest
        }
    }
}

/// `s` with parens and commas removed from both ends.
pub open spec fn trim_delims(s: Seq<char>) -> Seq<char>
    decreases s.len(),
{
    if s.len() > 0 && is_trim_char(s[0]) {
        trim_delims(s.drop_first())
    } else if s.len() > 0 && is_trim_char(s.last()) {
        trim_delims(s.drop_last())
    } else {
        s
    }
}

/// The tuple segments of a query string: what stands between the opening
/// parens, skipping empty pieces.
pub open spec fn segments_of(s: Seq<char>) -> Seq<Seq<char>> {
    nonempty_of(split_at_char(s, '('))
}

/// The scalar slots of one segment.
pub open spec fn seg_parts(seg: Seq<char>) -> Seq<Seq<char>> {
    split_at_char(trim_delims(seg), ',')
}

/// A segment that reads as a point: exactly two well-formed scalars.
pub open spec fn seg_ok(seg: Seq<char>) -> bool {
    &&& seg_parts(seg).len() == 2
    &&& scalar_ok(seg_parts(seg)[0])
    &&& scalar_ok(seg_parts(seg)[1])
}

/// The error a bad segment is reported with: the tuple shape is checked
/// before its scalars.
pub open spec fn seg_error(seg: Seq<char>) -> PointParseError {
    if seg_parts(seg).len() != 2 {
        PointParseError::BadTuple
    } else {
        PointParseError::BadScalar
    }
}

/// The `(lat, lon)` values of a well-formed segment, in millionths.
pub open spec fn seg_point(seg: Seq<char>) -> (int, int) {
    (scalar_micros(seg_parts(seg)[0]), scalar_micros(seg_parts(seg)[1]))
}

/// Every segment of the query string reads as a point.
pub open spec fn parse_ok(s: Seq<char>) -> bool {
    forall|i: int| 0 <= i < segments_of(s).len() ==> seg_ok(#[trigger] segments_of(s)[i])
}

/// Splitting never yields zero pieces.
proof fn lemma_split_len(s: Seq<char>, sep: char)
    ensures
        split_at_char(s, sep).len() >= 1,
    decreases s.len(),
{
    if s.len() > 0 {
        lemma_split_len(s.drop_first(), sep);
    }
}

/// One step of splitting, read off the character at `i`.
proof fn lemma_split_skip(s: Seq<char>, sep: char, i: int)
    requires
        0 <= i < s.len(),
    ensures
        s[i] == sep ==> split_at_char(s.skip(i), sep) == seq![Seq::<char>::empty()]
            + split_at_char(s.skip(i + 1), sep),
        s[i] != sep ==> split_at_char(s.skip(i), sep) == seq![
            seq![s[i]] + split_at_char(s.skip(i + 1), sep)[0],
        ] + split_at_char(s.skip(i + 1), sep).drop_first(),
{
    let t = s.skip(i);
    assert(t.len() > 0);
    assert(t[0] == s[i]);
    assert(t.drop_first() =~= s.skip(i + 1));
}

/// Splits a character list on a separator, keeping empty pieces.
fn split_chars(cs: &Vec<char>, sep: char) -> (segs: Vec<Vec<char>>)
    ensures
        segs.deep_view() == split_at_char(cs@, sep),
{
    let ghost target = split_at_char(cs@, sep);
    let mut done: Vec<Vec<char>> = Vec::new();
    let mut cur: Vec<char> = Vec::new();
    let mut i: usize = 0;
    proof {
        lemma_split_len(cs@, sep);
        assert(cs@.skip(0) =~= cs@);
        assert(done.deep_view() + seq![cur@ + split_at_char(cs@.skip(0), sep)[0]]
            + split_at_char(cs@.skip(0), sep).drop_first() =~~= target);
    }
    while i < cs.len()
        invariant
            0 <= i <= cs@.len(),
            target == split_at_char(cs@, sep),
            target == done.deep_view() + seq![
                cur@ + split_at_char(cs@.skip(i as int), sep)[0],
            ] + split_at_char(cs@.skip(i as int), sep).drop_first(),
        decreases cs@.len() - i,
    {
        proof {
            lemma_split_skip(cs@, sep, i as int);
            lemma_split_len(cs@.skip(i + 1), sep);
        }
        let ghost r_next = split_at_char(cs@.skip(i + 1), sep);
        let c = cs[i];
        if c == sep {
            proof {
                assert(cur@ + split_at_char(cs@.skip(i as int), sep)[0] =~= cur@);
                assert(split_at_char(cs@.skip(i as int), sep).drop_first() =~~= r_next);
            }
            let ghost pushed = cur@;
            let ghost old_done = done.deep_view();
            done.push(cur);
            cur = Vec::new();
            proof {
                assert(done.deep_view() =~~= old_done.push(pushed));
                assert(cur@ =~= Seq::<char>::empty());
                assert(seq![r_next[0]] + r_next.drop_first() =~~= r_next);
                assert(old_done.push(pushed) + seq![cur@ + r_next[0]] + r_next.drop_first()
                    =~~= old_done + seq![pushed] + r_next);
            }
        } else {
            let ghost old_cur = cur@;
            cur.push(c);
            proof {
                lemma_split_len(cs@.skip(i + 1), sep);
                assert(cur@ =~= old_cur + seq![cs@[i as int]]);
                assert(old_cur + split_at_char(cs@.skip(i as int), sep)[0] =~= cur@ + r_next[0]);
                assert(split_at_char(cs@.skip(i as int), sep).drop_first() =~~= r_next.drop_first());
            }
        }
        i = i + 1;
    }
    proof {
        assert(cs@.skip(cs@.len() as int) =~= Seq::<char>::empty());
        assert(cur@ + split_at_char(cs@.skip(cs@.len() as int), sep)[0] =~= cur@);
        assert(split_at_char(cs@.skip(cs@.len() as int), sep).drop_first()
            =~~= Seq::<Seq<char>>::empty());
    }
    done.push(cur);
    proof {
        assert(done.deep_view() =~~= target);
    }
    done
}

/// Keeps the non-empty pieces, in order.
fn nonempty_segments(parts: Vec<Vec<char>>) -> (segs: Vec<Vec<char>>)
    ensures
        segs.deep_view() == nonempty_of(parts.deep_view()),
{
    let ghost orig = parts.deep_view();
    let mut rest = parts;
    let mut segs: Vec<Vec<char>> = Vec::new();
    while rest.len() > 0
        invariant
            nonempty_of(orig) == segs.deep_view() + nonempty_of(rest.deep_view()),
        decreases rest@.len(),
    {
        let ghost before = rest.deep_view();
        let p = rest.remove(0);
        proof {
            assert(rest.deep_view() =~~= before.drop_first());
        }
        if p.len() > 0 {
            let ghost old_segs = segs.deep_view();
            segs.push(p);
            proof {
                assert(segs.deep_view() =~~= old_segs.push(before[0]));
                assert(segs.deep_view() + nonempty_of(rest.deep_view()) =~~= old_segs + (seq![
                    before[0],
                ] + nonempty_of(before.drop_first())));
            }
        }
    }
    proof {
        assert(rest.deep_view() =~~= Seq::<Seq<char>>::empty());
        assert(segs.deep_view() + nonempty_of(rest.deep_view()) =~~= segs.deep_view());
    }
    segs
}

/// Removes parens and commas from both ends of a segment.
fn trim_seg(seg: &Vec<char>) -> (out: Vec<char>)
    ensures
        out@ == trim_delims(seg@),
{
    let n = seg.len();
    let mut start: usize = 0;
    proof {
        assert(seg@.skip(0) =~= seg@);
    }
    while start < n && (seg[start] == ')' || seg[start] == ',')
        invariant
            0 <= start <= n,
            n == seg@.len(),
            trim_delims(seg@) == trim_delims(seg@.skip(start as int)),
        decreases n - start,
    {
        proof {
            assert(seg@.skip(start as int)[0] == seg@[start as int]);
            assert(seg@.skip(start as int).drop_first() =~= seg@.skip(start + 1));
        }
        start = start + 1;
    }
    let mut end: usize = n;
    while end > start && (seg[end - 1] == ')' || seg[end - 1] == ',')
        invariant
            start <= end <= n,
            n == seg@.len(),
            start < n ==> !is_trim_char(seg@[start as int]),
            start == n ==> end == n,
            trim_delims(seg@) == trim_delims(seg@.subrange(start as int, end as int)),
        decreases end,
    {
        proof {
            let u = seg@.subrange(start as int, end as int);
            assert(u.last() == seg@[end - 1]);
            if u.len() > 0 && !is_trim_char(u[0]) {
                assert(u.drop_last() =~= seg@.subrange(start as int, end - 1));
            } else {
                assert(u[0] == seg@[start as int]);
                assert(u.len() == 1);
                assert(u.drop_first() =~= Seq::<char>::empty());
                assert(seg@.subrange(start as int, end - 1) =~= Seq::<char>::empty());
            }
        }
        end = end - 1;
    }
    proof {
        let u = seg@.subrange(start as int, end as int);
        if u.len() > 0 {
            assert(u[0] == seg@[start as int]);
            assert(u.last() == seg@[end - 1]);
        }
        assert(trim_delims(u) == u);
    }
    let mut out: Vec<char> = Vec::new();
    let mut k: usize = start;
    while k < end
        invariant
            start <= k <= end <= n,
            n == seg@.len(),
            out@ =~= seg@.subrange(start as int, k as int),
        decreases end - k,
    {
        let c = seg[k];
        out.push(c);
        proof {
            assert(out@ =~= seg@.subrange(start as int, k + 1));
        }
        k = k + 1;
    }
    proof {
        assert(out@ =~= seg@.subrange(start as int, end as int));
    }
    out
}

/// Turns a string into its characters.
fn str_chars(s: &str) -> (cs: Vec<char>)
    ensures
        cs@ == s@,
{
    let n = s.unicode_len();
    let mut cs: Vec<char> = Vec::new();
    let mut i: usize = 0;
    while i < n
        invariant
            0 <= i <= n,
            n == s@.len(),
            cs@ == s@.take(i as int),
        decreases n - i,
    {
        let c = s.get_char(i);
        cs.push(c);
        proof {
            assert(cs@ =~= s@.take(i + 1));
        }
        i = i + 1;
    }
    proof {
        assert(s@.take(n as int) =~= s@);
    }
    cs
}

// ---------------------------------------------------------------------------
// The parsed point list.
// ---------------------------------------------------------------------------

/// A parsed batch of query points.
#[derive(Clone, Debug)]
pub struct Points {
    pub points: Vec<Point>,
}

impl Points {
    /// Number of points in the batch.
    pub fn len(&self) -> (n: usize)
        ensures
            n == self.points@.len(),
    {
        self.points.len()
    }

    /// Parses a coordinate list such as `"(48.35,5.3),(48.43,5.23)"` into
    /// points, in order. Fails exactly when some segment is not a tuple of
    /// two well-formed scalars, reporting the first offending segment.
    pub fn from_str(s: &str) -> (r: Result<Points, PointParseError>)
        ensures
            match r {
                Ok(p) => {
                    &&& parse_ok(s@)
                    &&& p.points@.len() == segments_of(s@).len()
                    &&& forall|i: int|
                        0 <= i < p.points@.len() ==> {
                            &&& (#[trigger] p.points@[i]).lat == seg_point(segments_of(s@)[i]).0
                            &&& p.points@[i].lon == seg_point(segments_of(s@)[i]).1
                        }
                },
                Err(e) => {
                    &&& !parse_ok(s@)
                    &&& exists|i: int|
                        {
                            &&& 0 <= i < segments_of(s@).len()
                            &&& !seg_ok(#[trigger] segments_of(s@)[i])
                            &&& e == seg_error(segments_of(s@)[i])
                            &&& forall|j: int| 0 <= j < i ==> seg_ok(#[trigger] segments_of(s@)[j])
                        }
                },
            },
    {
        let cs = str_chars(s);
        let raw = split_chars(&cs, '(');
        let segs = nonempty_segments(raw);
        let ghost segsv = segments_of(s@);
        proof {
            assert(segs.deep_view() == segsv);
        }
        let n_segs = segs.len();
        let mut pts: Vec<Point> = Vec::new();
        let mut k: usize = 0;
        while k < n_segs
            invariant
                0 <= k <= n_segs,
                n_segs == segs@.len(),
                segs.deep_view() == segsv,
                segsv == segments_of(s@),
                pts@.len() == k,
                forall|j: int| 0 <= j < k ==> seg_ok(#[trigger] segsv[j]),
                forall|j: int|
                    0 <= j < k ==> {
                        &&& (#[trigger] pts@[j]).lat == seg_point(segsv[j]).0
                        &&& pts@[j].lon == seg_point(segsv[j]).1
                    },
            decreases n_segs - k,
        {
            let trimmed = trim_seg(&segs[k]);
            let parts = split_chars(&trimmed, ',');
            proof {
                assert(segs@[k as int]@ == segsv[k as int]);
                assert(parts.deep_view() == seg_parts(segsv[k as int]));
            }
            if parts.len() != 2 {
                proof {
                    assert(segments_of(s@)[k as int] == segsv[k as int]);
                    assert(!seg_ok(segments_of(s@)[k as int]));
                    assert(seg_error(segments_of(s@)[k as int]) == PointParseError::BadTuple);
                    assert(forall|j: int|
                        0 <= j < k ==> seg_ok(#[trigger] segments_of(s@)[j]));
                }
                return Err(PointParseError::BadTuple);
            }
            proof {
                assert(parts@[0]@ == seg_parts(segsv[k as int])[0]);
                assert(parts@[1]@ == seg_parts(segsv[k as int])[1]);
            }
            let lat = match parse_scalar(&parts[0]) {
                Ok(v) => v,
                Err(_) => {
                    proof {
                        assert(segments_of(s@)[k as int] == segsv[k as int]);
                        assert(!seg_ok(segments_of(s@)[k as int]));
                        assert(seg_error(segments_of(s@)[k as int]) == PointParseError::BadScalar);
                        assert(forall|j: int|
                            0 <= j < k ==> seg_ok(#[trigger] segments_of(s@)[j]));
                    }
                    return Err(PointParseError::BadScalar);
                },
            };
            let lon = match parse_scalar(&parts[1]) {
                Ok(v) => v,
                Err(_) => {
                    proof {
                        assert(segments_of(s@)[k as int] == segsv[k as int]);
                        assert(!seg_ok(segments_of(s@)[k as int]));
                        assert(seg_error(segments_of(s@)[k as int]) == PointParseError::BadScalar);
                        assert(forall|j: int|
                            0 <= j < k ==> seg_ok(#[trigger] segments_of(s@)[j]));
                    }
                    return Err(PointParseError::BadScalar);
                },
            };
            pts.push(Point { lat, lon });
            k = k + 1;
        }
        Ok(Points { points: pts })
    }
}

// ---------------------------------------------------------------------------
// The upstream batch limit.
// ---------------------------------------------------------------------------

/// Most points allowed in one batch; larger requests are rejected before
/// they reach the resolver.
pub const MAX_BATCH_POINTS: usize = 50;

/// A batch larger than the operational limit.
#[derive(Clone, Copy, Debug, PartialEq, Eq, Structural)]
pub struct CapacityError {
    /// How many points the rejected batch held.
    pub requested: usize,
}

/// The capacity check that stands upstream of the resolver: accepts a batch
/// exactly when it holds at most `MAX_BATCH_POINTS` points.
pub fn check_capacity(pts: &Points) -> (r: Result<(), CapacityError>)
    ensures
        match r {
            Ok(_) => pts.points@.len() <= MAX_BATCH_POINTS,
            Err(e) => {
                &&& pts.points@.len() > MAX_BATCH_POINTS
                &&& e.requested == pts.points@.len()
            },
        },
{
    let n = pts.len();
    if n > MAX_BATCH_POINTS {
        Err(CapacityError { requested: n })
    } else {
        Ok(())
    }
}

} // verus!
