use vstd::prelude::*;

verus! {

/// ASCII whitespace, as trimmed from a numeric command argument.
pub open spec fn is_space(b: u8) -> bool {
    b == 32 || (9 <= b <= 13)
}

/// Numeric value of an ASCII digit; 16 marks a byte that is no hexadecimal
/// digit.
pub open spec fn digit_value(b: u8) -> nat {
    if 48 <= b <= 57 {
        (b - 48) as nat
    } else if 97 <= b <= 102 {
        (b - 87) as nat
    } else if 65 <= b <= 70 {
        (b - 55) as nat
    } else {
        16
    }
}

/// Whether a byte is a digit under the given radix (10 or 16).
pub open spec fn is_digit(b: u8, radix: nat) -> bool {
    digit_value(b) < radix
}

/// The number an all-digit byte string denotes under the given radix.
pub open spec fn str_value(s: Seq<u8>, radix: nat) -> nat
    decreases s.len(),
{
    if s.len() == 0 {
        0
    } else {
        str_value(s.drop_last(), radix) * radix + digit_value(s.last())
    }
}

/// Leading whitespace removed.
pub open spec fn trim_front(s: Seq<u8>) -> Seq<u8>
    decreases s.len(),
{
    if s.len() > 0 && is_space(s[0]) {
        trim_front(s.subrange(1, s.len() as int))
    } else {
        s
    }
}

/// Trailing whitespace removed.
pub open spec fn trim_back(s: Seq<u8>) -> Seq<u8>
    decreases s.len(),
{
    if s.len() > 0 && is_space(s.last()) {
        trim_back(s.drop_last())
    } else {
        s
    }
}

/// The argument with surrounding whitespace removed.
pub open spec fn trimmed(s: Seq<u8>) -> Seq<u8> {
    trim_back(trim_front(s))
}

/// The digit part and radix of a trimmed argument: after a literal `0x`
/// prefix the rest is read as hexadecimal, otherwise the whole as decimal.
pub open spec fn digits_of(t: Seq<u8>) -> (Seq<u8>, nat) {
    if t.len() >= 2 && t[0] == 48 && t[1] == 120 {
        (t.subrange(2, t.len() as int), 16)
    } else {
        (t, 10)
    }
}

/// Whether a digit string is well formed: nonempty, all digits, and its
/// value representable in a machine word.
pub open spec fn digits_ok(d: Seq<u8>, radix: nat) -> bool {
    &&& d.len() > 0
    &&& forall|i: int| 0 <= i < d.len() ==> is_digit(#[trigger] d[i], radix)
    &&& str_value(d, radix) <= usize::MAX
}

/// Whether a byte is ASCII whitespace.
fn byte_is_space(b: u8) -> (r: bool)
    ensures
        r == is_space(b),
{
    b == 32 || (9 <= b && b <= 13)
}

proof fn lemma_trim_front_prefix(s: Seq<u8>, lo: int)
    requires
        0 <= lo <= s.len(),
        forall|i: int| 0 <= i < lo ==> is_space(#[trigger] s[i]),
        lo < s.len() ==> !is_space(s[lo]),
    ensures
        trim_front(s) == s.subrange(lo, s.len() as int),
    decreases lo,
{
    if lo == 0 {
        if s.len() > 0 && is_space(s[0]) {
            assert(false);
        }
        assert(s.subrange(0, s.len() as int) =~= s);
    } else {
        assert(is_space(s[0]));
        let s1 = s.subrange(1, s.len() as int);
        lemma_trim_front_prefix(s1, lo - 1);
        assert(s1.subrange(lo - 1, s1.len() as int) =~= s.subrange(lo, s.len() as int));
    }
}

proof fn lemma_trim_back_suffix(s: Seq<u8>, hi: int)
    requires
        0 <= hi <= s.len(),
        forall|i: int| hi <= i < s.len() ==> is_space(#[trigger] s[i]),
        hi > 0 ==> !is_space(s[hi - 1]),
    ensures
        trim_back(s) == s.subrange(0, hi),
    decreases s.len() - hi,
{
    if hi == s.len() {
        if s.len() > 0 && is_space(s.last()) {
            assert(false);
        }
        assert(s.subrange(0, s.len() as int) =~= s);
    } else {
        assert(is_space(s.last()));
        lemma_trim_back_suffix(s.drop_last(), hi);
        assert(s.drop_last().subrange(0, hi) =~= s.subrange(0, hi));
    }
}

/// Appending digits never shrinks the value.
proof fn lemma_str_value_grows(d: Seq<u8>, radix: nat, k: int)
    requires
        radix >= 1,
        0 <= k <= d.len(),
    ensures
        str_value(d.take(k), radix) <= str_value(d, radix),
    decreases d.len() - k,
{
    if k < d.len() {
        lemma_str_value_grows(d, radix, k + 1);
        let p = d.take(k);
        let q = d.take(k + 1);
        assert(q.drop_last() =~= p);
        assert(str_value(q, radix) == str_value(p, radix) * radix + digit_value(q.last()));
        assert(str_value(p, radix) * radix >= str_value(p, radix)) by (nonlinear_arith)
            requires
                radix >= 1,
        ;
    } else {
        assert(d.take(k) =~= d);
    }
}

/// Reads a nonempty all-digit byte string under the given radix.  Returns
/// its value exactly when the string is well formed: nonempty, digits only,
/// and no machine-word overflow; `None` otherwise.
fn parse_digits(d: &[u8], radix: usize) -> (r: Option<usize>)
    requires
        radix == 10 || radix == 16,
    ensures
        r is Some <==> digits_ok(d@, radix as nat),
        r is Some ==> r == Some((str_value(d@, radix as nat) as usize)),
{
    if d.len() == 0 {
        return None;
    }
    let mut acc: usize = 0;
    let mut k: usize = 0;
    while k < d.len()
        invariant
            radix == 10 || radix == 16,
            0 < d@.len(),
            k <= d@.len(),
            forall|i: int| 0 <= i < k ==> is_digit(#[trigger] d@[i], radix as nat),
            acc == str_value(d@.take(k as int), radix as nat),
        decreases d@.len() - k,
    {
        let b = d[k];
        let v: usize = if 48 <= b && b <= 57 {
            (b - 48) as usize
        } else if 97 <= b && b <= 102 {
            (b - 87) as usize
        } else if 65 <= b && b <= 70 {
            (b - 55) as usize
        } else {
            16
        };
        assert(v == digit_value(d@[k as int]));
        if v >= radix {
            proof {
                assert(!is_digit(d@[k as int], radix as nat));
            }
            return None;
        }
        if acc > (usize::MAX - v) / radix {
            proof {
                assert(acc * radix + v > usize::MAX) by (nonlinear_arith)
                    requires
                        radix >= 1,
                        v < radix,
                        acc as int > (usize::MAX as int - v as int) / (radix as int),
                ;
                assert(d@.take(k + 1).drop_last() =~= d@.take(k as int));
                assert(str_value(d@.take(k + 1), radix as nat) == acc * radix + v);
                lemma_str_value_grows(d@, radix as nat, k + 1);
            }
            return None;
        }
        proof {
            assert(acc * radix + v <= usize::MAX) by (nonlinear_arith)
                requires
                    radix >= 1,
                    v < radix,
                    acc as int <= (usize::MAX as int - v as int) / (radix as int),
            ;
        }
        acc = acc * radix + v;
        k = k + 1;
        proof {
            assert(d@.take(k as int).drop_last() =~= d@.take(k - 1));
            assert(d@.take(k as int).last() == d@[k - 1]);
        }
    }
    proof {
        assert(d@.take(d@.len() as int) =~= d@);
    }
    Some(acc)
}

/// Parses a numeric command argument: surrounding whitespace is ignored, a
/// `0x` prefix selects hexadecimal, otherwise the value is decimal.  Returns
/// the denoted number exactly when the digit part is well formed — nonempty,
/// digits of the selected radix only, value representable in a machine
/// word — and `None` otherwise.
pub fn parse_size(s: &[u8]) -> (r: Option<usize>)
    ensures
        r is Some <==> digits_ok(digits_of(trimmed(s@)).0, digits_of(trimmed(s@)).1),
        r is Some ==> r == Some(
            (str_value(digits_of(trimmed(s@)).0, digits_of(trimmed(s@)).1) as usize),
        ),
{
    let mut lo: usize = 0;
    while lo < s.len() && byte_is_space(s[lo])
        invariant
            lo <= s@.len(),
            forall|i: int| 0 <= i < lo ==> is_space(#[trigger] s@[i]),
        decreases s@.len() - lo,
    {
        lo = lo + 1;
    }
    let mut hi: usize = s.len();
    while hi > lo && byte_is_space(s[hi - 1])
        invariant
            lo <= hi <= s@.len(),
            forall|i: int| 0 <= i < lo ==> is_space(#[trigger] s@[i]),
            forall|i: int| hi <= i < s@.len() ==> is_space(#[trigger] s@[i]),
        decreases hi,
    {
        hi = hi - 1;
    }
    let t = vstd::slice::slice_subrange(s, lo, hi);
    proof {
        lemma_trim_front_prefix(s@, lo as int);
        let f = s@.subrange(lo as int, s@.len() as int);
        lemma_trim_back_suffix(f, hi - lo);
        assert(f.subrange(0, hi - lo) =~= s@.subrange(lo as int, hi as int));
        assert(trimmed(s@) == t@);
    }
    if t.len() >= 2 && t[0] == 48 && t[1] == 120 {
        let d = vstd::slice::slice_subrange(t, 2, t.len());
        parse_digits(d, 16)
    } else {
        parse_digits(t, 10)
    }
}

} // verus!
