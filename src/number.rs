//! Numeric lexemes: the grammar of floating-point literals, decimal integers,
//! and the classification of a lexeme into the three kinds of number.

use vstd::prelude::*;

use crate::text::chars_of;

verus! {

pub open spec fn is_digit(c: char) -> bool {
    '0' <= c && c <= '9'
}

pub open spec fn is_sign(c: char) -> bool {
    c == '+' || c == '-'
}

pub open spec fn all_digits(s: Seq<char>) -> bool {
    forall|i: int| 0 <= i < s.len() ==> is_digit(#[trigger] s[i])
}

/// The value of a run of decimal digits.
pub open spec fn digits_value(s: Seq<char>) -> nat
    decreases s.len(),
{
    if s.len() == 0 {
        0
    } else {
        digits_value(s.drop_last()) * 10 + ((s.last() as u32) - ('0' as u32)) as nat
    }
}

/// `c` is the lower-case ASCII letter `l`, in either case.
pub open spec fn eq_ignore_case(c: char, l: char) -> bool {
    c == l || (c as u32) + 32 == (l as u32)
}

pub open spec fn matches_word(s: Seq<char>, w: Seq<char>) -> bool {
    s.len() == w.len() && forall|i: int| 0 <= i < s.len() ==> eq_ignore_case(#[trigger] s[i], w[i])
}

/// `inf`, `infinity` or `nan`, in any case.
pub open spec fn is_special_float(s: Seq<char>) -> bool {
    ||| matches_word(s, seq!['i', 'n', 'f'])
    ||| matches_word(s, seq!['i', 'n', 'f', 'i', 'n', 'i', 't', 'y'])
    ||| matches_word(s, seq!['n', 'a', 'n'])
}

/// `Digit+ | Digit+ '.' Digit* | Digit* '.' Digit+`
pub open spec fn is_mantissa(s: Seq<char>) -> bool {
    ||| s.len() > 0 && all_digits(s)
    ||| exists|k: int|
        0 <= k < s.len() && #[trigger] s[k] == '.' && s.len() >= 2 && all_digits(s.take(k))
            && all_digits(s.skip(k + 1))
}

/// `Sign? Digit+`
pub open spec fn is_exponent_digits(s: Seq<char>) -> bool {
    ||| s.len() > 0 && all_digits(s)
    ||| s.len() > 1 && is_sign(s[0]) && all_digits(s.skip(1))
}

pub open spec fn is_exp_mark(c: char) -> bool {
    c == 'e' || c == 'E'
}

/// `Mantissa ( ('e' | 'E') Sign? Digit+ )?`
pub open spec fn is_decimal_float(s: Seq<char>) -> bool {
    ||| is_mantissa(s)
    ||| exists|k: int|
        0 <= k < s.len() && is_exp_mark(#[trigger] s[k]) && is_mantissa(s.take(k))
            && is_exponent_digits(s.skip(k + 1))
}

/// The text without a leading sign.
pub open spec fn unsigned_part(s: Seq<char>) -> Seq<char> {
    if s.len() > 0 && is_sign(s[0]) {
        s.skip(1)
    } else {
        s
    }
}

/// The lexemes that parse as an IEEE-754 double: an optional sign, then a
/// special value or a decimal literal with an optional exponent.
pub open spec fn is_float_literal(s: Seq<char>) -> bool {
    is_special_float(unsigned_part(s)) || is_decimal_float(unsigned_part(s))
}

pub open spec fn is_unsigned_lexeme(s: Seq<char>) -> bool {
    s.len() > 0 && all_digits(s) && digits_value(s) <= u64::MAX
}

pub open spec fn is_negative_lexeme(s: Seq<char>) -> bool {
    s.len() > 1 && s[0] == '-' && all_digits(s.skip(1)) && digits_value(s.skip(1)) <= 0x8000_0000_0000_0000
}

/// A number, as its value or (for a float) as its lexeme.
pub enum NumberView {
    PosInt(int),
    NegInt(int),
    Float(Seq<char>),
}

/// The classification of a lexeme: a `-` lexeme is tried as a signed integer,
/// any other as an unsigned one, and a float literal is the fallback.
pub open spec fn classify(s: Seq<char>) -> Option<NumberView> {
    if s.len() > 0 && s[0] == '-' && is_negative_lexeme(s) {
        Some(NumberView::NegInt(-digits_value(s.skip(1))))
    } else if !(s.len() > 0 && s[0] == '-') && is_unsigned_lexeme(s) {
        Some(NumberView::PosInt(digits_value(s) as int))
    } else if is_float_literal(s) {
        Some(NumberView::Float(s))
    } else {
        None
    }
}

/// A number argument. A float keeps its lexeme, which is a float literal.
#[derive(Debug, PartialEq)]
pub enum Number {
    PosInt(u64),
    NegInt(i64),
    Float(String),
}

impl View for Number {
    type V = NumberView;

    open spec fn view(&self) -> NumberView {
        match self {
            Number::PosInt(u) => NumberView::PosInt(*u as int),
            Number::NegInt(i) => NumberView::NegInt(*i as int),
            Number::Float(s) => NumberView::Float(s@),
        }
    }
}

} // verus!

verus! {

pub proof fn lemma_digits_value_push(s: Seq<char>, c: char)
    ensures
        digits_value(s.push(c)) == digits_value(s) * 10 + ((c as u32) - ('0' as u32)) as nat,
{
    assert(s.push(c).drop_last() =~= s);
}

/// A prefix of a digit run is worth no more than the whole run.
pub proof fn lemma_digits_value_prefix(s: Seq<char>, k: int)
    requires
        all_digits(s),
        0 <= k <= s.len(),
    ensures
        digits_value(s.take(k)) <= digits_value(s),
    decreases s.len(),
{
    if k < s.len() {
        assert(s.drop_last().take(k) =~= s.take(k));
        assert(all_digits(s.drop_last()));
        lemma_digits_value_prefix(s.drop_last(), k);
        assert(s.take(s.len() as int) =~= s);
    } else {
        assert(s.take(k) =~= s);
    }
}

fn is_digit_char(c: char) -> (r: bool)
    ensures
        r == is_digit(c),
{
    '0' <= c && c <= '9'
}

/// The end of the run of digits that starts at `from`.
fn scan_digits(s: &Vec<char>, from: usize) -> (end: usize)
    requires
        from <= s.len(),
    ensures
        from <= end <= s.len(),
        all_digits(s@.subrange(from as int, end as int)),
        end == s.len() || !is_digit(s@[end as int]),
{
    let mut end = from;
    while end < s.len() && is_digit_char(s[end])
        invariant
            from <= end <= s.len(),
            all_digits(s@.subrange(from as int, end as int)),
        decreases s.len() - end,
    {
        end = end + 1;
        assert(all_digits(s@.subrange(from as int, end as int))) by {
            assert forall|i: int| 0 <= i < end - from implies is_digit(
                #[trigger] s@.subrange(from as int, end as int)[i],
            ) by {
                if i < end - 1 - from {
                    assert(s@.subrange(from as int, end - 1)[i] == s@[from + i]);
                }
            }
        }
    }
    end
}

/// The value of the digits from `from` to the end, where they are all digits,
/// at least one, and worth no more than `bound`.
fn parse_digits(s: &Vec<char>, from: usize, bound: u64) -> (r: Option<u64>)
    requires
        from <= s.len(),
        bound >= 9,
    ensures
        r == (if from < s.len() && all_digits(s@.skip(from as int)) && digits_value(
            s@.skip(from as int),
        ) <= bound {
            Some(digits_value(s@.skip(from as int)) as u64)
        } else {
            None::<u64>
        }),
{
    if from == s.len() {
        return None;
    }
    let ghost t = s@.skip(from as int);
    let mut acc: u64 = 0;
    let mut i = from;
    while i < s.len()
        invariant
            from <= i <= s.len(),
            t == s@.skip(from as int),
            all_digits(s@.subrange(from as int, i as int)),
            acc as nat == digits_value(s@.subrange(from as int, i as int)),
            acc <= bound,
            bound >= 9,
        decreases s.len() - i,
    {
        let c = s[i];
        if !is_digit_char(c) {
            assert(t[i - from] == c);
            return None;
        }
        let d = (c as u32 - '0' as u32) as u64;
        proof {
            assert(s@.subrange(from as int, i as int).push(c) =~= s@.subrange(from as int, i + 1));
            lemma_digits_value_push(s@.subrange(from as int, i as int), c);
        }
        if acc > (bound - d) / 10 {
            proof {
                assert(acc * 10 + d > bound) by (nonlinear_arith)
                    requires
                        acc > (bound - d) / 10,
                        d <= 9,
                        bound >= 9,
                ;
                assert(s@.subrange(from as int, i + 1) =~= t.take(i + 1 - from));
                if all_digits(t) {
                    lemma_digits_value_prefix(t, i + 1 - from);
                }
            }
            return None;
        }
        assert(acc * 10 + d <= bound) by (nonlinear_arith)
            requires
                acc <= (bound - d) / 10,
                d <= 9,
                bound >= 9,
        ;
        acc = acc * 10 + d;
        i = i + 1;
        assert(all_digits(s@.subrange(from as int, i as int))) by {
            assert forall|j: int| 0 <= j < i - from implies is_digit(
                #[trigger] s@.subrange(from as int, i as int)[j],
            ) by {
                if j < i - 1 - from {
                    assert(s@.subrange(from as int, i - 1)[j] == s@[from + j]);
                }
            }
        }
    }
    assert(s@.subrange(from as int, s.len() as int) =~= t);
    Some(acc)
}

/// Where the mantissa of `t` stops: `a` ends the leading digits, and `m`
/// ends the digits after a dot at `a`, if there is one (else `m == a`).
pub open spec fn mantissa_bounds(t: Seq<char>, a: int, m: int) -> bool {
    &&& 0 <= a <= m <= t.len()
    &&& all_digits(t.take(a))
    &&& (a == t.len() || !is_digit(t[a]))
    &&& if a < t.len() && t[a] == '.' {
        &&& a < m
        &&& all_digits(t.subrange(a + 1, m))
        &&& (m == t.len() || !is_digit(t[m]))
    } else {
        m == a
    }
}

pub open spec fn mantissa_nonempty(t: Seq<char>, a: int, m: int) -> bool {
    if a < t.len() && t[a] == '.' {
        m >= 2
    } else {
        a > 0
    }
}

proof fn lemma_mantissa_prefix(t: Seq<char>, a: int, m: int, k: int)
    requires
        mantissa_bounds(t, a, m),
        0 <= k <= t.len(),
        k == t.len() || (t[k] != '.' && !is_digit(t[k])),
    ensures
        is_mantissa(t.take(k)) <==> (k == m && mantissa_nonempty(t, a, m)),
{
    let p = t.take(k);
    if k == m && mantissa_nonempty(t, a, m) {
        if a < t.len() && t[a] == '.' {
            assert(p[a] == '.');
            assert(p.take(a) =~= t.take(a));
            assert(p.skip(a + 1) =~= t.subrange(a + 1, m));
        } else {
            assert(p =~= t.take(a));
        }
    }
    if is_mantissa(p) {
        if p.len() > 0 && all_digits(p) {
            if a < k {
                assert(p[a] == t[a]);
            }
            if k < a {
                assert(t.take(a)[k] == t[k]);
            }
        } else {
            let j = choose|j: int|
                0 <= j < p.len() && #[trigger] p[j] == '.' && p.len() >= 2 && all_digits(p.take(j))
                    && all_digits(p.skip(j + 1));
            assert(t[j] == '.');
            if a < j {
                assert(p.take(j)[a] == t[a]);
            }
            if j < a {
                assert(t.take(a)[j] == t[j]);
            }
            assert(a == j);
            if m < k {
                assert(p.skip(j + 1)[m - j - 1] == t[m]);
            }
            if k < m {
                assert(t.subrange(a + 1, m)[k - a - 1] == t[k]);
            }
        }
    }
}

/// The decimal grammar, read off where the mantissa stops.
proof fn lemma_decimal_float(t: Seq<char>, a: int, m: int)
    requires
        mantissa_bounds(t, a, m),
    ensures
        is_decimal_float(t) <==> mantissa_nonempty(t, a, m) && (m == t.len() || (is_exp_mark(t[m])
            && is_exponent_digits(t.skip(m + 1)))),
{
    assert(t.take(t.len() as int) =~= t);
    lemma_mantissa_prefix(t, a, m, t.len() as int);
    if m < t.len() && is_exp_mark(t[m]) && mantissa_nonempty(t, a, m) && is_exponent_digits(
        t.skip(m + 1),
    ) {
        lemma_mantissa_prefix(t, a, m, m);
        assert(is_exp_mark(t[m]) && is_mantissa(t.take(m)) && is_exponent_digits(t.skip(m + 1)));
    }
    if !is_mantissa(t) && is_decimal_float(t) {
        let k = choose|k: int|
            0 <= k < t.len() && is_exp_mark(#[trigger] t[k]) && is_mantissa(t.take(k))
                && is_exponent_digits(t.skip(k + 1));
        lemma_mantissa_prefix(t, a, m, k);
    }
}

fn is_sign_char(c: char) -> (r: bool)
    ensures
        r == is_sign(c),
{
    c == '+' || c == '-'
}

/// Whether the characters from `from` on are `Sign? Digit+`.
fn exponent_digits_at(s: &Vec<char>, from: usize) -> (r: bool)
    requires
        from <= s.len(),
    ensures
        r == is_exponent_digits(s@.skip(from as int)),
{
    let ghost u = s@.skip(from as int);
    let signed = from < s.len() && is_sign_char(s[from]);
    let digits_from = if signed {
        from + 1
    } else {
        from
    };
    let end = scan_digits(s, digits_from);
    proof {
        if signed {
            assert(!is_digit(u[0]));
            if end == s.len() {
                assert(u.skip(1) =~= s@.subrange(digits_from as int, end as int));
            } else {
                assert(u.skip(1)[end - digits_from] == s@[end as int]);
            }
        } else if end == s.len() {
            assert(u =~= s@.subrange(digits_from as int, end as int));
        } else {
            assert(u[end - digits_from] == s@[end as int]);
        }
    }
    end == s.len() && end > digits_from
}

/// Whether the characters from `start` on are a decimal float literal.
fn decimal_float_at(s: &Vec<char>, start: usize) -> (r: bool)
    requires
        start <= s.len(),
    ensures
        r == is_decimal_float(s@.skip(start as int)),
{
    let ghost t = s@.skip(start as int);
    let a = scan_digits(s, start);
    let has_dot = a < s.len() && s[a] == '.';
    let m = if has_dot {
        scan_digits(s, a + 1)
    } else {
        a
    };
    proof {
        assert(t.take(a - start) =~= s@.subrange(start as int, a as int));
        if has_dot {
            assert(t.subrange(a - start + 1, m - start) =~= s@.subrange(a + 1, m as int));
        }
        lemma_decimal_float(t, a - start, m - start);
    }
    let nonempty = if has_dot {
        m - start >= 2
    } else {
        a > start
    };
    if !nonempty {
        return false;
    }
    if m == s.len() {
        return true;
    }
    if !(s[m] == 'e' || s[m] == 'E') {
        return false;
    }
    proof {
        assert(t.skip(m - start + 1) =~= s@.skip(m + 1));
    }
    exponent_digits_at(s, m + 1)
}

fn eq_ignore_case_char(c: char, l: char) -> (r: bool)
    requires
        'a' <= l <= 'z',
    ensures
        r == eq_ignore_case(c, l),
{
    c == l || (c as u32) + 32 == (l as u32)
}

/// Whether the characters from `start` on are `inf`, `infinity` or `nan`.
fn special_float_at(s: &Vec<char>, start: usize) -> (r: bool)
    requires
        start <= s.len(),
    ensures
        r == is_special_float(s@.skip(start as int)),
{
    let ghost t = s@.skip(start as int);
    let n = s.len() - start;
    proof {
        assert(t.len() == n);
    }
    if n == 3 {
        let i = eq_ignore_case_char(s[start], 'i') && eq_ignore_case_char(s[start + 1], 'n')
            && eq_ignore_case_char(s[start + 2], 'f');
        let nan = eq_ignore_case_char(s[start], 'n') && eq_ignore_case_char(s[start + 1], 'a')
            && eq_ignore_case_char(s[start + 2], 'n');
        proof {
            assert(t[0] == s@[start as int] && t[1] == s@[start + 1] && t[2] == s@[start + 2]);
            let w1 = seq!['i', 'n', 'f'];
            let w2 = seq!['n', 'a', 'n'];
            if matches_word(t, w1) {
                assert(eq_ignore_case(t[0], w1[0]) && eq_ignore_case(t[1], w1[1]) && eq_ignore_case(t[2], w1[2]));
            }
            if matches_word(t, w2) {
                assert(eq_ignore_case(t[0], w2[0]) && eq_ignore_case(t[1], w2[1]) && eq_ignore_case(t[2], w2[2]));
            }
            if i {
                assert forall|k: int| 0 <= k < t.len() implies eq_ignore_case(#[trigger] t[k], w1[k]) by {
                }
            }
            if nan {
                assert forall|k: int| 0 <= k < t.len() implies eq_ignore_case(#[trigger] t[k], w2[k]) by {
                }
            }
        }
        i || nan
    } else if n == 8 {
        let w = ['i', 'n', 'f', 'i', 'n', 'i', 't', 'y'];
        let ghost ws = seq!['i', 'n', 'f', 'i', 'n', 'i', 't', 'y'];
        let mut k: usize = 0;
        while k < 8
            invariant
                k <= 8,
                n == 8,
                start + 8 == s.len(),
                forall|j: int| 0 <= j < 8 ==> 'a' <= #[trigger] ws[j] <= 'z',
                t == s@.skip(start as int),
                t.len() == 8,
                w@ == ws,
                ws == seq!['i', 'n', 'f', 'i', 'n', 'i', 't', 'y'],
                forall|j: int| 0 <= j < k ==> eq_ignore_case(#[trigger] t[j], ws[j]),
            decreases 8 - k,
        {
            assert(t[k as int] == s@[start + k]);
            if !eq_ignore_case_char(s[start + k], w[k]) {
                assert(!eq_ignore_case(t[k as int], ws[k as int]));
                assert(!matches_word(t, ws));
                assert(!matches_word(t, seq!['i', 'n', 'f']));
                assert(!matches_word(t, seq!['n', 'a', 'n']));
                return false;
            }
            k = k + 1;
        }
        true
    } else {
        false
    }
}

/// Whether `s` is a float literal: an optional sign, then `inf`, `infinity`
/// or `nan` in any case, or decimal digits with an optional fraction and
/// exponent.
pub fn float_literal_chars(s: &Vec<char>) -> (r: bool)
    ensures
        r == is_float_literal(s@),
{
    let start: usize = if s.len() > 0 && is_sign_char(s[0]) {
        1
    } else {
        0
    };
    proof {
        assert(s@.skip(0) =~= s@);
    }
    special_float_at(s, start) || decimal_float_at(s, start)
}

impl Number {
    /// Classifies a lexeme: a signed integer when it starts with `-`, else an
    /// unsigned integer, else a float when it is a float literal.
    pub fn parse(number: &str) -> (r: Option<Number>)
        ensures
            match r {
                Some(n) => classify(number@) == Some(n@),
                None => classify(number@) is None,
            },
    {
        let cs = chars_of(number);
        if cs.len() > 0 && cs[0] == '-' {
            if let Some(v) = parse_digits(&cs, 1, 0x8000_0000_0000_0000) {
                let n: i64 = if v == 0x8000_0000_0000_0000 {
                    i64::MIN
                } else {
                    -(v as i64)
                };
                return Some(Number::NegInt(n));
            }
        } else {
            if let Some(v) = parse_digits(&cs, 0, u64::MAX) {
                proof {
                    assert(cs@.skip(0) =~= cs@);
                }
                return Some(Number::PosInt(v));
            }
            proof {
                assert(cs@.skip(0) =~= cs@);
            }
        }
        if float_literal_chars(&cs) {
            Some(Number::Float(number.to_owned()))
        } else {
            None
        }
    }
}

/// Every float literal is classified: as a signed integer exactly when it is
/// a `-` integer lexeme in range, as an unsigned integer exactly when it is
/// another integer lexeme in range, and as a float otherwise.
pub proof fn lemma_classify_total(s: Seq<char>)
    requires
        is_float_literal(s),
    ensures
        classify(s) is Some,
        classify(s)->0 is NegInt <==> is_negative_lexeme(s),
        classify(s)->0 is PosInt <==> (s[0] != '-' && is_unsigned_lexeme(s)),
        classify(s)->0 is Float <==> (!is_negative_lexeme(s) && !(s[0] != '-'
            && is_unsigned_lexeme(s))),
{
}

pub open spec fn digit_chars() -> Seq<char> {
    seq!['0', '1', '2', '3', '4', '5', '6', '7', '8', '9']
}

/// The decimal digits of `n`, without leading zeros.
pub open spec fn decimal(n: nat) -> Seq<char>
    decreases n,
{
    if n < 10 {
        seq![digit_chars()[n as int]]
    } else {
        decimal(n / 10).push(digit_chars()[(n % 10) as int])
    }
}

/// The lexeme that a number is written as: its decimal digits, after a `-`
/// for a signed integer, or a float's own lexeme.
pub open spec fn number_lexeme(n: NumberView) -> Seq<char> {
    match n {
        NumberView::PosInt(v) => decimal(v as nat),
        NumberView::NegInt(v) => seq!['-'] + decimal((-v) as nat),
        NumberView::Float(s) => s,
    }
}

/// A number that the classifier gives back from its own lexeme.
pub open spec fn number_wf(n: NumberView) -> bool {
    classify(number_lexeme(n)) == Some(n)
}

pub proof fn lemma_digit_chars()
    ensures
        forall|k: int|
            0 <= k < 10 ==> (#[trigger] digit_chars()[k] as u32) - ('0' as u32) == k && is_digit(
                digit_chars()[k],
            ),
{
    let d = digit_chars();
    assert(d[0] == '0' && d[1] == '1' && d[2] == '2' && d[3] == '3' && d[4] == '4' && d[5] == '5'
        && d[6] == '6' && d[7] == '7' && d[8] == '8' && d[9] == '9');
    assert(('0' as u32) == 48 && ('1' as u32) == 49 && ('2' as u32) == 50 && ('3' as u32) == 51
        && ('4' as u32) == 52 && ('5' as u32) == 53 && ('6' as u32) == 54 && ('7' as u32) == 55
        && ('8' as u32) == 56 && ('9' as u32) == 57);
    assert forall|k: int| 0 <= k < 10 implies (#[trigger] d[k] as u32) - ('0' as u32) == k
        && is_digit(d[k]) by {
        if k == 0 {
        } else if k == 1 {
        } else if k == 2 {
        } else if k == 3 {
        } else if k == 4 {
        } else if k == 5 {
        } else if k == 6 {
        } else if k == 7 {
        } else if k == 8 {
        } else {
        }
    }
}

pub proof fn lemma_decimal(n: nat)
    ensures
        decimal(n).len() > 0,
        all_digits(decimal(n)),
        digits_value(decimal(n)) == n,
        n > 0 ==> decimal(n)[0] != '0',
    decreases n,
{
    let d = digit_chars();
    lemma_digit_chars();
    if n < 10 {
        assert(decimal(n).drop_last() =~= Seq::<char>::empty());
        assert(decimal(n).last() == d[n as int]);
        assert(digits_value(decimal(n)) == digits_value(Seq::<char>::empty()) * 10 + n);
    } else {
        lemma_decimal(n / 10);
        assert(decimal(n).last() == d[(n % 10) as int]);
        assert((n / 10) * 10 + n % 10 == n);
        assert(decimal(n).drop_last() =~= decimal(n / 10));
        assert(decimal(n)[0] == decimal(n / 10)[0]);
        assert forall|i: int| 0 <= i < decimal(n).len() implies is_digit(#[trigger] decimal(n)[i]) by {
            if i < decimal(n).len() - 1 {
                assert(decimal(n)[i] == decimal(n / 10)[i]);
            }
        }
    }
}

/// What the classifier returns is a number that it gives back from its own
/// lexeme.
pub proof fn lemma_classified_number_wf(l: Seq<char>)
    requires
        classify(l) is Some,
    ensures
        number_wf(classify(l)->0),
{
    let n = classify(l)->0;
    match n {
        NumberView::PosInt(v) => {
            lemma_decimal(v as nat);
            let t = decimal(v as nat);
            assert(is_digit(t[0]));
        },
        NumberView::NegInt(v) => {
            let m = (-v) as nat;
            lemma_decimal(m);
            let t = seq!['-'] + decimal(m);
            assert(t.skip(1) =~= decimal(m));
        },
        NumberView::Float(s) => {},
    }
}

/// A number that the classifier accepts is a float literal.
pub proof fn lemma_classified_is_float_literal(l: Seq<char>)
    requires
        classify(l) is Some,
    ensures
        is_float_literal(l),
{
    if l.len() > 0 && l[0] == '-' && is_negative_lexeme(l) {
        assert(unsigned_part(l) == l.skip(1));
        assert(is_mantissa(l.skip(1)));
    } else if !(l.len() > 0 && l[0] == '-') && is_unsigned_lexeme(l) {
        assert(is_digit(l[0]));
        assert(unsigned_part(l) == l);
        assert(is_mantissa(l));
    }
}

pub fn digit_char(d: u64) -> (r: char)
    requires
        d < 10,
    ensures
        r == digit_chars()[d as int],
{
    match d {
        0 => '0',
        1 => '1',
        2 => '2',
        3 => '3',
        4 => '4',
        5 => '5',
        6 => '6',
        7 => '7',
        8 => '8',
        _ => '9',
    }
}

pub fn push_decimal(r: &mut String, n: u64)
    ensures
        final(r)@ == old(r)@ + decimal(n as nat),
    decreases n,
{
    if n >= 10 {
        push_decimal(r, n / 10);
    }
    r.push(digit_char(n % 10));
    proof {
        if n >= 10 {
            assert(old(r)@ + decimal((n / 10) as nat) + seq![digit_chars()[(n % 10) as int]] =~= old(r)@
                + decimal(n as nat));
        } else {
            assert(old(r)@.push(digit_chars()[(n % 10) as int]) =~= old(r)@ + decimal(n as nat));
        }
    }
}

/// `b` to the power `k`.
pub open spec fn power(b: nat, k: nat) -> nat
    decreases k,
{
    if k == 0 {
        1
    } else {
        b * power(b, (k - 1) as nat)
    }
}

/// The least value that rounds past the largest finite double:
/// `(2^54 - 1) * 2^970`, halfway between `f64::MAX` and `2^1024`, where a tie
/// rounds to the even, infinite, side.
pub open spec fn float_bound() -> nat {
    ((power(2, 54) - 1) * power(2, 970)) as nat
}

/// The value of the digits `ds` times ten to the power `scale` stays under
/// `float_bound()`.
pub open spec fn below_bound(ds: Seq<char>, scale: int) -> bool {
    if scale >= 0 {
        digits_value(ds) * power(10, scale as nat) < float_bound()
    } else {
        digits_value(ds) < float_bound() * power(10, (-scale) as nat)
    }
}

pub open spec fn has_dot(t: Seq<char>, a: int) -> bool {
    a < t.len() && t[a] == '.'
}

/// The digits of a mantissa that stops at `m`, with the dot at `a` left out.
pub open spec fn mantissa_digits(t: Seq<char>, a: int, m: int) -> Seq<char> {
    if has_dot(t, a) {
        t.take(a) + t.subrange(a + 1, m)
    } else {
        t.take(a)
    }
}

pub open spec fn fraction_len(t: Seq<char>, a: int, m: int) -> int {
    if has_dot(t, a) {
        m - a - 1
    } else {
        0
    }
}

/// The value of `Sign? Digit+`.
pub open spec fn exponent_value(x: Seq<char>) -> int {
    if x.len() > 0 && x[0] == '-' {
        -digits_value(x.skip(1))
    } else if x.len() > 0 && x[0] == '+' {
        digits_value(x.skip(1)) as int
    } else {
        digits_value(x) as int
    }
}

/// The power of ten that the mantissa digits of `t` are scaled by.
pub open spec fn literal_scale(t: Seq<char>, a: int, m: int) -> int {
    (if m < t.len() {
        exponent_value(t.skip(m + 1))
    } else {
        0
    }) - fraction_len(t, a, m)
}

/// The lexemes that parse as a finite double: an optional sign, then a
/// decimal literal whose value does not round past the largest finite double.
pub open spec fn is_finite_float_literal(s: Seq<char>) -> bool {
    let t = unsigned_part(s);
    &&& is_decimal_float(t)
    &&& exists|a: int, m: int|
        #[trigger] mantissa_bounds(t, a, m) && below_bound(
            mantissa_digits(t, a, m),
            literal_scale(t, a, m),
        )
}

pub proof fn lemma_mantissa_bounds_unique(t: Seq<char>, a: int, m: int, a2: int, m2: int)
    requires
        mantissa_bounds(t, a, m),
        mantissa_bounds(t, a2, m2),
    ensures
        a == a2 && m == m2,
{
    if a < a2 {
        assert(t.take(a2)[a] == t[a]);
    }
    if a2 < a {
        assert(t.take(a)[a2] == t[a2]);
    }
    if has_dot(t, a) {
        if m < m2 {
            assert(t.subrange(a + 1, m2)[m - a - 1] == t[m]);
        }
        if m2 < m {
            assert(t.subrange(a + 1, m)[m2 - a - 1] == t[m2]);
        }
    }
}

pub proof fn lemma_power_positive(b: nat, k: nat)
    requires
        b >= 1,
    ensures
        power(b, k) >= 1,
    decreases k,
{
    if k > 0 {
        lemma_power_positive(b, (k - 1) as nat);
        assert(b * power(b, (k - 1) as nat) >= 1) by (nonlinear_arith)
            requires
                b >= 1,
                power(b, (k - 1) as nat) >= 1,
        ;
    }
}

pub proof fn lemma_power_adds(b: nat, x: nat, y: nat)
    ensures
        power(b, x + y) == power(b, x) * power(b, y),
    decreases x,
{
    if x > 0 {
        lemma_power_adds(b, (x - 1) as nat, y);
        assert((x + y - 1) as nat == ((x - 1) as nat + y) as nat);
        assert(power(b, x + y) == b * power(b, (x + y - 1) as nat));
        assert(power(b, x) == b * power(b, (x - 1) as nat));
        assert(b * (power(b, (x - 1) as nat) * power(b, y)) == (b * power(b, (x - 1) as nat)) * power(
            b,
            y,
        )) by (nonlinear_arith);
    } else {
        assert(power(b, 0) == 1);
        assert(x + y == y);
    }
}

pub proof fn lemma_power_increases(b: nat, x: nat, y: nat)
    requires
        b >= 1,
        x <= y,
    ensures
        power(b, x) <= power(b, y),
    decreases y,
{
    if x < y {
        lemma_power_increases(b, x, (y - 1) as nat);
        lemma_power_positive(b, (y - 1) as nat);
        assert(power(b, (y - 1) as nat) <= b * power(b, (y - 1) as nat)) by (nonlinear_arith)
            requires
                b >= 1,
        ;
    }
}

pub proof fn lemma_power_base(b1: nat, b2: nat, k: nat)
    requires
        b1 <= b2,
    ensures
        power(b1, k) <= power(b2, k),
    decreases k,
{
    if k > 0 {
        lemma_power_base(b1, b2, (k - 1) as nat);
        let p1 = power(b1, (k - 1) as nat);
        let p2 = power(b2, (k - 1) as nat);
        assert(b1 * p1 <= b2 * p2) by (nonlinear_arith)
            requires
                b1 <= b2,
                p1 <= p2,
        ;
    }
}

pub proof fn lemma_power_multiplies(b: nat, x: nat, y: nat)
    ensures
        power(b, x * y) == power(power(b, x), y),
    decreases y,
{
    if y > 0 {
        lemma_power_multiplies(b, x, (y - 1) as nat);
        assert(x * y == x * (y - 1) + x) by (nonlinear_arith)
            requires
                y > 0,
        ;
        lemma_power_adds(b, (x * (y - 1)) as nat, x);
        assert(power(b, x * (y - 1) as nat) * power(b, x) == power(b, x) * power(b, x * (y - 1) as nat)) by (nonlinear_arith);
    } else {
        assert(x * y == 0) by (nonlinear_arith)
            requires
                y == 0,
        ;
        assert(power(b, 0) == 1 && power(power(b, x), 0) == 1);
    }
}

/// `10^291 <= float_bound()`.
pub proof fn lemma_float_bound_low()
    ensures
        power(10, 291) <= float_bound(),
{
    lemma_float_bound_range();
    lemma_power_multiplies(2, 10, 97);
    lemma_power_multiplies(10, 3, 97);
    assert(power(2, 10) == 1024) by {
        reveal_with_fuel(power, 11);
    }
    assert(power(10, 3) == 1000) by {
        reveal_with_fuel(power, 4);
    }
    lemma_power_base(1000, 1024, 97);
    lemma_power_positive(2, 54);
    let p = power(2, 54);
    let q = power(2, 970);
    assert(p >= 2) by {
        assert(power(2, 54) == 2 * power(2, 53));
        lemma_power_positive(2, 53);
    }
    assert((p - 1) * q >= q) by (nonlinear_arith)
        requires
            p >= 2,
            q >= 0,
    ;
}

/// `1 <= float_bound() < 10^1024`.
pub proof fn lemma_float_bound_range()
    ensures
        1 <= power(2, 64) <= float_bound() < power(10, 1024),
{
    lemma_power_positive(2, 54);
    lemma_power_positive(2, 970);
    lemma_power_increases(2, 64, 970);
    lemma_power_positive(2, 64);
    lemma_power_adds(2, 54, 970);
    lemma_power_base(2, 10, 1024);
    let p = power(2, 54);
    let q = power(2, 970);
    assert((p - 1) * q >= q && (p - 1) * q < p * q) by (nonlinear_arith)
        requires
            p >= 2,
            q >= 1,
    ;
    assert(p >= 2) by {
        assert(power(2, 54) == 2 * power(2, 53));
        lemma_power_positive(2, 53);
    }
}

/// The digits, all zero.
pub open spec fn zeros(k: nat) -> Seq<char> {
    Seq::new(k, |i: int| '0')
}

pub proof fn lemma_digits_value_concat(a: Seq<char>, b: Seq<char>)
    ensures
        digits_value(a + b) == digits_value(a) * power(10, b.len()) + digits_value(b),
    decreases b.len(),
{
    if b.len() == 0 {
        assert(a + b =~= a);
        assert(power(10, b.len()) == 1);
        assert(digits_value(b) == 0);
    } else {
        lemma_digits_value_concat(a, b.drop_last());
        assert((a + b).drop_last() =~= a + b.drop_last());
        assert((a + b).last() == b.last());
        let va = digits_value(a);
        let p = power(10, (b.len() - 1) as nat);
        let vb = digits_value(b.drop_last());
        assert((va * p + vb) * 10 == va * (10 * p) + vb * 10) by (nonlinear_arith);
        assert(power(10, b.len()) == 10 * p);
        assert(va * power(10, b.len()) == va * (10 * p));
        assert(digits_value(b) == vb * 10 + ((b.last() as u32) - ('0' as u32)) as nat);
        assert(digits_value(a + b) == digits_value(a + b.drop_last()) * 10 + ((b.last() as u32) - ('0' as u32)) as nat);
    }
}

pub proof fn lemma_zeros_value(k: nat)
    ensures
        digits_value(zeros(k)) == 0,
        all_digits(zeros(k)),
    decreases k,
{
    if k > 0 {
        lemma_zeros_value((k - 1) as nat);
        assert(zeros(k).drop_last() =~= zeros((k - 1) as nat));
    }
}

/// A run of `L` digits is worth less than `10^L`, and at least `10^(L-1)`
/// when it does not start with `0`.
pub proof fn lemma_digits_magnitude(x: Seq<char>)
    requires
        all_digits(x),
    ensures
        digits_value(x) < power(10, x.len()),
        x.len() > 0 && x[0] != '0' ==> power(10, (x.len() - 1) as nat) <= digits_value(x),
    decreases x.len(),
{
    if x.len() > 0 {
        let y = x.drop_last();
        assert(all_digits(y));
        lemma_digits_magnitude(y);
        let d = ((x.last() as u32) - ('0' as u32)) as nat;
        assert(d <= 9);
        let vy = digits_value(y);
        let p = power(10, y.len());
        assert(vy * 10 + d < 10 * p) by (nonlinear_arith)
            requires
                vy < p,
                d <= 9,
        ;
        if x[0] != '0' {
            if y.len() > 0 {
                assert(y[0] == x[0]);
                let q = power(10, (y.len() - 1) as nat);
                assert(q * 10 <= vy * 10 + d) by (nonlinear_arith)
                    requires
                        q <= vy,
                ;
            } else {
                assert(x.last() == x[0]);
            }
        }
    }
}

/// Between digit runs of one length, the first place where they differ
/// decides which is worth less.
pub proof fn lemma_digits_lex(x: Seq<char>, y: Seq<char>, i: int)
    requires
        all_digits(x),
        all_digits(y),
        x.len() == y.len(),
        0 <= i < x.len(),
        x.take(i) == y.take(i),
        x[i] < y[i],
    ensures
        digits_value(x) < digits_value(y),
{
    let r = (x.len() - i - 1) as nat;
    let p = power(10, r);
    lemma_digits_value_concat(x.take(i + 1), x.skip(i + 1));
    lemma_digits_value_concat(y.take(i + 1), y.skip(i + 1));
    assert(x.take(i + 1) + x.skip(i + 1) =~= x);
    assert(y.take(i + 1) + y.skip(i + 1) =~= y);
    assert(x.take(i + 1).drop_last() =~= x.take(i));
    assert(y.take(i + 1).drop_last() =~= y.take(i));
    let xs = x.skip(i + 1);
    assert(all_digits(xs)) by {
        assert forall|j: int| 0 <= j < xs.len() implies is_digit(#[trigger] xs[j]) by {
            assert(xs[j] == x[i + 1 + j]);
        }
    }
    lemma_digits_magnitude(xs);
    let hx = digits_value(x.take(i + 1));
    let hy = digits_value(y.take(i + 1));
    assert(hx + 1 <= hy);
    let tx = digits_value(xs);
    let ty = digits_value(y.skip(i + 1));
    assert(hx * p + tx < hy * p + ty) by (nonlinear_arith)
        requires
            hx + 1 <= hy,
            tx < p,
            ty >= 0,
    ;
}

/// Between digit runs that do not start with `0`, the shorter is worth less.
pub proof fn lemma_digits_shorter(x: Seq<char>, y: Seq<char>)
    requires
        all_digits(x),
        all_digits(y),
        x.len() < y.len(),
        y[0] != '0',
    ensures
        digits_value(x) < digits_value(y),
{
    lemma_digits_magnitude(x);
    lemma_digits_magnitude(y);
    lemma_power_increases(10, x.len(), (y.len() - 1) as nat);
}

pub proof fn lemma_append_zeros(x: Seq<char>, k: nat)
    ensures
        digits_value(x + zeros(k)) == digits_value(x) * power(10, k),
{
    lemma_digits_value_concat(x, zeros(k));
    lemma_zeros_value(k);
}

pub proof fn lemma_leading_zeros(k: nat, x: Seq<char>)
    ensures
        digits_value(zeros(k) + x) == digits_value(x),
{
    lemma_digits_value_concat(zeros(k), x);
    lemma_zeros_value(k);
}

fn digit_of(c: char) -> (r: u64)
    requires
        is_digit(c),
    ensures
        r == ((c as u32) - ('0' as u32)) as nat,
        r <= 9,
{
    (c as u32 - '0' as u32) as u64
}

/// Twice a run of digits. Each digit doubles, and takes a carry when the
/// digit after it is five or more.
fn double_digits(x: &Vec<char>) -> (r: Vec<char>)
    requires
        all_digits(x@),
        x@.len() > 0,
        x@[0] != '0',
    ensures
        all_digits(r@),
        r@.len() > 0,
        r@[0] != '0',
        r@.len() <= x@.len() + 1,
        digits_value(r@) == 2 * digits_value(x@),
{
    proof {
        lemma_digit_chars();
    }
    let mut r: Vec<char> = Vec::new();
    let lead = digit_of(x[0]) >= 5;
    if lead {
        r.push('1');
        assert(digits_value(r@) == 1) by {
            assert(r@.drop_last() =~= Seq::<char>::empty());
            assert(('1' as u32) == 49 && ('0' as u32) == 48);
            assert(digits_value(Seq::<char>::empty()) == 0);
            assert(r@.last() == '1');
        }
    }
    let mut i: usize = 0;
    while i < x.len()
        invariant
            0 <= i <= x@.len(),
            all_digits(x@),
            x@.len() > 0,
            x@[0] != '0',
            lead == (((x@[0] as u32) - ('0' as u32)) >= 5),
            all_digits(r@),
            r@.len() == i + (if lead { 1int } else { 0int }),
            r@.len() > 0 ==> r@[0] != '0',
            digits_value(r@) == 2 * digits_value(x@.take(i as int)) + (if i < x@.len() && ((
            x@[i as int] as u32) - ('0' as u32)) >= 5 {
                1int
            } else {
                0int
            }),
            forall|k: int| 0 <= k < 10 ==> (#[trigger] digit_chars()[k] as u32) - ('0' as u32) == k
                && is_digit(digit_chars()[k]),
        decreases x@.len() - i,
    {
        let d = digit_of(x[i]);
        let c: u64 = if i + 1 < x.len() && digit_of(x[i + 1]) >= 5 {
            1
        } else {
            0
        };
        let o = (2 * d) % 10 + c;
        let ch = digit_char(o);
        proof {
            lemma_digits_value_push(r@, ch);
            lemma_digits_value_push(x@.take(i as int), x@[i as int]);
            assert(x@.take(i as int).push(x@[i as int]) =~= x@.take(i + 1));
            assert(2 * d == 10 * (if d >= 5 { 1int } else { 0int }) + (2 * d) % 10);
        }
        r.push(ch);
        proof {
            if i == 0 && !lead {
                assert(r@[0] == ch);
                assert(d >= 1);
            }
            assert(all_digits(r@)) by {
                assert forall|k: int| 0 <= k < r@.len() implies is_digit(#[trigger] r@[k]) by {
                    if k < r@.len() - 1 {
                        assert(r@[k] == r@.drop_last()[k]);
                    }
                }
            }
        }
        i = i + 1;
    }
    assert(x@.take(x@.len() as int) =~= x@);
    r
}

/// The digits of `float_bound()`, worked out by doubling `2^54 - 1` 970 times.
fn float_bound_digits() -> (r: Vec<char>)
    ensures
        all_digits(r@),
        r@.len() > 0,
        r@[0] != '0',
        digits_value(r@) == float_bound(),
{
    let mut text = String::new();
    push_decimal(&mut text, 18014398509481983);
    let mut r = crate::text::chars_of(text.as_str());
    proof {
        lemma_decimal(18014398509481983);
        reveal_with_fuel(power, 55);
        assert(power(2, 54) == 18014398509481984);
        assert(power(2, 0) == 1);
    }
    let mut k: usize = 0;
    while k < 970
        invariant
            k <= 970,
            all_digits(r@),
            r@.len() > 0,
            r@[0] != '0',
            digits_value(r@) == (power(2, 54) - 1) * power(2, k as nat),
            power(2, 54) == 18014398509481984,
        decreases 970 - k,
    {
        r = double_digits(&r);
        proof {
            let c = power(2, 54) - 1;
            let p = power(2, k as nat);
            assert(power(2, (k + 1) as nat) == 2 * p);
            assert(2 * (c * p) == c * (2 * p)) by (nonlinear_arith);
        }
        k = k + 1;
    }
    r
}

/// Whether one run of digits is worth less than another of the same length.
fn digits_less(x: &Vec<char>, y: &Vec<char>) -> (r: bool)
    requires
        all_digits(x@),
        all_digits(y@),
        x@.len() == y@.len(),
    ensures
        r == (digits_value(x@) < digits_value(y@)),
{
    let mut i: usize = 0;
    while i < x.len()
        invariant
            0 <= i <= x@.len(),
            x@.len() == y@.len(),
            all_digits(x@),
            all_digits(y@),
            x@.take(i as int) == y@.take(i as int),
        decreases x@.len() - i,
    {
        if x[i] != y[i] {
            proof {
                if x@[i as int] < y@[i as int] {
                    lemma_digits_lex(x@, y@, i as int);
                } else {
                    lemma_digits_lex(y@, x@, i as int);
                }
            }
            return x[i] < y[i];
        }
        assert(x@.take(i + 1) =~= x@.take(i as int).push(x@[i as int]));
        assert(y@.take(i + 1) =~= y@.take(i as int).push(y@[i as int]));
        i = i + 1;
    }
    assert(x@ =~= x@.take(i as int));
    assert(y@ =~= y@.take(i as int));
    false
}

/// Far enough from zero, the scale alone decides `below_bound`.
proof fn lemma_below_bound_far(ds: Seq<char>, d1: int, d2: int)
    requires
        all_digits(ds),
        ds.len() <= 0x1_0000_0000_0000_0000,
        (d1 >= 0x8000_0000_0000_0000_0000 && d2 >= 0x8000_0000_0000_0000_0000) || (d1
            <= -0x8000_0000_0000_0000_0000 && d2 <= -0x8000_0000_0000_0000_0000),
    ensures
        below_bound(ds, d1) == below_bound(ds, d2),
{
    lemma_float_bound_range();
    lemma_digits_magnitude(ds);
    let v = digits_value(ds);
    let b = float_bound();
    if d1 >= 0 {
        if v > 0 {
            lemma_power_increases(10, 1024, d1 as nat);
            lemma_power_increases(10, 1024, d2 as nat);
            let p1 = power(10, d1 as nat);
            let p2 = power(10, d2 as nat);
            assert(v * p1 >= p1 && v * p2 >= p2) by (nonlinear_arith)
                requires
                    v >= 1,
                    p1 >= 0,
                    p2 >= 0,
            ;
        } else {
            let p1 = power(10, d1 as nat);
            let p2 = power(10, d2 as nat);
            assert(v * p1 == 0 && v * p2 == 0) by (nonlinear_arith)
                requires
                    v == 0,
            ;
        }
    } else {
        lemma_power_increases(10, ds.len(), (-d1) as nat);
        lemma_power_increases(10, ds.len(), (-d2) as nat);
        let p1 = power(10, (-d1) as nat);
        let p2 = power(10, (-d2) as nat);
        assert(b * p1 >= p1 && b * p2 >= p2) by (nonlinear_arith)
            requires
                b >= 1,
                p1 >= 0,
                p2 >= 0,
        ;
    }
}

/// Whether the digits `ds` times ten to the power `scale` stay under
/// `float_bound()`: a comparison of the two numbers' digits, by length
/// first and then place by place.
fn below_bound_digits(ds: &Vec<char>, scale: i128) -> (r: bool)
    requires
        all_digits(ds@),
        -0x10_0000_0000_0000_0000_0000_0000 <= scale <= 0x10_0000_0000_0000_0000_0000_0000,
    ensures
        r == below_bound(ds@, scale as int),
{
    proof {
        lemma_float_bound_range();
    }
    let mut z: usize = 0;
    while z < ds.len() && ds[z] == '0'
        invariant
            z <= ds@.len(),
            ds@.take(z as int) == zeros(z as nat),
        decreases ds@.len() - z,
    {
        assert(ds@.take(z + 1) =~= zeros((z + 1) as nat));
        z = z + 1;
    }
    let ghost sig = ds@.skip(z as int);
    proof {
        assert(ds@ =~= zeros(z as nat) + sig);
        lemma_leading_zeros(z as nat, sig);
        assert(all_digits(sig)) by {
            assert forall|j: int| 0 <= j < sig.len() implies is_digit(#[trigger] sig[j]) by {
                assert(sig[j] == ds@[z + j]);
            }
        }
    }
    let dpos: i128 = if scale >= 0 {
        scale
    } else {
        0
    };
    let dneg: i128 = if scale < 0 {
        -scale
    } else {
        0
    };
    if z == ds.len() {
        proof {
            assert(sig.len() == 0);
            lemma_power_positive(10, dneg as nat);
            let p = power(10, dneg as nat);
            assert(float_bound() * p >= 1) by (nonlinear_arith)
                requires
                    float_bound() >= 1,
                    p >= 1,
            ;
            assert(digits_value(sig) == 0);
            assert(0 * power(10, dpos as nat) == 0);
        }
        return true;
    }
    let n = ds.len() - z;
    if scale <= 0 && (n as i128) <= 291 {
        proof {
            lemma_float_bound_low();
            lemma_digits_magnitude(sig);
            lemma_power_increases(10, sig.len(), 291);
            lemma_power_positive(10, dneg as nat);
            let p = power(10, dneg as nat);
            assert(float_bound() <= float_bound() * p) by (nonlinear_arith)
                requires
                    p >= 1,
            ;
            assert(power(10, 0) == 1);
            assert(digits_value(sig) * 1 == digits_value(sig));
        }
        return true;
    }
    let bd = float_bound_digits();
    let lx: i128 = n as i128 + dpos;
    let ly: i128 = bd.len() as i128 + dneg;
    let ghost xs = sig + zeros(dpos as nat);
    let ghost ys = bd@ + zeros(dneg as nat);
    proof {
        lemma_append_zeros(sig, dpos as nat);
        lemma_append_zeros(bd@, dneg as nat);
        lemma_zeros_value(dpos as nat);
        lemma_zeros_value(dneg as nat);
        assert(sig[0] == ds@[z as int]);
        assert(xs[0] == sig[0]);
        assert(ys[0] == bd@[0]);
        assert(all_digits(xs)) by {
            assert forall|j: int| 0 <= j < xs.len() implies is_digit(#[trigger] xs[j]) by {
                if j < sig.len() {
                    assert(xs[j] == sig[j]);
                } else {
                    assert(xs[j] == zeros(dpos as nat)[j - sig.len()]);
                }
            }
        }
        assert(all_digits(ys)) by {
            assert forall|j: int| 0 <= j < ys.len() implies is_digit(#[trigger] ys[j]) by {
                if j < bd@.len() {
                    assert(ys[j] == bd@[j]);
                } else {
                    assert(ys[j] == zeros(dneg as nat)[j - bd@.len()]);
                }
            }
        }
        assert(digits_value(sig) * power(10, 0) == digits_value(sig));
        assert(float_bound() * power(10, 0) == float_bound());
        assert(below_bound(ds@, scale as int) == (digits_value(xs) < digits_value(ys)));
    }
    if lx < ly {
        proof {
            lemma_digits_shorter(xs, ys);
        }
        return true;
    }
    if lx > ly {
        proof {
            lemma_digits_shorter(ys, xs);
        }
        return false;
    }
    let mut x: Vec<char> = Vec::new();
    let mut i: usize = z;
    while i < ds.len()
        invariant
            z <= i <= ds@.len(),
            x@ == ds@.subrange(z as int, i as int),
        decreases ds@.len() - i,
    {
        x.push(ds[i]);
        assert(x@ =~= ds@.subrange(z as int, i + 1));
        i = i + 1;
    }
    let mut k: i128 = 0;
    while k < dpos
        invariant
            0 <= k <= dpos,
            dpos <= bd@.len(),
            x@ == sig + zeros(k as nat),
        decreases dpos - k,
    {
        x.push('0');
        assert(x@ =~= sig + zeros((k + 1) as nat));
        k = k + 1;
    }
    let mut y: Vec<char> = bd;
    assert(y@ =~= bd@ + zeros(0));
    let mut k: i128 = 0;
    while k < dneg
        invariant
            0 <= k <= dneg,
            dneg <= n,
            y@ == bd@ + zeros(k as nat),
        decreases dneg - k,
    {
        y.push('0');
        assert(y@ =~= bd@ + zeros((k + 1) as nat));
        k = k + 1;
    }
    digits_less(&x, &y)
}

pub open spec fn exponent_cap() -> int {
    0x1_0000_0000_0000_0000_0000
}

/// The value of `Sign? Digit+`, held within `exponent_cap()` either way.
pub open spec fn capped_exponent(x: Seq<char>) -> int {
    let v = exponent_value(x);
    if v > exponent_cap() {
        exponent_cap()
    } else if v < -exponent_cap() {
        -exponent_cap()
    } else {
        v
    }
}

fn capped_digits(s: &Vec<char>, from: usize) -> (r: u128)
    requires
        from <= s@.len(),
        all_digits(s@.skip(from as int)),
    ensures
        r as int == (if digits_value(s@.skip(from as int)) > exponent_cap() {
            exponent_cap()
        } else {
            digits_value(s@.skip(from as int)) as int
        }),
{
    let ghost t = s@.skip(from as int);
    let mut acc: u128 = 0;
    let mut i = from;
    while i < s.len()
        invariant
            from <= i <= s@.len(),
            t == s@.skip(from as int),
            all_digits(t),
            acc as int == (if digits_value(s@.subrange(from as int, i as int)) > exponent_cap() {
                exponent_cap()
            } else {
                digits_value(s@.subrange(from as int, i as int)) as int
            }),
        decreases s@.len() - i,
    {
        assert(t[i - from] == s@[i as int]);
        let d = digit_of(s[i]);
        proof {
            assert(s@.subrange(from as int, i as int).push(s@[i as int]) =~= s@.subrange(from as int, i + 1));
            lemma_digits_value_push(s@.subrange(from as int, i as int), s@[i as int]);
        }
        if acc < 0x1_0000_0000_0000_0000_0000 {
            acc = acc * 10 + d as u128;
            if acc > 0x1_0000_0000_0000_0000_0000 {
                acc = 0x1_0000_0000_0000_0000_0000;
            }
        }
        i = i + 1;
    }
    assert(s@.subrange(from as int, s@.len() as int) =~= t);
    acc
}

/// `capped_exponent` of the characters from `from` on.
fn exponent_at(s: &Vec<char>, from: usize) -> (r: i128)
    requires
        from <= s@.len(),
        is_exponent_digits(s@.skip(from as int)),
    ensures
        r as int == capped_exponent(s@.skip(from as int)),
{
    let ghost x = s@.skip(from as int);
    let n = s.len();
    assert(from < n);
    if s[from] == '-' || s[from] == '+' {
        assert(x.skip(1) =~= s@.skip(from + 1));
        assert(!is_digit(x[0]));
        let v = capped_digits(s, from + 1) as i128;
        if s[from] == '-' {
            -v
        } else {
            v
        }
    } else {
        capped_digits(s, from) as i128
    }
}

/// The digits from `start` to `a`, and from after the dot at `a` to `m`.
fn collect_mantissa(s: &Vec<char>, start: usize, a: usize, m: usize, dot: bool) -> (r: Vec<char>)
    requires
        start <= a <= m <= s@.len(),
        dot ==> a < m,
    ensures
        r@ == (if dot {
            s@.subrange(start as int, a as int) + s@.subrange(a + 1, m as int)
        } else {
            s@.subrange(start as int, a as int)
        }),
{
    let mut digits: Vec<char> = Vec::new();
    let mut i = start;
    while i < a
        invariant
            start <= i <= a,
            a <= s@.len(),
            digits@ == s@.subrange(start as int, i as int),
        decreases a - i,
    {
        digits.push(s[i]);
        assert(digits@ =~= s@.subrange(start as int, i + 1));
        i = i + 1;
    }
    if dot {
        let mut j = a + 1;
        assert(digits@ =~= s@.subrange(start as int, a as int) + s@.subrange(a + 1, j as int));
        while j < m
            invariant
                a + 1 <= j <= m,
                m <= s@.len(),
                digits@ == s@.subrange(start as int, a as int) + s@.subrange(a + 1, j as int),
            decreases m - j,
        {
            digits.push(s[j]);
            assert(digits@ =~= s@.subrange(start as int, a as int) + s@.subrange(a + 1, j + 1));
            j = j + 1;
        }
    }
    digits
}

/// Where the mantissa stops at `m`, `is_finite_float_literal` comes down to
/// `below_bound` at the literal's scale, or at any scale as far out on the
/// same side.
proof fn lemma_finite_literal(t: Seq<char>, a: int, m: int, scale: int)
    requires
        is_decimal_float(t),
        mantissa_bounds(t, a, m),
        mantissa_digits(t, a, m).len() <= 0x1_0000_0000_0000_0000,
        scale == literal_scale(t, a, m) || (scale >= 0x8000_0000_0000_0000_0000 && literal_scale(
            t,
            a,
            m,
        ) >= 0x8000_0000_0000_0000_0000) || (scale <= -0x8000_0000_0000_0000_0000
            && literal_scale(t, a, m) <= -0x8000_0000_0000_0000_0000),
    ensures
        below_bound(mantissa_digits(t, a, m), scale) == (exists|a2: int, m2: int|
            #[trigger] mantissa_bounds(t, a2, m2) && below_bound(
                mantissa_digits(t, a2, m2),
                literal_scale(t, a2, m2),
            )),
{
    let ds = mantissa_digits(t, a, m);
    assert(all_digits(ds)) by {
        assert forall|j: int| 0 <= j < ds.len() implies is_digit(#[trigger] ds[j]) by {
            if j < a {
                assert(ds[j] == t.take(a)[j]);
            } else {
                assert(ds[j] == t.subrange(a + 1, m)[j - a]);
            }
        }
    }
    if scale != literal_scale(t, a, m) {
        lemma_below_bound_far(ds, scale, literal_scale(t, a, m));
    }
    if !below_bound(ds, scale) {
        assert forall|a2: int, m2: int| #[trigger] mantissa_bounds(t, a2, m2) implies !below_bound(
            mantissa_digits(t, a2, m2),
            literal_scale(t, a2, m2),
        ) by {
            lemma_mantissa_bounds_unique(t, a, m, a2, m2);
        }
    }
}

proof fn lemma_capped_scale(x: Seq<char>, f: int)
    requires
        0 <= f <= 0x1_0000_0000_0000_0000,
    ensures
        capped_exponent(x) - f == exponent_value(x) - f || (capped_exponent(x) - f
            >= 0x8000_0000_0000_0000_0000 && exponent_value(x) - f >= 0x8000_0000_0000_0000_0000)
            || (capped_exponent(x) - f <= -0x8000_0000_0000_0000_0000 && exponent_value(x) - f
            <= -0x8000_0000_0000_0000_0000),
{
}

/// Whether `s` is a finite float literal: an optional sign, then decimal
/// digits with an optional fraction and exponent, whose value does not round
/// past the largest finite double.
#[verifier::rlimit(40)]
pub fn finite_float_literal_chars(s: &Vec<char>) -> (r: bool)
    ensures
        r == is_finite_float_literal(s@),
{
    let start: usize = if s.len() > 0 && is_sign_char(s[0]) {
        1
    } else {
        0
    };
    proof {
        assert(s@.skip(0) =~= s@);
    }
    let ghost t = s@.skip(start as int);
    if !decimal_float_at(s, start) {
        return false;
    }
    let a = scan_digits(s, start);
    let dot = a < s.len() && s[a] == '.';
    let m = if dot {
        scan_digits(s, a + 1)
    } else {
        a
    };
    let ghost ar = a - start;
    let ghost mr = m - start;
    proof {
        assert(t.take(ar) =~= s@.subrange(start as int, a as int));
        if dot {
            assert(t.subrange(ar + 1, mr) =~= s@.subrange(a + 1, m as int));
        }
        assert(mantissa_bounds(t, ar, mr));
        lemma_decimal_float(t, ar, mr);
    }
    let digits = collect_mantissa(s, start, a, m, dot);
    proof {
        if dot {
            assert(mantissa_digits(t, ar, mr) =~= digits@);
        } else {
            assert(mantissa_digits(t, ar, mr) =~= digits@);
        }
    }
    let frac: usize = if dot {
        m - a - 1
    } else {
        0
    };
    let e: i128 = if m < s.len() {
        proof {
            assert(t.skip(mr + 1) =~= s@.skip(m + 1));
        }
        exponent_at(s, m + 1)
    } else {
        0
    };
    let scale: i128 = e - frac as i128;
    proof {
        assert(frac as int == fraction_len(t, ar, mr));
        if m < s.len() {
            assert(t.skip(mr + 1) =~= s@.skip(m + 1));
            lemma_capped_scale(t.skip(mr + 1), frac as int);
        } else {
            assert(scale as int == literal_scale(t, ar, mr));
        }
        lemma_finite_literal(t, ar, mr, scale as int);
        assert(unsigned_part(s@) == t);
    }
    let r = below_bound_digits(&digits, scale);
    proof {
        assert(r == below_bound(mantissa_digits(t, ar, mr), scale as int));
    }
    r
}

proof fn lemma_power_2_64()
    ensures
        power(2, 64) == 0x1_0000_0000_0000_0000,
{
    reveal_with_fuel(power, 65);
}

/// A finite float literal parses as a float literal.
pub proof fn lemma_finite_is_float_literal(s: Seq<char>)
    requires
        is_finite_float_literal(s),
    ensures
        is_float_literal(s),
        classify(s) is Some,
{
}

/// The decimal digits of an integer below `2^64`, with or without a `-`,
/// are a finite float literal.
pub proof fn lemma_integer_lexeme_finite(v: nat)
    requires
        v < 0x1_0000_0000_0000_0000,
    ensures
        is_finite_float_literal(decimal(v)),
        is_finite_float_literal(seq!['-'] + decimal(v)),
{
    let t = decimal(v);
    lemma_decimal(v);
    lemma_float_bound_range();
    lemma_power_2_64();
    let n = t.len() as int;
    assert(t.take(n) =~= t);
    assert(is_digit(t[0]));
    assert(mantissa_bounds(t, n, n));
    assert(mantissa_digits(t, n, n) == t);
    assert(literal_scale(t, n, n) == 0);
    assert(power(10, 0) == 1);
    assert(digits_value(t) * 1 == digits_value(t));
    assert(below_bound(mantissa_digits(t, n, n), literal_scale(t, n, n)));
    assert(is_mantissa(t));
    assert(!is_sign(t[0]));
    assert(unsigned_part(t) == t);
    assert(is_decimal_float(unsigned_part(t)));
    assert(mantissa_bounds(unsigned_part(t), n, n) && below_bound(
        mantissa_digits(unsigned_part(t), n, n),
        literal_scale(unsigned_part(t), n, n),
    ));
    let u = seq!['-'] + t;
    assert(u.skip(1) =~= t);
    assert(unsigned_part(u) == t);
}

} // verus!
