use vstd::prelude::*;
use vstd::string::*;

verus! {

/// Characters with the Unicode `White_Space` property.
pub open spec fn is_white_space(c: char) -> bool {
    let u = c as u32;
    (0x09 <= u && u <= 0x0D) || u == 0x20 || u == 0x85 || u == 0xA0 || u == 0x1680 || (0x2000
        <= u && u <= 0x200A) || u == 0x2028 || u == 0x2029 || u == 0x202F || u == 0x205F || u
        == 0x3000
}

pub open spec fn trim_start_spec(s: Seq<char>) -> Seq<char>
    decreases s.len(),
{
    if s.len() > 0 && is_white_space(s[0]) {
        trim_start_spec(s.drop_first())
    } else {
        s
    }
}

pub open spec fn trim_end_spec(s: Seq<char>) -> Seq<char>
    decreases s.len(),
{
    if s.len() > 0 && is_white_space(s.last()) {
        trim_end_spec(s.drop_last())
    } else {
        s
    }
}

/// `s` without its leading and trailing white space.
pub open spec fn trim_spec(s: Seq<char>) -> Seq<char> {
    trim_end_spec(trim_start_spec(s))
}

pub open spec fn is_digit(c: char) -> bool {
    '0' <= c && c <= '9'
}

pub open spec fn all_digits(s: Seq<char>) -> bool {
    forall|i: int| 0 <= i < s.len() ==> is_digit(#[trigger] s[i])
}

pub open spec fn digits_value(s: Seq<char>) -> nat
    decreases s.len(),
{
    if s.len() == 0 {
        0
    } else {
        digits_value(s.drop_last()) * 10 + (s.last() as u32 - '0' as u32) as nat
    }
}

/// The value of a decimal `u8` literal: an optional `+`, then one or more
/// ASCII digits whose value is at most 255.
pub open spec fn u8_of_text(s: Seq<char>) -> Option<u8> {
    let d = if s.len() > 0 && s[0] == '+' {
        s.drop_first()
    } else {
        s
    };
    if d.len() > 0 && all_digits(d) && digits_value(d) <= 255 {
        Some(digits_value(d) as u8)
    } else {
        None
    }
}

/// Relies on `str::trim`: removes leading and trailing characters that have the
/// Unicode `White_Space` property, and nothing else.
#[verifier::external_body]
pub(crate) fn trim_ws(s: &str) -> (r: &str)
    ensures
        r@ == trim_spec(s@),
{
    s.trim()
}

/// Relies on `str::parse::<u8>`: accepts an optional `+` followed by decimal
/// digits whose value fits in a `u8`, and rejects everything else.
#[verifier::external_body]
fn parse_u8(s: &str) -> (r: Option<u8>)
    ensures
        r == u8_of_text(s@),
{
    s.parse::<u8>().ok()
}

/// Reads a field holding an integer in [0, 255], surrounded by any white space.
pub fn str_as_u8(s: &str) -> (r: Option<u8>)
    ensures
        r == u8_of_text(trim_spec(s@)),
{
    parse_u8(trim_ws(s))
}

pub open spec fn is_sign(c: char) -> bool {
    c == '+' || c == '-'
}

pub open spec fn is_exp_marker(c: char) -> bool {
    c == 'e' || c == 'E'
}

/// `s` without one leading `+` or `-`.
pub open spec fn without_sign(s: Seq<char>) -> Seq<char> {
    if s.len() > 0 && is_sign(s[0]) {
        s.drop_first()
    } else {
        s
    }
}

/// `t` spells the lower-case word `w`, each letter in either case.
pub open spec fn is_word_ignoring_case(t: Seq<char>, w: Seq<char>) -> bool {
    t.len() == w.len() && forall|i: int|
        0 <= i < t.len() ==> (#[trigger] t[i] == w[i] || t[i] as u32 + 32 == w[i] as u32)
}

/// `Digit+ | Digit+ '.' Digit* | Digit* '.' Digit+`
pub open spec fn is_mantissa(m: Seq<char>) -> bool {
    (m.len() > 0 && all_digits(m)) || (m.len() > 1 && exists|d: int|
        0 <= d < m.len() && #[trigger] m[d] == '.' && all_digits(m.take(d)) && all_digits(
            m.skip(d + 1),
        ))
}

/// `'e' Sign? Digit+`, the marker in either case.
pub open spec fn is_exponent(e: Seq<char>) -> bool {
    e.len() > 0 && is_exp_marker(e[0]) && without_sign(e.drop_first()).len() > 0 && all_digits(
        without_sign(e.drop_first()),
    )
}

/// A mantissa with an optional exponent.
pub open spec fn is_number(t: Seq<char>) -> bool {
    exists|k: int|
        0 <= k <= t.len() && #[trigger] is_mantissa(t.take(k)) && (k == t.len() || is_exponent(
            t.skip(k),
        ))
}

/// The text of a decimal floating-point number as `f64`'s `FromStr` documents
/// it: an optional sign, then `inf`, `infinity`, `nan` (in any case) or a number.
pub open spec fn is_float_text(s: Seq<char>) -> bool {
    let t = without_sign(s);
    is_word_ignoring_case(t, seq!['i', 'n', 'f']) || is_word_ignoring_case(
        t,
        seq!['i', 'n', 'f', 'i', 'n', 'i', 't', 'y'],
    ) || is_word_ignoring_case(t, seq!['n', 'a', 'n']) || is_number(t)
}

fn digits_between(s: &str, from: usize, to: usize) -> (r: bool)
    requires
        from <= to <= s@.len(),
    ensures
        r == all_digits(s@.subrange(from as int, to as int)),
{
    let mut i = from;
    while i < to
        invariant
            from <= i <= to <= s@.len(),
            all_digits(s@.subrange(from as int, i as int)),
        decreases to - i,
    {
        let c = s.get_char(i);
        if !('0' <= c && c <= '9') {
            assert(s@.subrange(from as int, to as int)[i - from] == c);
            return false;
        }
        assert(forall|j: int|
            0 <= j < i + 1 - from ==> s@.subrange(from as int, i + 1)[j] == s@.subrange(
                from as int,
                i as int,
            ).push(c)[j]);
        i = i + 1;
    }
    true
}

fn word_ignoring_case(t: &str, w: &Vec<char>) -> (r: bool)
    ensures
        r == is_word_ignoring_case(t@, w@),
{
    let n = t.unicode_len();
    if n != w.len() {
        return false;
    }
    let mut i: usize = 0;
    while i < n
        invariant
            n == t@.len() == w@.len(),
            i <= n,
            forall|j: int|
                0 <= j < i ==> (#[trigger] t@[j] == w@[j] || t@[j] as u32 + 32 == w@[j] as u32),
        decreases n - i,
    {
        let c = t.get_char(i);
        if !(c == w[i] || c as u32 + 32 == w[i] as u32) {
            return false;
        }
        i = i + 1;
    }
    true
}

/// The index of the first character of `t` that is not a digit, or its length.
fn first_non_digit(t: &str) -> (j: usize)
    ensures
        j <= t@.len(),
        all_digits(t@.take(j as int)),
        j < t@.len() ==> !is_digit(t@[j as int]),
{
    let n = t.unicode_len();
    let mut j: usize = 0;
    while j < n
        invariant
            n == t@.len(),
            j <= n,
            all_digits(t@.take(j as int)),
        decreases n - j,
    {
        let c = t.get_char(j);
        if !('0' <= c && c <= '9') {
            return j;
        }
        assert(t@.take(j + 1) =~= t@.take(j as int).push(c));
        j = j + 1;
    }
    j
}

fn mantissa(t: &str) -> (r: bool)
    ensures
        r == is_mantissa(t@),
{
    let n = t.unicode_len();
    let j = first_non_digit(t);
    if j == n {
        assert(t@.take(n as int) =~= t@);
        return n > 0;
    }
    let c = t.get_char(j);
    if c != '.' {
        assert(!all_digits(t@));
        assert forall|d: int|
            0 <= d < t@.len() && #[trigger] t@[d] == '.' implies !all_digits(t@.take(d)) by {
            if d < j {
                assert(t@.take(j as int)[d] == t@[d]);
            }
            assert(t@.take(d)[j as int] == t@[j as int]);
        }
        return false;
    }
    let rest = digits_between(t, j + 1, n);
    assert(t@.subrange(j + 1, n as int) =~= t@.skip(j + 1));
    if rest && n > 1 {
        return true;
    }
    assert(!all_digits(t@));
    assert forall|d: int|
        0 <= d < t@.len() && #[trigger] t@[d] == '.' && all_digits(t@.take(d)) implies d == j by {
        if d > j {
            assert(t@.take(d)[j as int] == t@[j as int]);
        }
        if d < j {
            assert(t@.take(j as int)[d] == t@[d]);
        }
    }
    false
}

fn exponent(e: &str) -> (r: bool)
    ensures
        r == is_exponent(e@),
{
    let n = e.unicode_len();
    if n == 0 {
        return false;
    }
    let c = e.get_char(0);
    if !(c == 'e' || c == 'E') {
        return false;
    }
    let mut start: usize = 1;
    if n > 1 {
        let s = e.get_char(1);
        if s == '+' || s == '-' {
            start = 2;
        }
    }
    assert(without_sign(e@.drop_first()) =~= e@.subrange(start as int, n as int));
    start < n && digits_between(e, start, n)
}

/// The index of the first exponent marker in `t`, or its length.
fn first_marker(t: &str) -> (k: usize)
    ensures
        k <= t@.len(),
        forall|j: int| 0 <= j < k ==> !is_exp_marker(#[trigger] t@[j]),
        k < t@.len() ==> is_exp_marker(t@[k as int]),
{
    let n = t.unicode_len();
    let mut k: usize = 0;
    while k < n
        invariant
            n == t@.len(),
            k <= n,
            forall|j: int| 0 <= j < k ==> !is_exp_marker(#[trigger] t@[j]),
        decreases n - k,
    {
        let c = t.get_char(k);
        if c == 'e' || c == 'E' {
            return k;
        }
        k = k + 1;
    }
    k
}

fn number(t: &str) -> (r: bool)
    ensures
        r == is_number(t@),
{
    let n = t.unicode_len();
    let k = first_marker(t);
    let m = t.substring_char(0, k);
    let e = t.substring_char(k, n);
    assert(m@ =~= t@.take(k as int));
    assert(e@ =~= t@.skip(k as int));
    let r = mantissa(m) && (k == n || exponent(e));
    if !r {
        assert forall|k2: int|
            0 <= k2 <= t@.len() && #[trigger] is_mantissa(t@.take(k2)) implies !(k2 == t@.len()
            || is_exponent(t@.skip(k2))) by {
            lemma_mantissa_has_no_marker(t@.take(k2));
            if k2 < k {
                assert(t@.skip(k2)[0] == t@[k2]);
            } else if k2 > k {
                assert(t@.take(k2)[k as int] == t@[k as int]);
            }
        }
    }
    r
}

proof fn lemma_mantissa_has_no_marker(m: Seq<char>)
    requires
        is_mantissa(m),
    ensures
        forall|i: int| 0 <= i < m.len() ==> !is_exp_marker(#[trigger] m[i]),
{
    if !(m.len() > 0 && all_digits(m)) {
        let d = choose|d: int|
            0 <= d < m.len() && #[trigger] m[d] == '.' && all_digits(m.take(d)) && all_digits(
                m.skip(d + 1),
            );
        assert forall|i: int| 0 <= i < m.len() implies !is_exp_marker(#[trigger] m[i]) by {
            if i < d {
                assert(m.take(d)[i] == m[i]);
            } else if i > d {
                assert(m.skip(d + 1)[i - d - 1] == m[i]);
            }
        }
    }
}

/// Tells whether `s` is the text of a floating-point number.
fn float_text(s: &str) -> (r: bool)
    ensures
        r == is_float_text(s@),
{
    let n = s.unicode_len();
    let mut start: usize = 0;
    if n > 0 {
        let c = s.get_char(0);
        if c == '+' || c == '-' {
            start = 1;
        }
    }
    let t = s.substring_char(start, n);
    assert(t@ =~= without_sign(s@));
    let inf = vec!['i', 'n', 'f'];
    let infinity = vec!['i', 'n', 'f', 'i', 'n', 'i', 't', 'y'];
    let nan = vec!['n', 'a', 'n'];
    assert(inf@ =~= seq!['i', 'n', 'f']);
    assert(infinity@ =~= seq!['i', 'n', 'f', 'i', 'n', 'i', 't', 'y']);
    assert(nan@ =~= seq!['n', 'a', 'n']);
    word_ignoring_case(t, &inf) || word_ignoring_case(t, &infinity) || word_ignoring_case(t, &nan)
        || number(t)
}

/// Reads a field holding a floating-point coordinate, surrounded by any white
/// space, and gives back its text without that white space.
pub fn str_as_coord(s: &str) -> (r: Option<String>)
    ensures
        r.is_some() == is_float_text(trim_spec(s@)),
        r.is_some() ==> r.unwrap()@ == trim_spec(s@),
{
    let t = trim_ws(s);
    if float_text(t) {
        Some(String::from_str(t))
    } else {
        None
    }
}

/// A character that can neither separate fields nor be trimmed away.
pub open spec fn is_plain(c: char) -> bool {
    c != ',' && !is_white_space(c)
}

/// `t` keeps all of itself when trimmed, even behind leading white space.
pub proof fn lemma_trim_keeps(t: Seq<char>)
    requires
        t.len() > 0,
        is_plain(t[0]),
        is_plain(t.last()),
    ensures
        trim_spec(t) == t,
        trim_spec(seq![' '] + t) == t,
{
    let s = seq![' '] + t;
    assert(s.drop_first() =~= t);
    assert(trim_start_spec(s) == trim_start_spec(t));
}

/// A text that trimming leaves alone is left alone behind one space, too.
pub proof fn lemma_trim_after_space(t: Seq<char>)
    requires
        trim_spec(t) == t,
    ensures
        trim_spec(seq![' '] + t) == t,
{
    let s = seq![' '] + t;
    assert(s.drop_first() =~= t);
    assert(trim_start_spec(s) == trim_start_spec(t));
}

/// Every character of a floating-point number's text is plain.
pub proof fn lemma_float_text_plain(s: Seq<char>)
    requires
        is_float_text(s),
    ensures
        s.len() > 0,
        forall|i: int| 0 <= i < s.len() ==> is_plain(#[trigger] s[i]),
{
    let t = without_sign(s);
    assert(t.len() > 0 ==> s.len() > 0);
    if is_number(t) {
        let k = choose|k: int|
            0 <= k <= t.len() && #[trigger] is_mantissa(t.take(k)) && (k == t.len()
                || is_exponent(t.skip(k)));
        let m = t.take(k);
        assert forall|i: int| 0 <= i < k implies is_plain(#[trigger] t[i]) by {
            assert(m[i] == t[i]);
            if !(m.len() > 0 && all_digits(m)) {
                let d = choose|d: int|
                    0 <= d < m.len() && #[trigger] m[d] == '.' && all_digits(m.take(d))
                        && all_digits(m.skip(d + 1));
                if i < d {
                    assert(m.take(d)[i] == m[i]);
                } else if i > d {
                    assert(m.skip(d + 1)[i - d - 1] == m[i]);
                }
            }
        }
        if k < t.len() {
            let e = t.skip(k);
            let u = without_sign(e.drop_first());
            assert forall|i: int| k <= i < t.len() implies is_plain(#[trigger] t[i]) by {
                assert(e[i - k] == t[i]);
                if i > k {
                    assert(e.drop_first()[i - k - 1] == t[i]);
                    if u.len() < e.drop_first().len() {
                        if i > k + 1 {
                            assert(u[i - k - 2] == t[i]);
                        }
                    } else {
                        assert(u[i - k - 1] == t[i]);
                    }
                }
            }
        }
    }
    assert forall|i: int| 0 <= i < s.len() implies is_plain(#[trigger] s[i]) by {
        if t.len() < s.len() {
            if i > 0 {
                assert(t[i - 1] == s[i]);
            }
        } else {
            assert(t[i] == s[i]);
        }
    }
}

pub open spec fn decimal_digit(d: nat) -> char {
    seq!['0', '1', '2', '3', '4', '5', '6', '7', '8', '9'][d as int]
}

/// The decimal text of `n`, without leading zeros.
pub open spec fn decimal_text(n: nat) -> Seq<char>
    decreases n,
{
    if n < 10 {
        seq![decimal_digit(n)]
    } else {
        decimal_text(n / 10).push(decimal_digit(n % 10))
    }
}

pub proof fn lemma_decimal_text(n: nat)
    ensures
        decimal_text(n).len() > 0,
        all_digits(decimal_text(n)),
        digits_value(decimal_text(n)) == n,
        forall|i: int| 0 <= i < decimal_text(n).len() ==> is_plain(#[trigger] decimal_text(n)[i]),
    decreases n,
{
    let d = decimal_digit(n % 10);
    assert(d as u32 - '0' as u32 == n % 10) by {
        assert(seq!['0', '1', '2', '3', '4', '5', '6', '7', '8', '9'][(n % 10) as int] == d);
    }
    if n >= 10 {
        lemma_decimal_text(n / 10);
        let t = decimal_text(n);
        assert(t.drop_last() =~= decimal_text(n / 10));
        assert(forall|i: int| 0 <= i < t.len() - 1 ==> t[i] == decimal_text(n / 10)[i]);
        assert(t.last() == d);
        assert((n / 10) * 10 + n % 10 == n) by (nonlinear_arith);
        assert(digits_value(t) == digits_value(decimal_text(n / 10)) * 10 + (d as u32 - '0' as u32) as nat);
    } else {
        let t = decimal_text(n);
        assert(t.drop_last() =~= Seq::<char>::empty());
        assert(digits_value(t.drop_last()) == 0);
        assert(t.last() == d);
    }
}

/// A byte written in decimal reads back as itself.
pub proof fn lemma_u8_text_round_trip(v: u8)
    ensures
        u8_of_text(decimal_text(v as nat)) == Some(v),
        decimal_text(v as nat).len() > 0,
        forall|i: int|
            0 <= i < decimal_text(v as nat).len() ==> is_plain(#[trigger] decimal_text(v as nat)[i]),
{
    lemma_decimal_text(v as nat);
    let t = decimal_text(v as nat);
    assert(is_digit(t[0]));
}

} // verus!
