//! Text helpers: character access, whitespace trimming, integer parsing,
//! splitting, and decimal formatting.

use vstd::prelude::*;

verus! {

/// Returns the characters of `s`.
pub fn str_chars(s: &str) -> (r: Vec<char>)
    ensures
        r@ == s@,
{
    let mut r: Vec<char> = Vec::new();
    for c in iter: s.chars()
        invariant
            r@ == iter.seq().take(iter.index() as int),
    {
        r.push(c);
    }
    r
}

/// Builds a `String` from characters (`String: FromIterator<char>`).
#[verifier::external_body]
pub(crate) fn string_from_chars(chars: &[char]) -> (s: String)
    ensures
        s@ == chars@,
{
    chars.iter().collect()
}

/// String slice equality (`<str as PartialEq>::eq`).
#[verifier::external_body]
pub(crate) fn str_eq(a: &str, b: &str) -> (r: bool)
    ensures
        r == (a@ == b@),
{
    a == b
}

/// `c` has the Unicode `White_Space` property (as `char::is_whitespace`).
pub open spec fn is_whitespace(c: char) -> bool {
    ||| '\t' <= c <= '\r'
    ||| c == ' '
    ||| c == '\u{85}'
    ||| c == '\u{A0}'
    ||| c == '\u{1680}'
    ||| '\u{2000}' <= c <= '\u{200A}'
    ||| c == '\u{2028}'
    ||| c == '\u{2029}'
    ||| c == '\u{202F}'
    ||| c == '\u{205F}'
    ||| c == '\u{3000}'
}

fn char_is_whitespace(c: char) -> (r: bool)
    ensures
        r == is_whitespace(c),
{
    ('\t' <= c && c <= '\r') || c == ' ' || c == '\u{85}' || c == '\u{A0}' || c == '\u{1680}' || (
    '\u{2000}' <= c && c <= '\u{200A}') || c == '\u{2028}' || c == '\u{2029}' || c == '\u{202F}'
        || c == '\u{205F}' || c == '\u{3000}'
}

/// Number of leading whitespace characters.
pub open spec fn leading_ws(s: Seq<char>) -> int
    decreases s.len(),
{
    if s.len() > 0 && is_whitespace(s[0]) {
        1 + leading_ws(s.drop_first())
    } else {
        0
    }
}

/// Number of trailing whitespace characters.
pub open spec fn trailing_ws(s: Seq<char>) -> int
    decreases s.len(),
{
    if s.len() > 0 && is_whitespace(s.last()) {
        1 + trailing_ws(s.drop_last())
    } else {
        0
    }
}

/// `s` without leading and trailing whitespace (as `str::trim`).
pub open spec fn trimmed(s: Seq<char>) -> Seq<char> {
    let t = s.skip(leading_ws(s));
    t.take(t.len() - trailing_ws(t))
}

proof fn lemma_leading_ws(s: Seq<char>, i: int)
    requires
        0 <= i <= s.len(),
        forall|j: int| 0 <= j < i ==> is_whitespace(#[trigger] s[j]),
        i == s.len() || !is_whitespace(s[i]),
    ensures
        leading_ws(s) == i,
    decreases i,
{
    if i > 0 {
        let d = s.drop_first();
        assert forall|j: int| 0 <= j < i - 1 implies is_whitespace(#[trigger] d[j]) by {
            assert(d[j] == s[j + 1]);
        }
        if i < s.len() {
            assert(d[i - 1] == s[i]);
        }
        lemma_leading_ws(d, i - 1);
    }
}

proof fn lemma_trailing_ws(s: Seq<char>, i: int)
    requires
        0 <= i <= s.len(),
        forall|j: int| s.len() - i <= j < s.len() ==> is_whitespace(#[trigger] s[j]),
        i == s.len() || !is_whitespace(s[s.len() - 1 - i]),
    ensures
        trailing_ws(s) == i,
    decreases i,
{
    if i > 0 {
        let d = s.drop_last();
        assert forall|j: int| d.len() - (i - 1) <= j < d.len() implies is_whitespace(#[trigger] d[j]) by {
            assert(d[j] == s[j]);
        }
        if i < s.len() {
            assert(d[d.len() - 1 - (i - 1)] == s[s.len() - 1 - i]);
        }
        assert(is_whitespace(s[s.len() - 1]));
        lemma_trailing_ws(d, i - 1);
    }
}

/// Removes leading and trailing whitespace.
pub fn trim_chars(s: &[char]) -> (r: Vec<char>)
    ensures
        r@ == trimmed(s@),
{
    let n = s.len();
    let mut i: usize = 0;
    while i < n && char_is_whitespace(s[i])
        invariant
            i <= n,
            n == s@.len(),
            forall|j: int| 0 <= j < i ==> is_whitespace(#[trigger] s@[j]),
        decreases n - i,
    {
        i = i + 1;
    }
    proof {
        lemma_leading_ws(s@, i as int);
    }
    let ghost t = s@.skip(i as int);
    let mut k: usize = 0;
    while k < n - i && char_is_whitespace(s[n - 1 - k])
        invariant
            i <= n,
            n == s@.len(),
            t == s@.skip(i as int),
            k <= n - i,
            forall|j: int| t.len() - k <= j < t.len() ==> is_whitespace(#[trigger] t[j]),
        decreases n - i - k,
    {
        proof {
            assert(t[t.len() - 1 - k] == s@[n - 1 - k]);
        }
        k = k + 1;
    }
    proof {
        if k < n - i {
            assert(t[t.len() - 1 - k] == s@[n - 1 - k]);
        }
        lemma_trailing_ws(t, k as int);
    }
    let mut r: Vec<char> = Vec::with_capacity(n - i - k);
    let mut p: usize = i;
    while p < n - k
        invariant
            i <= p <= n - k,
            k <= n - i,
            n == s@.len(),
            r@ == s@.subrange(i as int, p as int),
        decreases n - k - p,
    {
        r.push(s[p]);
        p = p + 1;
        proof {
            assert(r@ =~= s@.subrange(i as int, p as int));
        }
    }
    proof {
        assert(t.take(t.len() - k) =~= s@.subrange(i as int, (n - k) as int));
    }
    r
}

/// Value of a string of ASCII decimal digits.
pub open spec fn digits_value(s: Seq<char>) -> int
    decreases s.len(),
{
    if s.len() == 0 {
        0
    } else {
        digits_value(s.drop_last()) * 10 + (s.last() as int - '0' as int)
    }
}

/// Every character is an ASCII decimal digit.
pub open spec fn all_digits(s: Seq<char>) -> bool {
    forall|i: int| 0 <= i < s.len() ==> '0' <= #[trigger] s[i] <= '9'
}

/// The `i8` that `s` denotes, as `str::parse::<i8>` reads it: an optional
/// `+` or `-` sign followed by at least one ASCII digit, in range.
pub open spec fn parse_i8_spec(s: Seq<char>) -> Option<i8> {
    let neg = s.len() > 0 && s[0] == '-';
    let body = if s.len() > 0 && (s[0] == '-' || s[0] == '+') {
        s.drop_first()
    } else {
        s
    };
    let v = if neg {
        -digits_value(body)
    } else {
        digits_value(body)
    };
    if body.len() > 0 && all_digits(body) && -128 <= v <= 127 {
        Some(v as i8)
    } else {
        None
    }
}

proof fn lemma_digits_value_nonneg(s: Seq<char>)
    requires
        all_digits(s),
    ensures
        digits_value(s) >= 0,
    decreases s.len(),
{
    if s.len() > 0 {
        let d = s.drop_last();
        assert forall|i: int| 0 <= i < d.len() implies '0' <= #[trigger] d[i] <= '9' by {
            assert(d[i] == s[i]);
        }
        lemma_digits_value_nonneg(d);
        assert('0' <= s[s.len() - 1] <= '9');
    }
}

/// Parses an `i8` as `str::parse::<i8>` does.
pub fn parse_i8(s: &[char]) -> (r: Option<i8>)
    ensures
        r == parse_i8_spec(s@),
{
    let n = s.len();
    let mut start: usize = 0;
    let mut neg = false;
    if n > 0 && (s[0] == '-' || s[0] == '+') {
        neg = s[0] == '-';
        start = 1;
    }
    let ghost body = if n > 0 && (s@[0] == '-' || s@[0] == '+') {
        s@.drop_first()
    } else {
        s@
    };
    proof {
        assert(body =~= s@.skip(start as int));
    }
    if start == n {
        return None;
    }
    // Value of the digits read so far, saturated above 128.
    let mut v: u32 = 0;
    let mut big = false;
    let mut i: usize = start;
    while i < n
        invariant
            start <= i <= n,
            n == s@.len(),
            body == s@.skip(start as int),
            body == (if n > 0 && (s@[0] == '-' || s@[0] == '+') {
                s@.drop_first()
            } else {
                s@
            }),
            neg == (n > 0 && s@[0] == '-'),
            all_digits(s@.subrange(start as int, i as int)),
            !big ==> v as int == digits_value(s@.subrange(start as int, i as int)) && v <= 128,
            big ==> digits_value(s@.subrange(start as int, i as int)) > 128,
        decreases n - i,
    {
        let c = s[i];
        if !('0' <= c && c <= '9') {
            proof {
                assert(body[i - start] == c);
                assert(!('0' <= body[i - start] <= '9'));
                assert(!all_digits(body));
                assert(parse_i8_spec(s@) == None::<i8>);
            }
            return None;
        }
        let d = (c as u32) - ('0' as u32);
        proof {
            let p = s@.subrange(start as int, i as int);
            let q = s@.subrange(start as int, i + 1);
            assert(q.drop_last() =~= p);
            assert(q.last() == c);
            lemma_digits_value_nonneg(p);
            assert(all_digits(q));
        }
        if !big {
            let nv = v * 10 + d;
            if nv > 128 {
                big = true;
            } else {
                v = nv;
            }
        }
        i = i + 1;
    }
    proof {
        assert(s@.subrange(start as int, n as int) =~= body);
    }
    if big {
        return None;
    }
    if neg {
        Some((0 - (v as i32)) as i8)
    } else if v <= 127 {
        Some(v as i8)
    } else {
        None
    }
}

/// The pieces of `s` between commas (as `str::split(',')`).
pub open spec fn split_commas(s: Seq<char>) -> Seq<Seq<char>>
    decreases s.len(),
{
    if s.len() == 0 {
        seq![Seq::empty()]
    } else {
        let p = split_commas(s.drop_last());
        if s.last() == ',' {
            p.push(Seq::empty())
        } else {
            p.update(p.len() - 1, p.last().push(s.last()))
        }
    }
}

proof fn lemma_split_nonempty(s: Seq<char>)
    ensures
        split_commas(s).len() >= 1,
    decreases s.len(),
{
    if s.len() > 0 {
        lemma_split_nonempty(s.drop_last());
    }
}

/// Splits `s` at every comma.
pub fn split_commas_exec(s: &[char]) -> (r: Vec<Vec<char>>)
    ensures
        r@.len() == split_commas(s@).len(),
        forall|k: int| 0 <= k < r@.len() ==> (#[trigger] r@[k])@ == split_commas(s@)[k],
{
    let mut parts: Vec<Vec<char>> = Vec::new();
    let mut current: Vec<char> = Vec::new();
    let mut i: usize = 0;
    proof {
        assert(s@.take(0) =~= Seq::<char>::empty());
    }
    while i < s.len()
        invariant
            i <= s@.len(),
            parts@.len() + 1 == split_commas(s@.take(i as int)).len(),
            forall|k: int| 0 <= k < parts@.len() ==> (#[trigger] parts@[k])@ == split_commas(s@.take(i as int))[k],
            current@ == split_commas(s@.take(i as int)).last(),
        decreases s@.len() - i,
    {
        let c = s[i];
        proof {
            assert(s@.take(i + 1).drop_last() =~= s@.take(i as int));
            assert(s@.take(i + 1).last() == c);
            lemma_split_nonempty(s@.take(i as int));
        }
        if c == ',' {
            let done = current;
            parts.push(done);
            current = Vec::new();
        } else {
            current.push(c);
        }
        i = i + 1;
    }
    proof {
        assert(s@.take(i as int) =~= s@);
    }
    parts.push(current);
    parts
}

/// The decimal representation of `n`.
pub open spec fn decimal_chars(n: nat) -> Seq<char>
    decreases n,
{
    if n < 10 {
        seq![(('0' as nat) + n) as char]
    } else {
        decimal_chars(n / 10).push((('0' as nat) + n % 10) as char)
    }
}

/// Appends the decimal representation of `n` to `out`.
pub fn push_decimal(out: &mut Vec<char>, n: u64)
    ensures
        final(out)@ == old(out)@ + decimal_chars(n as nat),
    decreases n,
{
    if n >= 10 {
        push_decimal(out, n / 10);
    }
    let d = (n % 10) as u8;
    let c = (48u8 + d) as char;
    out.push(c);
    proof {
        assert(out@ =~= old(out)@ + decimal_chars(n as nat));
    }
}

/// Appends the characters of `s` to `out`.
pub fn push_str(out: &mut Vec<char>, s: &str)
    ensures
        final(out)@ == old(out)@ + s@,
{
    let cs = str_chars(s);
    let mut i: usize = 0;
    while i < cs.len()
        invariant
            i <= cs@.len(),
            cs@ == s@,
            out@ == old(out)@ + cs@.take(i as int),
        decreases cs@.len() - i,
    {
        out.push(cs[i]);
        i = i + 1;
        proof {
            assert(out@ =~= old(out)@ + cs@.take(i as int));
        }
    }
    proof {
        assert(cs@.take(i as int) =~= cs@);
    }
}

/// The decimal representation of an integer, with `-` before a negative
/// one (as `{}` formats it).
pub open spec fn int_chars(v: int) -> Seq<char> {
    if v < 0 {
        seq!['-'] + decimal_chars((-v) as nat)
    } else {
        decimal_chars(v as nat)
    }
}

/// Appends the decimal representation of `v` to `out`, with `-` before a
/// negative value.
pub fn push_i8(out: &mut Vec<char>, v: i8)
    ensures
        final(out)@ == old(out)@ + int_chars(v as int),
{
    if v < 0 {
        out.push('-');
        let m: u64 = (-(v as i16)) as u64;
        push_decimal(out, m);
        assert(out@ =~= old(out)@ + int_chars(v as int));
    } else {
        push_decimal(out, v as u64);
    }
}

/// Decimal digits: each a digit, at least one, and their value is `n`.
pub proof fn lemma_decimal_chars(n: nat)
    ensures
        all_digits(decimal_chars(n)),
        decimal_chars(n).len() >= 1,
        digits_value(decimal_chars(n)) == n,
    decreases n,
{
    if n >= 10 {
        lemma_decimal_chars(n / 10);
        let d = decimal_chars(n / 10);
        let s = decimal_chars(n);
        assert(s.drop_last() =~= d);
        assert(s.last() as int == '0' as int + n % 10);
        assert(digits_value(s) == digits_value(d) * 10 + n % 10);
        assert forall|i: int| 0 <= i < s.len() implies '0' <= #[trigger] s[i] <= '9' by {
            if i < d.len() {
                assert(s[i] == d[i]);
            }
        }
    } else {
        let s = decimal_chars(n);
        assert(s.drop_last() =~= Seq::<char>::empty());
        assert(s.last() as int == '0' as int + n);
        assert(digits_value(s.drop_last()) == 0);
    }
}

/// Reading back the decimal representation of an `i8` gives it again; the
/// representation holds no comma and no whitespace.
pub proof fn lemma_int_chars_parse(v: i8)
    ensures
        parse_i8_spec(int_chars(v as int)) == Some(v),
        forall|i: int| 0 <= i < int_chars(v as int).len() ==> (#[trigger] int_chars(v as int)[i]) != ','
            && !is_whitespace(int_chars(v as int)[i]),
        int_chars(v as int).len() >= 1,
{
    let s = int_chars(v as int);
    if v < 0 {
        let m = (-(v as int)) as nat;
        lemma_decimal_chars(m);
        assert(s.drop_first() =~= decimal_chars(m));
        assert forall|i: int| 0 <= i < s.len() implies (#[trigger] s[i]) != ',' && !is_whitespace(s[i]) by {
            if i > 0 {
                assert(s[i] == decimal_chars(m)[i - 1]);
            }
        }
    } else {
        lemma_decimal_chars(v as nat);
        assert(s[0] != '-' && s[0] != '+');
    }
}

/// Text without whitespace is its own trimmed form.
pub proof fn lemma_trimmed_plain(s: Seq<char>)
    requires
        forall|i: int| 0 <= i < s.len() ==> !is_whitespace(#[trigger] s[i]),
    ensures
        trimmed(s) == s,
{
    lemma_leading_ws(s, 0);
    assert(s.skip(0) =~= s);
    lemma_trailing_ws(s, 0);
    assert(s.take(s.len() as int) =~= s);
}

proof fn lemma_split_plain(a: Seq<char>)
    requires
        forall|i: int| 0 <= i < a.len() ==> (#[trigger] a[i]) != ',',
    ensures
        split_commas(a) == seq![a],
    decreases a.len(),
{
    if a.len() > 0 {
        let d = a.drop_last();
        assert forall|i: int| 0 <= i < d.len() implies (#[trigger] d[i]) != ',' by {
            assert(d[i] == a[i]);
        }
        lemma_split_plain(d);
        assert(d.push(a.last()) =~= a);
    } else {
        assert(a =~= Seq::<char>::empty());
    }
}

proof fn lemma_split_two(a: Seq<char>, b: Seq<char>)
    requires
        forall|i: int| 0 <= i < a.len() ==> (#[trigger] a[i]) != ',',
        forall|i: int| 0 <= i < b.len() ==> (#[trigger] b[i]) != ',',
    ensures
        split_commas(a + seq![','] + b) == seq![a, b],
    decreases b.len(),
{
    if b.len() == 0 {
        lemma_split_plain(a);
        let s = a + seq![','];
        assert(s.drop_last() =~= a);
        assert(a + seq![','] + b =~= s);
        assert(b =~= Seq::<char>::empty());
        assert(split_commas(s) == split_commas(a).push(Seq::<char>::empty()));
        assert(split_commas(s) =~= seq![a, b]);
    } else {
        let d = b.drop_last();
        assert forall|i: int| 0 <= i < d.len() implies (#[trigger] d[i]) != ',' by {
            assert(d[i] == b[i]);
        }
        lemma_split_two(a, d);
        let s = a + seq![','] + b;
        assert(s.drop_last() =~= a + seq![','] + d);
        assert(s.last() == b.last());
        assert(d.push(b.last()) =~= b);
        let p = split_commas(s.drop_last());
        assert(p == seq![a, d]);
        assert(split_commas(s) == p.update(p.len() - 1, p.last().push(s.last())));
        assert(split_commas(s) =~= seq![a, b]);
    }
}

/// Two pieces without commas, joined by one comma, split back into them.
pub proof fn lemma_split_joined(a: Seq<char>, b: Seq<char>)
    requires
        forall|i: int| 0 <= i < a.len() ==> (#[trigger] a[i]) != ',',
        forall|i: int| 0 <= i < b.len() ==> (#[trigger] b[i]) != ',',
    ensures
        split_commas(a + seq![','] + b) == seq![a, b],
{
    lemma_split_two(a, b);
}

} // verus!
