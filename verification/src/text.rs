//! Character-level text handling: building strings, splitting on a
//! separator, trimming, prefix tests, decimal digits and integer parsing.
use vstd::prelude::*;

verus! {

broadcast use vstd::seq_lib::group_seq_properties;

/// The characters of `s`, in order.
pub fn chars_of(s: &str) -> (r: Vec<char>)
    ensures
        r@ == s@,
{
    let n = s.unicode_len();
    let mut out: Vec<char> = Vec::new();
    let mut i: usize = 0;
    while i < n
        invariant
            n == s@.len(),
            i <= n,
            out@ == s@.take(i as int),
        decreases n - i,
    {
        let c = s.get_char(i);
        out.push(c);
        proof {
            assert(s@.take(i + 1) =~= s@.take(i as int).push(c));
        }
        i = i + 1;
    }
    assert(s@.take(n as int) =~= s@);
    out
}

/// Appends one character to `s` (std's `String::push`): the text becomes
/// the old text followed by `c`.
#[verifier::external_body]
fn push_char(s: &mut String, c: char)
    ensures
        final(s)@ == old(s)@.push(c),
{
    s.push(c);
}

/// Appends the characters of `chars` to `out`.
pub fn push_chars(out: &mut String, chars: &[char])
    ensures
        final(out)@ == old(out)@ + chars@,
{
    let mut i: usize = 0;
    while i < chars.len()
        invariant
            i <= chars@.len(),
            out@ == old(out)@ + chars@.take(i as int),
        decreases chars@.len() - i,
    {
        push_char(out, chars[i]);
        proof {
            assert(chars@.take(i + 1) =~= chars@.take(i as int).push(chars@[i as int]));
        }
        i = i + 1;
    }
    assert(chars@.take(chars@.len() as int) =~= chars@);
}

/// A string holding exactly `chars`.
pub fn text_of(chars: &[char]) -> (r: String)
    ensures
        r@ == chars@,
{
    let mut out = String::new();
    push_chars(&mut out, chars);
    assert(Seq::<char>::empty() + chars@ =~= chars@);
    out
}

/// `a` followed by `b`, as a new string.
pub fn concat_text(a: &str, b: &str) -> (r: String)
    ensures
        r@ == a@ + b@,
{
    let mut out = String::from_str(a);
    out.append(b);
    out
}

/// Whether `a` and `b` hold the same characters.
pub fn same_chars(a: &[char], b: &[char]) -> (r: bool)
    ensures
        r == (a@ == b@),
{
    if a.len() != b.len() {
        return false;
    }
    let mut i: usize = 0;
    while i < a.len()
        invariant
            a@.len() == b@.len(),
            i <= a@.len(),
            a@.take(i as int) == b@.take(i as int),
        decreases a@.len() - i,
    {
        if a[i] != b[i] {
            assert(a@[i as int] != b@[i as int]);
            return false;
        }
        proof {
            assert(a@.take(i + 1) =~= a@.take(i as int).push(a@[i as int]));
            assert(b@.take(i + 1) =~= b@.take(i as int).push(b@[i as int]));
        }
        i = i + 1;
    }
    assert(a@.take(a@.len() as int) =~= a@);
    assert(b@.take(b@.len() as int) =~= b@);
    true
}

/// Whether the characters of `a` are those of the string `b`.
pub fn chars_match(a: &[char], b: &str) -> (r: bool)
    ensures
        r == (a@ == b@),
{
    let bc = chars_of(b);
    same_chars(a, bc.as_slice())
}

/// Whether `s` begins with `prefix`.
pub fn starts_with_chars(s: &[char], prefix: &[char]) -> (r: bool)
    ensures
        r == prefix@.is_prefix_of(s@),
{
    if prefix.len() > s.len() {
        return false;
    }
    let mut i: usize = 0;
    while i < prefix.len()
        invariant
            prefix@.len() <= s@.len(),
            i <= prefix@.len(),
            forall|j: int| 0 <= j < i ==> prefix@[j] == s@[j],
        decreases prefix@.len() - i,
    {
        if prefix[i] != s[i] {
            return false;
        }
        i = i + 1;
    }
    true
}

/// `s` ends with `suffix`.
pub open spec fn is_suffix(suffix: Seq<char>, s: Seq<char>) -> bool {
    suffix.len() <= s.len() && s.skip(s.len() - suffix.len()) == suffix
}

/// Whether `s` ends with `suffix`.
pub fn ends_with_chars(s: &[char], suffix: &[char]) -> (r: bool)
    ensures
        r == is_suffix(suffix@, s@),
{
    if suffix.len() > s.len() {
        return false;
    }
    let n = s.len();
    let off = n - suffix.len();
    let mut i: usize = 0;
    while i < suffix.len()
        invariant
            suffix@.len() <= s@.len(),
            n == s@.len(),
            off == n - suffix@.len(),
            i <= suffix@.len(),
            forall|j: int| 0 <= j < i ==> suffix@[j] == s@[off + j],
        decreases suffix@.len() - i,
    {
        if suffix[i] != s[off + i] {
            assert(s@.skip(off as int)[i as int] != suffix@[i as int]);
            return false;
        }
        i = i + 1;
    }
    assert(s@.skip(off as int) =~= suffix@);
    true
}

/// Where the text after the last `sep` begins: one past the last `sep`, or
/// zero when there is none.
pub open spec fn segment_start(s: Seq<char>, sep: char) -> nat
    decreases s.len(),
{
    if s.len() == 0 {
        0
    } else if s.last() == sep {
        s.len()
    } else {
        segment_start(s.drop_last(), sep)
    }
}

/// The text after the last `sep` (all of `s` when it holds none): the first
/// piece that `rsplit(sep)` yields.
pub open spec fn last_segment(s: Seq<char>, sep: char) -> Seq<char> {
    s.skip(segment_start(s, sep) as int)
}

/// Where the last piece starts: after a separator, with no separator past it.
pub proof fn lemma_segment_start(s: Seq<char>, sep: char)
    ensures
        segment_start(s, sep) <= s.len(),
        segment_start(s, sep) > 0 ==> s[segment_start(s, sep) - 1] == sep,
        forall|j: int| segment_start(s, sep) <= j < s.len() ==> s[j] != sep,
    decreases s.len(),
{
    if s.len() > 0 && s.last() != sep {
        let p = s.drop_last();
        lemma_segment_start(p, sep);
        assert forall|j: int| segment_start(s, sep) <= j < s.len() implies s[j] != sep by {
            if j < p.len() {
                assert(s[j] == p[j]);
            }
        }
    }
}

/// Index where the last `sep`-separated piece of `s` begins.
pub fn find_segment_start(s: &[char], sep: char) -> (r: usize)
    ensures
        r == segment_start(s@, sep),
{
    let mut k: usize = s.len();
    while k > 0
        invariant
            k <= s@.len(),
            segment_start(s@, sep) == segment_start(s@.take(k as int), sep),
        decreases k,
    {
        proof {
            assert(s@.take(k as int).drop_last() =~= s@.take(k - 1));
        }
        if s[k - 1] == sep {
            return k;
        }
        k = k - 1;
    }
    k
}

/// The pieces of `s` between occurrences of `sep`, as `split(sep)` yields
/// them (always at least one piece).
pub open spec fn split_fields(s: Seq<char>, sep: char) -> Seq<Seq<char>>
    decreases s.len(),
{
    let st = segment_start(s, sep);
    if st == 0 {
        seq![s]
    } else {
        proof {
            lemma_segment_start(s, sep);
        }
        split_fields(s.take(st - 1), sep).push(s.skip(st as int))
    }
}

proof fn lemma_split_push(s: Seq<char>, sep: char, c: char)
    ensures
        split_fields(s.push(c), sep) == if c == sep {
            split_fields(s, sep).push(Seq::empty())
        } else {
            let f = split_fields(s, sep);
            f.update(f.len() - 1, f.last().push(c))
        },
        split_fields(s, sep).len() >= 1,
    decreases s.len(),
{
    let t = s.push(c);
    assert(t.drop_last() =~= s);
    lemma_segment_start(s, sep);
    if c == sep {
        assert(t.take(s.len() as int) =~= s);
        assert(t.skip(t.len() as int) =~= Seq::<char>::empty());
    } else {
        let st = segment_start(s, sep);
        assert(segment_start(t, sep) == st);
        if st == 0 {
            assert(t.skip(0) =~= t);
            assert(s.skip(0) =~= s);
        } else {
            assert(t.take(st - 1) =~= s.take(st - 1));
            assert(t.skip(st as int) =~= s.skip(st as int).push(c));
        }
    }
}

/// Text without `sep` splits into itself alone.
pub proof fn lemma_split_without_sep(s: Seq<char>, sep: char)
    requires
        forall|i: int| 0 <= i < s.len() ==> s[i] != sep,
    ensures
        split_fields(s, sep) == seq![s],
{
    lemma_segment_start(s, sep);
}

/// Text that neither starts nor ends with white space is its own trim.
pub proof fn lemma_trim_untouched(s: Seq<char>)
    requires
        s.len() > 0,
        !is_white_space(s[0]),
        !is_white_space(s.last()),
    ensures
        trim_space(s) == s,
{
    assert(leading_space(s) == 0);
    assert(s.skip(0) =~= s);
    assert(trailing_space(s) == 0);
    assert(s.take(s.len() as int) =~= s);
}

/// Splitting always yields at least one piece.
pub proof fn lemma_split_nonempty(s: Seq<char>, sep: char)
    ensures
        split_fields(s, sep).len() >= 1,
    decreases s.len(),
{
    let st = segment_start(s, sep);
    if st > 0 {
        lemma_segment_start(s, sep);
    }
}

/// Splits `s` on `sep` (see `split_fields`).
pub fn split_on(s: &[char], sep: char) -> (r: Vec<Vec<char>>)
    ensures
        r@.map_values(|f: Vec<char>| f@) == split_fields(s@, sep),
{
    let mut fields: Vec<Vec<char>> = Vec::new();
    let mut current: Vec<char> = Vec::new();
    let mut i: usize = 0;
    proof {
        assert(s@.take(0) =~= Seq::<char>::empty());
        assert(segment_start(Seq::<char>::empty(), sep) == 0);
    }
    while i < s.len()
        invariant
            i <= s@.len(),
            fields@.map_values(|f: Vec<char>| f@).push(current@) == split_fields(s@.take(i as int), sep),
        decreases s@.len() - i,
    {
        let c = s[i];
        proof {
            lemma_split_push(s@.take(i as int), sep, c);
            assert(s@.take(i + 1) =~= s@.take(i as int).push(c));
        }
        let ghost before = fields@.map_values(|f: Vec<char>| f@);
        let ghost cur = current@;
        if c == sep {
            let done = current;
            fields.push(done);
            current = Vec::new();
            proof {
                assert(fields@.map_values(|f: Vec<char>| f@) =~= before.push(cur));
                assert(fields@.map_values(|f: Vec<char>| f@).push(current@) =~= before.push(cur).push(
                    Seq::<char>::empty(),
                ));
            }
        } else {
            current.push(c);
            proof {
                let f = before.push(cur);
                assert(before.push(current@) =~= f.update(f.len() - 1, f.last().push(c)));
            }
        }
        i = i + 1;
    }
    assert(s@.take(s@.len() as int) =~= s@);
    let ghost before = fields@.map_values(|f: Vec<char>| f@);
    fields.push(current);
    assert(fields@.map_values(|f: Vec<char>| f@) =~= before.push(current@));
    fields
}

/// `s` without the trailing characters equal to `c`.
pub open spec fn trim_end_char(s: Seq<char>, c: char) -> Seq<char>
    decreases s.len(),
{
    if s.len() > 0 && s.last() == c {
        trim_end_char(s.drop_last(), c)
    } else {
        s
    }
}

/// Length of `s` once the trailing characters equal to `c` are removed.
pub fn trim_end_len(s: &[char], c: char) -> (r: usize)
    ensures
        r <= s@.len(),
        s@.take(r as int) == trim_end_char(s@, c),
{
    let mut k: usize = s.len();
    assert(s@.take(k as int) =~= s@);
    while k > 0 && s[k - 1] == c
        invariant
            k <= s@.len(),
            trim_end_char(s@, c) == trim_end_char(s@.take(k as int), c),
        decreases k,
    {
        assert(s@.take(k as int).drop_last() =~= s@.take(k - 1));
        k = k - 1;
    }
    k
}

/// Unicode `White_Space` characters, the ones that `str::trim` removes.
pub open spec fn is_white_space(c: char) -> bool {
    let u = c as u32;
    (0x9 <= u <= 0xD) || u == 0x20 || u == 0x85 || u == 0xA0 || u == 0x1680 || (0x2000 <= u
        <= 0x200A) || u == 0x2028 || u == 0x2029 || u == 0x202F || u == 0x205F || u == 0x3000
}

/// Whether `c` is Unicode white space (see `is_white_space`).
pub fn white_space(c: char) -> (r: bool)
    ensures
        r == is_white_space(c),
{
    let u = c as u32;
    (0x9 <= u && u <= 0xD) || u == 0x20 || u == 0x85 || u == 0xA0 || u == 0x1680 || (0x2000 <= u
        && u <= 0x200A) || u == 0x2028 || u == 0x2029 || u == 0x202F || u == 0x205F || u == 0x3000
}

/// Number of leading white-space characters of `s`.
pub open spec fn leading_space(s: Seq<char>) -> nat
    decreases s.len(),
{
    if s.len() > 0 && is_white_space(s[0]) {
        1 + leading_space(s.drop_first())
    } else {
        0
    }
}

/// Number of trailing white-space characters of `s`.
pub open spec fn trailing_space(s: Seq<char>) -> nat
    decreases s.len(),
{
    if s.len() > 0 && is_white_space(s.last()) {
        1 + trailing_space(s.drop_last())
    } else {
        0
    }
}

/// `s` without its leading and trailing white space, as `str::trim` gives it.
pub open spec fn trim_space(s: Seq<char>) -> Seq<char> {
    let head = s.skip(leading_space(s) as int);
    head.take(head.len() - trailing_space(head))
}

proof fn lemma_leading_space(s: Seq<char>, k: int)
    requires
        0 <= k <= s.len(),
        forall|j: int| 0 <= j < k ==> is_white_space(#[trigger] s[j]),
    ensures
        leading_space(s) == k + leading_space(s.skip(k)),
    decreases k,
{
    if k > 0 {
        assert(s.drop_first().skip(k - 1) =~= s.skip(k));
        lemma_leading_space(s.drop_first(), k - 1);
    } else {
        assert(s.skip(0) =~= s);
    }
}

proof fn lemma_trailing_space(s: Seq<char>, k: int)
    requires
        0 <= k <= s.len(),
        forall|j: int| k <= j < s.len() ==> is_white_space(#[trigger] s[j]),
    ensures
        trailing_space(s) == (s.len() - k) + trailing_space(s.take(k)),
    decreases s.len() - k,
{
    if k < s.len() {
        assert(s.drop_last().take(k) =~= s.take(k));
        lemma_trailing_space(s.drop_last(), k);
    } else {
        assert(s.take(k) =~= s);
    }
}

/// `s` with leading and trailing white space removed (see `trim_space`).
pub fn trim_chars(s: &[char]) -> (r: Vec<char>)
    ensures
        r@ == trim_space(s@),
{
    let n = s.len();
    let mut a: usize = 0;
    while a < n && white_space(s[a])
        invariant
            a <= n,
            n == s@.len(),
            forall|j: int| 0 <= j < a ==> is_white_space(#[trigger] s@[j]),
        decreases n - a,
    {
        a = a + 1;
    }
    proof {
        lemma_leading_space(s@, a as int);
        if a < n {
            assert(s@.skip(a as int)[0] == s@[a as int]);
        }
    }
    let ghost head = s@.skip(a as int);
    assert(leading_space(s@) == a);
    let mut b: usize = n;
    while b > a && white_space(s[b - 1])
        invariant
            a <= b <= n,
            n == s@.len(),
            head == s@.skip(a as int),
            forall|j: int| b <= j < n ==> is_white_space(#[trigger] s@[j]),
        decreases b - a,
    {
        b = b - 1;
    }
    proof {
        assert forall|j: int| b - a <= j < head.len() implies is_white_space(#[trigger] head[j]) by {
            assert(head[j] == s@[a + j]);
        }
        lemma_trailing_space(head, b - a);
        if b > a {
            assert(head.take(b - a).last() == s@[b - 1]);
        }
    }
    let mut out: Vec<char> = Vec::new();
    let mut i: usize = a;
    while i < b
        invariant
            a <= i <= b <= n,
            n == s@.len(),
            out@ == s@.subrange(a as int, i as int),
        decreases b - i,
    {
        out.push(s[i]);
        assert(s@.subrange(a as int, i + 1) =~= s@.subrange(a as int, i as int).push(s@[i as int]));
        i = i + 1;
    }
    assert(s@.subrange(a as int, b as int) =~= head.take(head.len() - trailing_space(head)));
    out
}

/// Whether `c` is an ASCII decimal digit.
pub open spec fn is_digit(c: char) -> bool {
    48 <= c as u32 <= 57
}

/// The value of the ASCII digit `c`.
pub open spec fn digit_value(c: char) -> int {
    c as u32 - 48
}

/// Whether every character of `s` is an ASCII digit.
pub open spec fn all_digits(s: Seq<char>) -> bool {
    forall|i: int| 0 <= i < s.len() ==> is_digit(#[trigger] s[i])
}

/// The decimal value of the digits `s` (most significant first).
pub open spec fn digits_value(s: Seq<char>) -> int
    decreases s.len(),
{
    if s.len() == 0 {
        0
    } else {
        digits_value(s.drop_last()) * 10 + digit_value(s.last())
    }
}

/// `s` read as a signed 64-bit decimal integer the way `str::parse::<i64>`
/// reads it: an optional `+` or `-`, then one or more ASCII digits, and a
/// value in range; anything else is `None`.
pub open spec fn spec_parse_i64(s: Seq<char>) -> Option<i64> {
    let neg = s.len() > 0 && s[0] == '-';
    let body = if s.len() > 0 && (s[0] == '-' || s[0] == '+') {
        s.drop_first()
    } else {
        s
    };
    if body.len() == 0 || !all_digits(body) {
        None
    } else {
        let v = if neg {
            -digits_value(body)
        } else {
            digits_value(body)
        };
        if i64::MIN <= v <= i64::MAX {
            Some(v as i64)
        } else {
            None
        }
    }
}

proof fn lemma_digits_grow(s: Seq<char>, k: int)
    requires
        all_digits(s),
        0 <= k <= s.len(),
    ensures
        0 <= digits_value(s.take(k)) <= digits_value(s),
    decreases s.len(),
{
    if k < s.len() {
        let p = s.drop_last();
        assert(p.take(k) =~= s.take(k));
        assert(all_digits(p)) by {
            assert forall|i: int| 0 <= i < p.len() implies is_digit(#[trigger] p[i]) by {
                assert(p[i] == s[i]);
            }
        }
        lemma_digits_grow(p, k);
        lemma_digits_grow(p, p.len() as int);
        assert(p.take(p.len() as int) =~= p);
        assert(is_digit(s[s.len() - 1]));
    } else {
        assert(s.take(k) =~= s);
        if s.len() > 0 {
            let p = s.drop_last();
            assert(all_digits(p)) by {
                assert forall|i: int| 0 <= i < p.len() implies is_digit(#[trigger] p[i]) by {
                    assert(p[i] == s[i]);
                }
            }
            lemma_digits_grow(p, p.len() as int);
            assert(p.take(p.len() as int) =~= p);
            assert(is_digit(s[s.len() - 1]));
        }
    }
}

/// Parses `s[from..]` as a signed 64-bit integer (see `spec_parse_i64`).
pub fn parse_i64_from(s: &[char], from: usize) -> (r: Option<i64>)
    requires
        from <= s@.len(),
    ensures
        r == spec_parse_i64(s@.skip(from as int)),
{
    let ghost t = s@.skip(from as int);
    let n = s.len();
    if from == n {
        return None;
    }
    let mut i = from;
    let neg = s[i] == '-';
    if s[i] == '-' || s[i] == '+' {
        i = i + 1;
    }
    let start = i;
    let ghost body = s@.skip(start as int);
    assert(body =~= if t.len() > 0 && (t[0] == '-' || t[0] == '+') { t.drop_first() } else { t });
    if start == n {
        return None;
    }
    let mut acc: u128 = 0;
    while i < n
        invariant
            start <= i <= n,
            n == s@.len(),
            start < n,
            t == s@.skip(from as int),
            neg == (t.len() > 0 && t[0] == '-'),
            body == s@.skip(start as int),
            body == (if t.len() > 0 && (t[0] == '-' || t[0] == '+') {
                t.drop_first()
            } else {
                t
            }),
            all_digits(body.take(i - start)),
            acc == digits_value(body.take(i - start)),
            acc <= 0x8000_0000_0000_0000,
        decreases n - i,
    {
        let c = s[i];
        let u = c as u32;
        assert(body[i - start] == c);
        if u < 48 || u > 57 {
            assert(!all_digits(body));
            return None;
        }
        let ghost pre = body.take(i - start);
        let ghost next = body.take(i - start + 1);
        proof {
            assert(next.drop_last() =~= pre);
            assert(next.last() == c);
            assert(all_digits(next)) by {
                assert forall|j: int| 0 <= j < next.len() implies is_digit(#[trigger] next[j]) by {
                    if j < pre.len() {
                        assert(next[j] == pre[j]);
                    }
                }
            }
        }
        acc = acc * 10 + (u - 48) as u128;
        if acc > 0x8000_0000_0000_0000 {
            proof {
                if all_digits(body) {
                    lemma_digits_grow(body, i - start + 1);
                }
            }
            return None;
        }
        i = i + 1;
    }
    assert(body.take(n - start) =~= body);
    let v: i128 = if neg { -(acc as i128) } else { acc as i128 };
    if v < -0x8000_0000_0000_0000 || v > 0x7fff_ffff_ffff_ffff {
        None
    } else {
        Some(v as i64)
    }
}

/// The ASCII digit character for `d`, which is below ten.
pub open spec fn digit_char(d: int) -> char {
    (d + 48) as char
}

/// The decimal digits of `n`, most significant first, with no leading zero.
pub open spec fn decimal_text(n: nat) -> Seq<char>
    decreases n,
{
    if n < 10 {
        seq![digit_char(n as int)]
    } else {
        decimal_text(n / 10).push(digit_char((n % 10) as int))
    }
}

/// `decimal_text(n)` left-padded with zeros to at least `width` characters.
pub open spec fn zero_padded(n: nat, width: nat) -> Seq<char> {
    let d = decimal_text(n);
    if d.len() >= width {
        d
    } else {
        Seq::new((width - d.len()) as nat, |i: int| '0') + d
    }
}

fn digit(d: u64) -> (c: char)
    requires
        d < 10,
    ensures
        c == digit_char(d as int),
{
    let b: u8 = 48 + d as u8;
    b as char
}

/// The decimal digits of `n` (see `decimal_text`).
pub fn decimal_chars(n: u64) -> (r: Vec<char>)
    ensures
        r@ == decimal_text(n as nat),
    decreases n,
{
    if n < 10 {
        let mut v: Vec<char> = Vec::new();
        v.push(digit(n));
        assert(v@ =~= seq![digit_char(n as int)]);
        v
    } else {
        let mut v = decimal_chars(n / 10);
        v.push(digit(n % 10));
        v
    }
}

/// The decimal digits of `n` left-padded with zeros to `width` (see
/// `zero_padded`).
pub fn zero_padded_chars(n: u64, width: usize) -> (r: Vec<char>)
    ensures
        r@ == zero_padded(n as nat, width as nat),
{
    let d = decimal_chars(n);
    if d.len() >= width {
        return d;
    }
    let mut out: Vec<char> = Vec::new();
    let pad = width - d.len();
    let mut i: usize = 0;
    while i < pad
        invariant
            i <= pad,
            out@ == Seq::new(i as nat, |j: int| '0'),
        decreases pad - i,
    {
        out.push('0');
        assert(out@ =~= Seq::new((i + 1) as nat, |j: int| '0'));
        i = i + 1;
    }
    let mut k: usize = 0;
    let ghost zeros = out@;
    while k < d.len()
        invariant
            k <= d@.len(),
            zeros == Seq::new(pad as nat, |j: int| '0'),
            out@ == zeros + d@.take(k as int),
        decreases d@.len() - k,
    {
        out.push(d[k]);
        assert(d@.take(k + 1) =~= d@.take(k as int).push(d@[k as int]));
        k = k + 1;
    }
    assert(d@.take(d@.len() as int) =~= d@);
    out
}

/// The decimal digits of `n` are ASCII digits worth `n`.
pub proof fn lemma_decimal_text(n: nat)
    ensures
        decimal_text(n).len() > 0,
        all_digits(decimal_text(n)),
        digits_value(decimal_text(n)) == n,
    decreases n,
{
    let t = decimal_text(n);
    assert(digit_value(digit_char((n % 10) as int)) == n % 10);
    if n < 10 {
        assert(t[0] == digit_char(n as int));
        assert(t.drop_last() =~= Seq::<char>::empty());
        assert(digits_value(t.drop_last()) == 0);
        assert(t.last() == digit_char(n as int));
        assert(n % 10 == n);
        assert(digits_value(t) == digits_value(t.drop_last()) * 10 + digit_value(t.last()));
    } else {
        lemma_decimal_text(n / 10);
        let p = decimal_text(n / 10);
        assert(t.drop_last() =~= p);
        assert(t.last() == digit_char((n % 10) as int));
        assert forall|i: int| 0 <= i < t.len() implies is_digit(#[trigger] t[i]) by {
            if i < p.len() {
                assert(t[i] == p[i]);
            }
        }
        assert((n / 10) * 10 + n % 10 == n);
        assert(digits_value(t) == digits_value(t.drop_last()) * 10 + digit_value(t.last()));
    }
}

/// The piece after the last `sep` of `s + sep + t` is `t` when `t` holds
/// no `sep`.
pub proof fn lemma_last_segment_after(s: Seq<char>, sep: char, t: Seq<char>)
    requires
        forall|i: int| 0 <= i < t.len() ==> t[i] != sep,
    ensures
        last_segment(s + seq![sep] + t, sep) == t,
    decreases t.len(),
{
    let whole = s + seq![sep] + t;
    if t.len() == 0 {
        assert(whole =~= s.push(sep));
        assert(whole.skip(whole.len() as int) =~= t);
    } else {
        let shorter = s + seq![sep] + t.drop_last();
        lemma_last_segment_after(s, sep, t.drop_last());
        assert(whole.drop_last() =~= shorter);
        assert(whole.last() == t.last());
        assert(segment_start(whole, sep) == segment_start(shorter, sep));
        lemma_segment_start(shorter, sep);
        assert(shorter.skip(segment_start(shorter, sep) as int) == t.drop_last());
        assert(segment_start(shorter, sep) == s.len() + 1) by {
            assert(shorter.skip(segment_start(shorter, sep) as int).len() == t.len() - 1);
        }
        assert(whole.skip(s.len() + 1 as int) =~= t);
    }
}

/// Appending a separator and a piece without separators to `s` adds that
/// piece to the pieces of `s`.
pub proof fn lemma_split_append_piece(s: Seq<char>, sep: char, t: Seq<char>)
    requires
        forall|i: int| 0 <= i < t.len() ==> t[i] != sep,
    ensures
        split_fields(s + seq![sep] + t, sep) == split_fields(s, sep).push(t),
{
    let whole = s + seq![sep] + t;
    lemma_segment_start(whole, sep);
    let st = segment_start(whole, sep);
    assert(whole[s.len() as int] == sep);
    assert(st >= s.len() + 1) by {
        if st <= s.len() {
            assert(whole[s.len() as int] != sep);
        }
    }
    assert(st == s.len() + 1) by {
        if st > s.len() + 1 {
            assert(whole[st - 1] == t[st - 1 - s.len() - 1]);
        }
    }
    assert(whole.take(st - 1) =~= s);
    assert(whole.skip(st as int) =~= t);
}

} // verus!
