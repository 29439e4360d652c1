//! Lines of text as sequences of characters: whitespace, tokens, trimming,
//! prefixes, and unsigned integers in a given radix.

use vstd::prelude::*;

verus! {

/// A whitespace character (Unicode `White_Space`, as `char::is_whitespace`).
pub open spec fn is_ws(c: char) -> bool {
    let u = c as u32;
    ||| 9 <= u <= 13
    ||| u == 32
    ||| u == 0x85
    ||| u == 0xA0
    ||| u == 0x1680
    ||| 0x2000 <= u <= 0x200A
    ||| u == 0x2028
    ||| u == 0x2029
    ||| u == 0x202F
    ||| u == 0x205F
    ||| u == 0x3000
}

/// Whether `c` is whitespace.
pub fn is_whitespace(c: char) -> (b: bool)
    ensures
        b == is_ws(c),
{
    let u = c as u32;
    (9 <= u && u <= 13) || u == 32 || u == 0x85 || u == 0xA0 || u == 0x1680 || (0x2000 <= u && u
        <= 0x200A) || u == 0x2028 || u == 0x2029 || u == 0x202F || u == 0x205F || u == 0x3000
}

/// A line made of whitespace alone (it is empty once trimmed).
pub open spec fn is_blank(s: Seq<char>) -> bool {
    forall|i: int| 0 <= i < s.len() ==> is_ws(#[trigger] s[i])
}

/// The number of characters before the first whitespace.
pub open spec fn word_len(s: Seq<char>) -> nat
    decreases s.len(),
{
    if s.len() == 0 || is_ws(s[0]) {
        0
    } else {
        1 + word_len(s.skip(1))
    }
}

/// A word is no longer than the text it starts.
pub proof fn lemma_word_len_bound(s: Seq<char>)
    ensures
        word_len(s) <= s.len(),
        s.len() > 0 && !is_ws(s[0]) ==> word_len(s) >= 1,
    decreases s.len(),
{
    if s.len() > 0 && !is_ws(s[0]) {
        lemma_word_len_bound(s.skip(1));
    }
}

/// The whitespace-separated tokens of a text, in order (as
/// `str::split_whitespace`).
pub open spec fn tokens(s: Seq<char>) -> Seq<Seq<char>>
    decreases s.len(),
{
    if s.len() == 0 {
        seq![]
    } else if is_ws(s[0]) {
        tokens(s.skip(1))
    } else {
        let w = word_len(s);
        proof {
            lemma_word_len_bound(s);
        }
        seq![s.take(w as int)] + tokens(s.skip(w as int))
    }
}

/// The text with leading whitespace removed.
pub open spec fn trim_start(s: Seq<char>) -> Seq<char>
    decreases s.len(),
{
    if s.len() > 0 && is_ws(s[0]) {
        trim_start(s.skip(1))
    } else {
        s
    }
}

/// The text with trailing whitespace removed.
pub open spec fn trim_end(s: Seq<char>) -> Seq<char>
    decreases s.len(),
{
    if s.len() > 0 && is_ws(s.last()) {
        trim_end(s.drop_last())
    } else {
        s
    }
}

/// The text with leading and trailing whitespace removed (as `str::trim`).
pub open spec fn trim(s: Seq<char>) -> Seq<char> {
    trim_end(trim_start(s))
}

/// A run of characters from `i` up to `j` that holds no whitespace and is
/// followed by whitespace or the end is a word of length `j - i`.
proof fn lemma_word_len_run(s: Seq<char>, i: int, j: int)
    requires
        0 <= i <= j <= s.len(),
        forall|t: int| i <= t < j ==> !is_ws(#[trigger] s[t]),
        j == s.len() || is_ws(s[j]),
    ensures
        word_len(s.skip(i)) == j - i,
    decreases j - i,
{
    let r = s.skip(i);
    if i < j {
        assert(r[0] == s[i]);
        assert(r.skip(1) =~= s.skip(i + 1));
        lemma_word_len_run(s, i + 1, j);
    } else if j < s.len() {
        assert(r[0] == s[j]);
    }
}

/// The tokens of a text.
pub fn split_whitespace(s: &Vec<char>) -> (r: Vec<Vec<char>>)
    ensures
        r@.map_values(|t: Vec<char>| t@) == tokens(s@),
{
    let mut out: Vec<Vec<char>> = Vec::new();
    let mut i: usize = 0;
    let n = s.len();
    assert(s@.skip(0) =~= s@);
    while i < n
        invariant
            n == s@.len(),
            i <= n,
            out@.map_values(|t: Vec<char>| t@) + tokens(s@.skip(i as int)) == tokens(s@),
        decreases n - i,
    {
        let r = Ghost(s@.skip(i as int));
        assert(r@[0] == s@[i as int]);
        if is_whitespace(s[i]) {
            assert(r@.skip(1) =~= s@.skip(i + 1));
            i = i + 1;
        } else {
            let mut w: Vec<char> = Vec::new();
            let mut j: usize = i;
            while j < n && !is_whitespace(s[j])
                invariant
                    n == s@.len(),
                    i <= j <= n,
                    w@ == s@.subrange(i as int, j as int),
                    forall|t: int| i <= t < j ==> !is_ws(#[trigger] s@[t]),
                decreases n - j,
            {
                w.push(s[j]);
                j = j + 1;
                assert(w@ =~= s@.subrange(i as int, j as int));
            }
            proof {
                lemma_word_len_run(s@, i as int, j as int);
                assert(r@.take(j - i) =~= w@);
                assert(r@.skip(j - i) =~= s@.skip(j as int));
                let old_out = out@.map_values(|t: Vec<char>| t@);
                assert(out@.push(w).map_values(|t: Vec<char>| t@) =~= old_out.push(w@));
                assert(old_out + tokens(r@) =~= old_out.push(w@) + tokens(s@.skip(j as int)));
            }
            out.push(w);
            i = j;
        }
    }
    assert(tokens(s@.skip(n as int)) =~= Seq::<Seq<char>>::empty());
    assert(out@.map_values(|t: Vec<char>| t@) + Seq::<Seq<char>>::empty() =~= out@.map_values(
        |t: Vec<char>| t@,
    ));
    out
}

/// Whether the line is whitespace alone.
pub fn line_is_blank(s: &Vec<char>) -> (b: bool)
    ensures
        b == is_blank(s@),
{
    let mut i: usize = 0;
    while i < s.len()
        invariant
            i <= s@.len(),
            forall|t: int| 0 <= t < i ==> is_ws(#[trigger] s@[t]),
        decreases s@.len() - i,
    {
        if !is_whitespace(s[i]) {
            return false;
        }
        i = i + 1;
    }
    true
}

/// Whether `s` begins with `prefix`.
pub fn starts_with(s: &Vec<char>, prefix: &Vec<char>) -> (b: bool)
    ensures
        b == prefix@.is_prefix_of(s@),
{
    if prefix.len() > s.len() {
        return false;
    }
    let mut i: usize = 0;
    while i < prefix.len()
        invariant
            prefix@.len() <= s@.len(),
            i <= prefix@.len(),
            forall|t: int| 0 <= t < i ==> prefix@[t] == s@[t],
        decreases prefix@.len() - i,
    {
        if prefix[i] != s[i] {
            assert(prefix@[i as int] != s@.subrange(0, prefix@.len() as int)[i as int]);
            return false;
        }
        i = i + 1;
    }
    assert(prefix@ =~= s@.subrange(0, prefix@.len() as int));
    true
}

/// Leading whitespace up to `a` comes off first.
proof fn lemma_trim_start_at(s: Seq<char>, a: int)
    requires
        0 <= a <= s.len(),
        forall|t: int| 0 <= t < a ==> is_ws(#[trigger] s[t]),
        a == s.len() || !is_ws(s[a]),
    ensures
        trim_start(s) == s.skip(a),
    decreases a,
{
    if a == 0 {
        assert(s.skip(0) =~= s);
    } else {
        assert(s.skip(1).skip(a - 1) =~= s.skip(a));
        assert forall|t: int| 0 <= t < a - 1 implies is_ws(#[trigger] s.skip(1)[t]) by {
            assert(s.skip(1)[t] == s[t + 1]);
        }
        if a - 1 < s.skip(1).len() {
            assert(s.skip(1)[a - 1] == s[a]);
        }
        lemma_trim_start_at(s.skip(1), a - 1);
    }
}

/// Trailing whitespace from `b` on comes off last.
proof fn lemma_trim_end_at(s: Seq<char>, b: int)
    requires
        0 <= b <= s.len(),
        forall|t: int| b <= t < s.len() ==> is_ws(#[trigger] s[t]),
        b == 0 || !is_ws(s[b - 1]),
    ensures
        trim_end(s) == s.take(b),
    decreases s.len() - b,
{
    if b == s.len() {
        assert(s.take(b) =~= s);
        if s.len() > 0 {
            assert(s.last() == s[b - 1]);
        }
    } else {
        let d = s.drop_last();
        assert(s.last() == s[s.len() - 1]);
        assert forall|t: int| b <= t < d.len() implies is_ws(#[trigger] d[t]) by {
            assert(d[t] == s[t]);
        }
        if b > 0 {
            assert(d[b - 1] == s[b - 1]);
        }
        lemma_trim_end_at(d, b);
        assert(d.take(b) =~= s.take(b));
    }
}

/// The line without leading and trailing whitespace.
pub fn trim_chars(s: &Vec<char>) -> (r: Vec<char>)
    ensures
        r@ == trim(s@),
{
    let n = s.len();
    let mut a: usize = 0;
    while a < n && is_whitespace(s[a])
        invariant
            n == s@.len(),
            a <= n,
            forall|t: int| 0 <= t < a ==> is_ws(#[trigger] s@[t]),
        decreases n - a,
    {
        a = a + 1;
    }
    proof {
        lemma_trim_start_at(s@, a as int);
    }
    let ghost m = s@.skip(a as int);
    let mut b: usize = n;
    while b > a && is_whitespace(s[b - 1])
        invariant
            n == s@.len(),
            m == s@.skip(a as int),
            a <= b <= n,
            forall|t: int| b <= t < n ==> is_ws(#[trigger] s@[t]),
        decreases b,
    {
        b = b - 1;
    }
    proof {
        assert forall|t: int| b - a <= t < m.len() implies is_ws(#[trigger] m[t]) by {
            assert(m[t] == s@[a + t]);
        }
        if b > a {
            assert(m[b - a - 1] == s@[b - 1]);
        }
        lemma_trim_end_at(m, b - a);
    }
    let mut r: Vec<char> = Vec::new();
    let mut i: usize = a;
    while i < b
        invariant
            a <= i <= b,
            b <= n,
            n == s@.len(),
            r@ == s@.subrange(a as int, i as int),
        decreases b - i,
    {
        r.push(s[i]);
        i = i + 1;
        assert(r@ =~= s@.subrange(a as int, i as int));
    }
    assert(r@ =~= m.take(b - a));
    r
}

/// The value of a digit character in any radix up to 36, or 36 for a
/// character that is no digit.
pub open spec fn digit_value(c: char) -> nat {
    let u = c as u32;
    if 48 <= u <= 57 {
        (u - 48) as nat
    } else if 97 <= u <= 122 {
        (u - 97 + 10) as nat
    } else if 65 <= u <= 90 {
        (u - 65 + 10) as nat
    } else {
        36
    }
}

/// The value of a string of digits, most significant first.
pub open spec fn digits_value(d: Seq<char>, radix: nat) -> nat
    decreases d.len(),
{
    if d.len() == 0 {
        0
    } else {
        digits_value(d.drop_last(), radix) * radix + digit_value(d.last())
    }
}

/// The digits of a token: the token without a leading `+`.
pub open spec fn unsigned_digits(tok: Seq<char>) -> Seq<char> {
    if tok.len() > 0 && tok[0] == '+' {
        tok.skip(1)
    } else {
        tok
    }
}

/// Every character is a digit below the radix.
pub open spec fn all_digits(d: Seq<char>, radix: nat) -> bool {
    forall|i: int| 0 <= i < d.len() ==> #[trigger] digit_value(d[i]) < radix
}

/// An unsigned integer in the given radix, as `from_str_radix` reads one: an
/// optional `+`, then at least one digit below the radix, with a value no
/// larger than `max`.
pub open spec fn parse_unsigned_spec(tok: Seq<char>, radix: nat, max: nat) -> Option<nat> {
    let d = unsigned_digits(tok);
    if d.len() > 0 && all_digits(d, radix) && digits_value(d, radix) <= max {
        Some(digits_value(d, radix))
    } else {
        None
    }
}

/// Value of a character as a digit (36 where it is none).
fn char_digit(c: char) -> (v: u64)
    ensures
        v == digit_value(c),
{
    let u = c as u32;
    if 48 <= u && u <= 57 {
        (u - 48) as u64
    } else if 97 <= u && u <= 122 {
        (u - 97 + 10) as u64
    } else if 65 <= u && u <= 90 {
        (u - 65 + 10) as u64
    } else {
        36
    }
}

/// More digits never give a smaller value.
proof fn lemma_digits_value_prefix(d: Seq<char>, radix: nat, k: int)
    requires
        0 <= k <= d.len(),
        radix >= 1,
    ensures
        digits_value(d.take(k), radix) <= digits_value(d, radix),
    decreases d.len() - k,
{
    if k < d.len() {
        lemma_digits_value_prefix(d, radix, k + 1);
        let t = d.take(k + 1);
        assert(t.drop_last() =~= d.take(k));
        let v = digits_value(d.take(k), radix);
        assert(v * radix >= v) by (nonlinear_arith)
            requires
                radix >= 1,
        ;
    } else {
        assert(d.take(k) =~= d);
    }
}

/// Reads an unsigned integer in radix `radix` no larger than `max`, as
/// `from_str_radix` does (`None` where it returns an error).
pub fn parse_unsigned(tok: &Vec<char>, radix: u64, max: u64) -> (r: Option<u64>)
    requires
        2 <= radix <= 36,
    ensures
        r matches Some(v) ==> parse_unsigned_spec(tok@, radix as nat, max as nat) == Some(v as nat),
        r is None ==> parse_unsigned_spec(tok@, radix as nat, max as nat) is None,
{
    let n = tok.len();
    let start: usize = if n > 0 && tok[0] == '+' {
        1
    } else {
        0
    };
    let ghost d = unsigned_digits(tok@);
    assert(d =~= tok@.skip(start as int));
    if start >= n {
        return None;
    }
    let mut acc: u64 = 0;
    let mut i: usize = start;
    assert(d.take(0) =~= Seq::<char>::empty());
    while i < n
        invariant
            start <= i <= n,
            n == tok@.len(),
            d == tok@.skip(start as int),
            d == unsigned_digits(tok@),
            2 <= radix <= 36,
            acc == digits_value(d.take(i - start), radix as nat),
            acc <= max,
            forall|t: int| 0 <= t < i - start ==> #[trigger] digit_value(d[t]) < radix,
        decreases n - i,
    {
        let v = char_digit(tok[i]);
        proof {
            let t = d.take(i - start + 1);
            assert(t.drop_last() =~= d.take(i - start));
            assert(t.last() == tok@[i as int]);
            assert(d[i - start] == tok@[i as int]);
            assert(digits_value(t, radix as nat) == acc * radix + v);
            assert(digit_value(d[i - start]) == v);
        }
        if v >= radix {
            assert(!all_digits(d, radix as nat));
            return None;
        }
        if v > max {
            proof {
                assert(acc * radix + v >= v) by (nonlinear_arith)
                    requires
                        radix >= 2,
                ;
                lemma_digits_value_prefix(d, radix as nat, i - start + 1);
                assert(digits_value(d, radix as nat) > max);
            }
            return None;
        }
        if acc > (max - v) / radix {
            proof {
                assert(acc * radix + v > max) by (nonlinear_arith)
                    requires
                        acc > (max - v) / (radix as int),
                        radix >= 2,
                        v <= max,
                ;
                lemma_digits_value_prefix(d, radix as nat, i - start + 1);
            }
            return None;
        }
        assert(acc * radix + v <= max) by (nonlinear_arith)
            requires
                acc <= (max - v) / (radix as int),
                radix >= 2,
                v <= max,
        ;
        acc = acc * radix + v;
        i = i + 1;
    }
    assert(d.take(n - start) =~= d);
    Some(acc)
}

/// The characters of a string slice, in order.
pub(crate) fn chars_of(s: &str) -> (r: Vec<char>)
    ensures
        r@ == s@,
{
    let mut out: Vec<char> = Vec::new();
    for c in it: s.chars()
        invariant
            it.seq() == s@,
            out@ == it.seq().take(it.index() as int),
    {
        out.push(c);
    }
    out
}

/// A string made of the given characters, in order (`FromIterator<&char>`
/// for `String`).
#[verifier::external_body]
pub(crate) fn string_of(v: &Vec<char>) -> (r: String)
    ensures
        r@ == v@,
{
    v.iter().collect()
}

} // verus!
