//! Reading free text character by character: trimming, splitting, matching
//! without regard to case, and decimal integers.

use vstd::prelude::*;

verus! {

/// Whether `c` carries the Unicode `White_Space` property.
pub open spec fn is_space(c: char) -> bool {
    let u = c as u32;
    ||| 0x09 <= u <= 0x0D
    ||| u == 0x20
    ||| u == 0x85
    ||| u == 0xA0
    ||| u == 0x1680
    ||| 0x2000 <= u <= 0x200A
    ||| u == 0x2028
    ||| u == 0x2029
    ||| u == 0x202F
    ||| u == 0x205F
    ||| u == 0x3000
}

/// Number of leading white-space characters of `s`.
pub open spec fn leading_spaces(s: Seq<char>) -> nat
    decreases s.len(),
{
    if s.len() > 0 && is_space(s[0]) {
        1 + leading_spaces(s.drop_first())
    } else {
        0
    }
}

/// Number of trailing white-space characters of `s`.
pub open spec fn trailing_spaces(s: Seq<char>) -> nat
    decreases s.len(),
{
    if s.len() > 0 && is_space(s.last()) {
        1 + trailing_spaces(s.drop_last())
    } else {
        0
    }
}

/// `s` without its leading and trailing white space.
pub open spec fn trimmed(s: Seq<char>) -> Seq<char> {
    let front = s.skip(leading_spaces(s) as int);
    front.take(front.len() - trailing_spaces(front))
}

/// Whether `c` is `upper` or the lowercase form of the ASCII capital `upper`.
pub open spec fn same_letter(c: char, upper: char) -> bool {
    c == upper || ('A' <= upper <= 'Z' && c as u32 == upper as u32 + 32)
}

/// Whether `s` spells `name` when ASCII case is disregarded.
pub open spec fn spells(s: Seq<char>, name: Seq<char>) -> bool {
    s.len() == name.len() && forall|i: int| 0 <= i < s.len() ==> same_letter(#[trigger] s[i], name[i])
}

/// Tests the Unicode `White_Space` property.
pub fn is_whitespace(c: char) -> (r: bool)
    ensures
        r == is_space(c),
{
    let u: u32 = c as u32;
    (0x09 <= u && u <= 0x0D) || u == 0x20 || u == 0x85 || u == 0xA0 || u == 0x1680 || (0x2000 <= u
        && u <= 0x200A) || u == 0x2028 || u == 0x2029 || u == 0x202F || u == 0x205F || u == 0x3000
}

/// A prefix of white space that ends at the text's end or before a visible
/// character is the whole leading white space.
pub proof fn lemma_leading_spaces_is(s: Seq<char>, k: int)
    requires
        0 <= k <= s.len(),
        forall|i: int| 0 <= i < k ==> is_space(#[trigger] s[i]),
        k < s.len() ==> !is_space(s[k]),
    ensures
        leading_spaces(s) == k,
    decreases s.len(),
{
    if k > 0 {
        let t = s.drop_first();
        assert forall|i: int| 0 <= i < k - 1 implies is_space(#[trigger] t[i]) by {
            assert(t[i] == s[i + 1]);
        }
        lemma_leading_spaces_is(t, k - 1);
    }
}

/// A suffix of white space that starts at the text's start or after a visible
/// character is the whole trailing white space.
pub proof fn lemma_trailing_spaces_is(s: Seq<char>, k: int)
    requires
        0 <= k <= s.len(),
        forall|i: int| s.len() - k <= i < s.len() ==> is_space(#[trigger] s[i]),
        k < s.len() ==> !is_space(s[s.len() - k - 1]),
    ensures
        trailing_spaces(s) == k,
    decreases s.len(),
{
    if k > 0 {
        let t = s.drop_last();
        assert forall|i: int| t.len() - (k - 1) <= i < t.len() implies is_space(#[trigger] t[i]) by {
            assert(t[i] == s[i]);
        }
        lemma_trailing_spaces_is(t, k - 1);
    }
}

/// Two characters are equal exactly when their code points are.
pub proof fn lemma_code_points(a: char, b: char)
    ensures
        (a as u32 == b as u32) == (a == b),
        (0x41 <= b as u32 <= 0x5A) == ('A' <= b <= 'Z'),
{
}

/// Bounds of `v[lo..hi]` once its leading and trailing white space is dropped.
pub(crate) fn trim_span(v: &Vec<char>, lo: usize, hi: usize) -> (r: (usize, usize))
    requires
        lo <= hi <= v.len(),
    ensures
        lo <= r.0 <= r.1 <= hi,
        v@.subrange(r.0 as int, r.1 as int) == trimmed(v@.subrange(lo as int, hi as int)),
{
    let ghost s = v@.subrange(lo as int, hi as int);
    let mut a: usize = lo;
    while a < hi && is_whitespace(v[a])
        invariant
            lo <= a <= hi <= v.len(),
            s == v@.subrange(lo as int, hi as int),
            forall|i: int| 0 <= i < a - lo ==> is_space(#[trigger] s[i]),
        decreases hi - a,
    {
        a += 1;
    }
    proof {
        lemma_leading_spaces_is(s, a - lo);
    }
    let ghost front = s.skip(a - lo);
    let mut b: usize = hi;
    while b > a && is_whitespace(v[b - 1])
        invariant
            lo <= a <= b <= hi <= v.len(),
            s == v@.subrange(lo as int, hi as int),
            front == s.skip(a - lo),
            forall|i: int| b - a <= i < front.len() ==> is_space(#[trigger] front[i]),
        decreases b - a,
    {
        b -= 1;
    }
    proof {
        lemma_trailing_spaces_is(front, hi - b);
        assert(v@.subrange(a as int, b as int) =~= front.take(front.len() - (hi - b)));
    }
    (a, b)
}

/// Whether `v[a..b]` spells `name` when ASCII case is disregarded.
pub(crate) fn spells_span(v: &Vec<char>, a: usize, b: usize, name: &str) -> (r: bool)
    requires
        a <= b <= v.len(),
    ensures
        r == spells(v@.subrange(a as int, b as int), name@),
{
    let n: usize = name.unicode_len();
    if b - a != n {
        return false;
    }
    let ghost s = v@.subrange(a as int, b as int);
    let mut i: usize = 0;
    while i < n
        invariant
            a <= b <= v.len(),
            n == b - a,
            n == name@.len(),
            i <= n,
            s == v@.subrange(a as int, b as int),
            forall|j: int| 0 <= j < i ==> same_letter(#[trigger] s[j], name@[j]),
        decreases n - i,
    {
        let letter: char = v[a + i];
        let upper: char = name.get_char(i);
        let c: u32 = letter as u32;
        let u: u32 = upper as u32;
        let same: bool = c == u || (0x41 <= u && u <= 0x5A && c == u + 32);
        assert(s[i as int] == letter);
        assert('A' as u32 == 0x41 && 'Z' as u32 == 0x5A);
        proof {
            lemma_code_points(letter, upper);
        }
        assert(same == same_letter(letter, upper));
        if !same {
            return false;
        }
        i += 1;
    }
    true
}

/// Copies the characters of `s` into a vector.
pub fn chars_of(s: &str) -> (v: Vec<char>)
    ensures
        v@ == s@,
{
    let mut v: Vec<char> = Vec::new();
    for c in it: s.chars()
        invariant
            it.seq() == s@,
            v@ == s@.take(it.index() as int),
    {
        v.push(c);
    }
    v
}

/// The texts that the strings `v` hold.
pub open spec fn texts(v: Seq<String>) -> Seq<Seq<char>> {
    Seq::new(v.len(), |i: int| v[i]@)
}

/// Offset of the first `c` in `s`, or `s.len()` where it has none.
pub open spec fn first_of(s: Seq<char>, c: char) -> int
    decreases s.len(),
{
    if s.len() == 0 || s[0] == c {
        0
    } else {
        1 + first_of(s.drop_first(), c)
    }
}

/// The pieces of `s` between its occurrences of `c`: one more piece than
/// occurrences.
pub open spec fn split_on(s: Seq<char>, c: char) -> Seq<Seq<char>>
    decreases s.len(),
{
    let i = first_of(s, c);
    if 0 <= i < s.len() {
        seq![s.take(i)] + split_on(s.skip(i + 1), c)
    } else {
        seq![s]
    }
}

/// A prefix free of `c` that ends at the text's end or at a `c` reaches the
/// first `c`.
pub proof fn lemma_first_of_is(s: Seq<char>, c: char, k: int)
    requires
        0 <= k <= s.len(),
        forall|i: int| 0 <= i < k ==> #[trigger] s[i] != c,
        k < s.len() ==> s[k] == c,
    ensures
        first_of(s, c) == k,
    decreases s.len(),
{
    if k > 0 {
        let t = s.drop_first();
        assert forall|i: int| 0 <= i < k - 1 implies #[trigger] t[i] != c by {
            assert(t[i] == s[i + 1]);
        }
        lemma_first_of_is(t, c, k - 1);
    }
}

/// Whether `spans` bound, in order, the pieces of `s` between its
/// occurrences of `c`.
pub open spec fn bounds_pieces(spans: Seq<(usize, usize)>, s: Seq<char>, c: char) -> bool {
    &&& spans.len() == split_on(s, c).len()
    &&& forall|i: int|
        0 <= i < spans.len() ==> {
            &&& (#[trigger] spans[i]).0 <= spans[i].1 <= s.len()
            &&& s.subrange(spans[i].0 as int, spans[i].1 as int) == split_on(s, c)[i]
        }
}

/// The bounds of the pieces of `v` between its occurrences of `c`.
pub(crate) fn split_spans(v: &Vec<char>, c: char) -> (spans: Vec<(usize, usize)>)
    ensures
        bounds_pieces(spans@, v@, c),
{
    let n: usize = v.len();
    let mut spans: Vec<(usize, usize)> = Vec::new();
    let ghost mut done: Seq<Seq<char>> = Seq::empty();
    let mut start: usize = 0;
    let mut finished: bool = false;
    proof {
        assert(v@.skip(0) =~= v@);
        assert(done + split_on(v@, c) =~= split_on(v@, c));
    }
    while !finished
        invariant
            n == v.len(),
            start <= n,
            !finished ==> split_on(v@, c) == done + split_on(v@.skip(start as int), c),
            finished ==> split_on(v@, c) == done,
            spans.len() == done.len(),
            forall|i: int|
                0 <= i < spans.len() ==> {
                    &&& (#[trigger] spans@[i]).0 <= spans@[i].1 <= n
                    &&& v@.subrange(spans@[i].0 as int, spans@[i].1 as int) == done[i]
                },
        decreases
                (if finished {
                    0int
                } else {
                    1int
                }),
                n - start,
    {
        let mut end: usize = start;
        while end < n && v[end] != c
            invariant
                start <= end <= n,
                n == v.len(),
                forall|i: int| start <= i < end ==> v@[i] != c,
            decreases n - end,
        {
            end += 1;
        }
        let ghost rest = v@.skip(start as int);
        let ghost piece = v@.subrange(start as int, end as int);
        proof {
            lemma_first_of_is(rest, c, end - start);
            if end < n {
                assert(rest.take(end - start) =~= piece);
                assert(rest.skip(end - start + 1) =~= v@.skip(end + 1));
                assert(done + (seq![piece] + split_on(v@.skip(end + 1), c)) =~= done.push(piece)
                    + split_on(v@.skip(end + 1), c));
            } else {
                assert(rest =~= piece);
                assert(done + seq![piece] =~= done.push(piece));
            }
            done = done.push(piece);
        }
        spans.push((start, end));
        if end < n {
            start = end + 1;
        } else {
            finished = true;
        }
    }
    spans
}

/// Whether `c` is one of the ten ASCII digits.
pub open spec fn is_digit(c: char) -> bool {
    '0' <= c <= '9'
}

/// Whether `s` holds ASCII digits only.
pub open spec fn all_digits(s: Seq<char>) -> bool {
    forall|i: int| 0 <= i < s.len() ==> is_digit(#[trigger] s[i])
}

/// The number that the decimal digits `s` write; zero for no digits.
pub open spec fn digits_value(s: Seq<char>) -> int
    decreases s.len(),
{
    if s.len() == 0 {
        0
    } else {
        10 * digits_value(s.drop_last()) + (s.last() as u32 - '0' as u32)
    }
}

/// The digits of a decimal number, without its sign.
pub open spec fn unsigned_part(s: Seq<char>) -> Seq<char> {
    if s.len() > 0 && (s[0] == '-' || s[0] == '+') {
        s.drop_first()
    } else {
        s
    }
}

/// The 32-bit integer that `s` writes in decimal, if it writes one: an
/// optional sign, then at least one ASCII digit and nothing else, with a
/// value that fits.
pub open spec fn parse_int(s: Seq<char>) -> Option<i32> {
    let body = unsigned_part(s);
    let value = if s.len() > 0 && s[0] == '-' {
        -digits_value(body)
    } else {
        digits_value(body)
    };
    if body.len() > 0 && all_digits(body) && i32::MIN <= value <= i32::MAX {
        Some(value as i32)
    } else {
        None
    }
}

/// The digits are the characters with the code points 0x30 to 0x39.
pub proof fn lemma_digit_code(c: char)
    ensures
        is_digit(c) == (0x30 <= c as u32 <= 0x39),
        '0' as u32 == 0x30,
{
}

/// Reads a 32-bit integer written in decimal.
pub fn parse_i32(s: &str) -> (r: Option<i32>)
    ensures
        r == parse_int(s@),
{
    let v = chars_of(s);
    let n: usize = v.len();
    if n == 0 {
        return None;
    }
    let negative: bool = v[0] == '-';
    let start: usize = if v[0] == '-' || v[0] == '+' {
        1
    } else {
        0
    };
    let ghost body = unsigned_part(v@);
    assert(body =~= v@.skip(start as int));
    if start == n {
        return None;
    }
    let mut acc: i64 = 0;
    let mut too_large: bool = false;
    let mut i: usize = start;
    assert(body.take(0) =~= Seq::<char>::empty());
    while i < n
        invariant
            start <= i <= n == v.len(),
            start < n,
            v@ == s@,
            body == unsigned_part(v@),
            body == v@.skip(start as int),
            all_digits(body.take(i - start)),
            !too_large ==> acc == digits_value(body.take(i - start)) && 0 <= acc <= 0x8000_0000,
            too_large ==> digits_value(body.take(i - start)) > 0x8000_0000,
        decreases n - i,
    {
        let c: char = v[i];
        let code: u32 = c as u32;
        proof {
            lemma_digit_code(c);
            assert(body[i - start] == c);
        }
        if code < 0x30 || code > 0x39 {
            assert(!is_digit(body[i - start]));
            return None;
        }
        proof {
            let upto = body.take(i - start + 1);
            assert(upto.drop_last() =~= body.take(i - start));
            assert(upto.last() == c);
            assert forall|j: int| 0 <= j < upto.len() implies is_digit(#[trigger] upto[j]) by {
                if j < upto.len() - 1 {
                    assert(upto[j] == body.take(i - start)[j]);
                }
            }
        }
        if !too_large {
            acc = acc * 10 + (code - 0x30) as i64;
            if acc > 0x8000_0000 {
                too_large = true;
            }
        }
        i += 1;
    }
    assert(body.take(n - start) =~= body);
    if too_large {
        None
    } else if negative {
        Some((-acc) as i32)
    } else if acc > 0x7fff_ffff {
        None
    } else {
        Some(acc as i32)
    }
}

} // verus!
