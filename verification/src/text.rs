//! Character-level text handling: the splitting, trimming and number
//! conversions that the kernel's and the service manager's text formats need,
//! each stated over `Seq<char>` the way the standard string methods behave.

use vstd::prelude::*;

verus! {

// ---------------------------------------------------------------------------
// Specifications
// ---------------------------------------------------------------------------

/// Whether `c` is an ASCII decimal digit.
pub open spec fn is_digit(c: char) -> bool {
    '0' <= c && c <= '9'
}

/// Unicode `White_Space`, the set that `char::is_whitespace` tests.
pub open spec fn is_space(c: char) -> bool {
    ||| c == ' '
    ||| ('\t' <= c && c <= '\r')
    ||| c == '\u{85}'
    ||| c == '\u{A0}'
    ||| c == '\u{1680}'
    ||| ('\u{2000}' <= c && c <= '\u{200A}')
    ||| c == '\u{2028}'
    ||| c == '\u{2029}'
    ||| c == '\u{202F}'
    ||| c == '\u{205F}'
    ||| c == '\u{3000}'
}

/// The views of a sequence of character vectors.
pub open spec fn views(v: Seq<Vec<char>>) -> Seq<Seq<char>> {
    Seq::new(v.len(), |i: int| v[i]@)
}

/// The pieces of `s` between occurrences of `sep`: `str::split` with a
/// character pattern. There is always at least one piece.
pub open spec fn split_char(s: Seq<char>, sep: char) -> Seq<Seq<char>>
    decreases s.len(),
{
    if s.len() == 0 {
        seq![Seq::<char>::empty()]
    } else {
        let p = split_char(s.drop_last(), sep);
        if s.last() == sep {
            p.push(Seq::<char>::empty())
        } else {
            p.update(p.len() - 1, p.last().push(s.last()))
        }
    }
}

/// `line` without one trailing carriage return.
pub open spec fn strip_cr(line: Seq<char>) -> Seq<char> {
    if line.len() > 0 && line.last() == '\r' {
        line.drop_last()
    } else {
        line
    }
}

/// `str::lines`: the pieces between line feeds, each that ended in a line
/// feed losing one carriage return before it; a last empty piece is no line.
pub open spec fn lines(s: Seq<char>) -> Seq<Seq<char>> {
    let p = split_char(s, '\n');
    let ended = p.drop_last().map_values(|l: Seq<char>| strip_cr(l));
    if p.last().len() == 0 {
        ended
    } else {
        ended.push(p.last())
    }
}

/// `str::split_whitespace`: the maximal runs of characters that are not
/// white space, in order.
pub open spec fn words(s: Seq<char>) -> Seq<Seq<char>>
    decreases s.len(),
{
    if s.len() == 0 {
        Seq::<Seq<char>>::empty()
    } else {
        let w = words(s.drop_last());
        let c = s.last();
        if is_space(c) {
            w
        } else if s.len() >= 2 && !is_space(s[s.len() - 2]) {
            w.update(w.len() - 1, w.last().push(c))
        } else {
            w.push(seq![c])
        }
    }
}

/// The position of the first `c` in `s`, if any.
pub open spec fn first_index(s: Seq<char>, c: char) -> Option<int>
    decreases s.len(),
{
    if s.len() == 0 {
        None
    } else {
        match first_index(s.drop_last(), c) {
            Some(i) => Some(i),
            None => if s.last() == c {
                Some(s.len() - 1)
            } else {
                None
            },
        }
    }
}

/// `str::split_once` with a character: the text before and after the first `c`.
pub open spec fn split_once(s: Seq<char>, c: char) -> Option<(Seq<char>, Seq<char>)> {
    match first_index(s, c) {
        Some(i) => Some((s.take(i), s.skip(i + 1))),
        None => None,
    }
}

/// `s` without its leading white space.
pub open spec fn trim_start(s: Seq<char>) -> Seq<char>
    decreases s.len(),
{
    if s.len() > 0 && is_space(s[0]) {
        trim_start(s.skip(1))
    } else {
        s
    }
}

/// `s` without its trailing white space.
pub open spec fn trim_end(s: Seq<char>) -> Seq<char>
    decreases s.len(),
{
    if s.len() > 0 && is_space(s.last()) {
        trim_end(s.drop_last())
    } else {
        s
    }
}

/// `str::trim`.
pub open spec fn trim(s: Seq<char>) -> Seq<char> {
    trim_end(trim_start(s))
}

/// `str::starts_with`.
pub open spec fn starts_with(s: Seq<char>, p: Seq<char>) -> bool {
    p.len() <= s.len() && s.take(p.len() as int) == p
}

/// Whether `p` occurs in `s` starting at `i`.
pub open spec fn occurs_at(s: Seq<char>, p: Seq<char>, i: int) -> bool {
    0 <= i && i + p.len() <= s.len() && s.subrange(i, i + p.len()) == p
}

/// `str::contains` with a string pattern.
pub open spec fn contains(s: Seq<char>, p: Seq<char>) -> bool {
    exists|i: int| occurs_at(s, p, i)
}

/// The text after the last `c` in `s`, or all of `s` when there is none:
/// the first item of `str::rsplit`.
pub open spec fn after_last(s: Seq<char>, c: char) -> Seq<char>
    decreases s.len(),
{
    if s.len() == 0 {
        s
    } else if s.last() == c {
        Seq::<char>::empty()
    } else {
        after_last(s.drop_last(), c).push(s.last())
    }
}

/// The value of a digit in base `radix` (at most 16): `0`-`9`, then letters of
/// either case.
pub open spec fn digit_value(c: char, radix: nat) -> Option<nat> {
    let v: int = if is_digit(c) {
        c as int - '0' as int
    } else if 'a' <= c && c <= 'f' {
        c as int - 'a' as int + 10
    } else if 'A' <= c && c <= 'F' {
        c as int - 'A' as int + 10
    } else {
        16
    };
    if v < radix {
        Some(v as nat)
    } else {
        None
    }
}

/// The value of a string of digits in base `radix`.
pub open spec fn digits_value(d: Seq<char>, radix: nat) -> Option<nat>
    decreases d.len(),
{
    if d.len() == 0 {
        Some(0)
    } else {
        match (digits_value(d.drop_last(), radix), digit_value(d.last(), radix)) {
            (Some(v), Some(x)) => Some(v * radix + x),
            _ => None,
        }
    }
}

/// `from_str_radix` of an unsigned integer type whose largest value is `max`:
/// an optional `+`, then at least one digit, and a value that fits.
pub open spec fn parse_uint(s: Seq<char>, radix: nat, max: nat) -> Option<nat> {
    let d = if s.len() > 0 && s[0] == '+' {
        s.skip(1)
    } else {
        s
    };
    if d.len() == 0 {
        None
    } else {
        match digits_value(d, radix) {
            Some(v) => if v <= max {
                Some(v)
            } else {
                None
            },
            None => None,
        }
    }
}

/// `str::parse::<u64>`.
pub open spec fn parse_u64(s: Seq<char>) -> Option<u64> {
    match parse_uint(s, 10, u64::MAX as nat) {
        Some(v) => Some(v as u64),
        None => None,
    }
}

/// `str::parse::<u32>`.
pub open spec fn parse_u32(s: Seq<char>) -> Option<u32> {
    match parse_uint(s, 10, u32::MAX as nat) {
        Some(v) => Some(v as u32),
        None => None,
    }
}

/// `str::parse::<u16>`.
pub open spec fn parse_u16(s: Seq<char>) -> Option<u16> {
    match parse_uint(s, 10, u16::MAX as nat) {
        Some(v) => Some(v as u16),
        None => None,
    }
}

/// The character of a digit value below 16, lower case past 9.
pub open spec fn digit_char(d: nat) -> char {
    if d < 10 {
        (d + '0' as nat) as char
    } else {
        (d - 10 + 'a' as nat) as char
    }
}

/// The decimal text of `n`, as `to_string` writes an unsigned integer.
pub open spec fn decimal(n: nat) -> Seq<char>
    decreases n,
{
    if n < 10 {
        seq![digit_char(n)]
    } else {
        decimal(n / 10).push(digit_char(n % 10))
    }
}

// ---------------------------------------------------------------------------
// Lemmas
// ---------------------------------------------------------------------------

pub proof fn lemma_split_char_nonempty(s: Seq<char>, sep: char)
    ensures
        split_char(s, sep).len() >= 1,
    decreases s.len(),
{
    if s.len() > 0 {
        lemma_split_char_nonempty(s.drop_last(), sep);
    }
}

pub proof fn lemma_words_nonempty(s: Seq<char>)
    ensures
        s.len() > 0 && !is_space(s.last()) ==> words(s).len() >= 1,
        forall|i: int| 0 <= i < words(s).len() ==> #[trigger] words(s)[i].len() > 0,
    decreases s.len(),
{
    if s.len() > 0 {
        lemma_words_nonempty(s.drop_last());
    }
}

proof fn lemma_digits_grow(d: Seq<char>, k: int, radix: nat)
    requires
        0 <= k <= d.len(),
        radix >= 1,
        digits_value(d, radix) is Some,
    ensures
        digits_value(d.take(k), radix) is Some,
        digits_value(d.take(k), radix)->0 <= digits_value(d, radix)->0,
    decreases d.len() - k,
{
    if k < d.len() {
        let e = d.take(k + 1);
        assert(e.drop_last() =~= d.take(k));
        lemma_digits_grow(d, k + 1, radix);
        let v = digits_value(d.take(k), radix)->0;
        assert(v * radix >= v) by (nonlinear_arith)
            requires
                radix >= 1,
        ;
    } else {
        assert(d.take(k) =~= d);
    }
}


/// The digits `to_string` writes for a number parse back to it: decimal
/// text and `parse_uint` are inverse on every value that fits.
pub proof fn lemma_decimal_parses_back(n: nat, max: nat)
    requires
        n <= max,
    ensures
        parse_uint(decimal(n), 10, max) == Some(n),
{
    lemma_decimal_value(n);
    lemma_decimal_digits(n);
    assert(decimal(n)[0] != '+');
}

proof fn lemma_decimal_digits(n: nat)
    ensures
        decimal(n).len() >= 1,
        forall|i: int| 0 <= i < decimal(n).len() ==> is_digit(#[trigger] decimal(n)[i]),
    decreases n,
{
    if n >= 10 {
        lemma_decimal_digits(n / 10);
        let d = decimal(n / 10);
        assert forall|i: int| 0 <= i < decimal(n).len() implies is_digit(#[trigger] decimal(n)[i]) by {
            if i < d.len() {
                assert(decimal(n)[i] == d[i]);
            }
        }
    }
}

proof fn lemma_decimal_value(n: nat)
    ensures
        digits_value(decimal(n), 10) == Some(n),
    decreases n,
{
    if n < 10 {
        let s = decimal(n);
        assert(s.drop_last() =~= Seq::<char>::empty());
        assert(digits_value(Seq::<char>::empty(), 10) == Some(0nat));
        assert(s.last() == digit_char(n));
        assert(digit_value(digit_char(n), 10) == Some(n));
    } else {
        lemma_decimal_value(n / 10);
        let s = decimal(n);
        assert(s.drop_last() =~= decimal(n / 10));
        assert(s.last() == digit_char(n % 10));
        assert(digit_value(digit_char(n % 10), 10) == Some(n % 10));
        assert((n / 10) * 10 + n % 10 == n);
    }
}

// ---------------------------------------------------------------------------
// Executable text handling
// ---------------------------------------------------------------------------

/// The characters of `s`, in order.
pub fn chars_of(s: &str) -> (out: Vec<char>)
    ensures
        out@ == s@,
{
    let mut out: Vec<char> = Vec::new();
    for c in it: s.chars()
        invariant
            out@ == it.seq().take(it.index() as int),
            it.seq() == s@,
    {
        out.push(c);
    }
    out
}

/// Appends one character. Trusted: the body calls `String::push`, which
/// the standard library documents as appending the character to the end of
/// the string; the contract claims exactly that of the string's characters.
#[verifier::external_body]
pub(crate) fn push_char(s: &mut String, c: char)
    ensures
        final(s)@ == old(s)@.push(c),
{
    s.push(c);
}

/// Appends characters to a string.
pub fn push_chars(s: &mut String, chars: &Vec<char>)
    ensures
        final(s)@ == old(s)@ + chars@,
{
    let ghost start = s@;
    let mut i: usize = 0;
    while i < chars.len()
        invariant
            i <= chars.len(),
            s@ == start + chars@.take(i as int),
        decreases chars.len() - i,
    {
        push_char(s, chars[i]);
        assert(chars@.take(i + 1) =~= chars@.take(i as int).push(chars@[i as int]));
        i += 1;
    }
    assert(chars@.take(chars.len() as int) =~= chars@);
}

/// A string of the given characters.
pub fn string_of(chars: &Vec<char>) -> (s: String)
    ensures
        s@ == chars@,
{
    let mut s = String::new();
    push_chars(&mut s, chars);
    assert(Seq::<char>::empty() + chars@ =~= chars@);
    s
}

/// Whether two character vectors hold the same text.
pub fn same(a: &Vec<char>, b: &Vec<char>) -> (r: bool)
    ensures
        r == (a@ == b@),
{
    if a.len() != b.len() {
        return false;
    }
    let mut i: usize = 0;
    while i < a.len()
        invariant
            i <= a.len(),
            a.len() == b.len(),
            forall|j: int| 0 <= j < i ==> a@[j] == b@[j],
        decreases a.len() - i,
    {
        if a[i] != b[i] {
            return false;
        }
        i += 1;
    }
    assert(a@ =~= b@);
    true
}

/// Whether `c` is white space, as `char::is_whitespace` decides.
pub fn is_space_char(c: char) -> (r: bool)
    ensures
        r == is_space(c),
{
    c == ' ' || ('\t' <= c && c <= '\r') || c == '\u{85}' || c == '\u{A0}' || c == '\u{1680}'
        || ('\u{2000}' <= c && c <= '\u{200A}') || c == '\u{2028}' || c == '\u{2029}' || c
        == '\u{202F}' || c == '\u{205F}' || c == '\u{3000}'
}

/// The pieces of `s` between occurrences of `sep`.
pub fn split_on(s: &Vec<char>, sep: char) -> (out: Vec<Vec<char>>)
    ensures
        views(out@) == split_char(s@, sep),
{
    let mut out: Vec<Vec<char>> = Vec::new();
    let mut cur: Vec<char> = Vec::new();
    let mut i: usize = 0;
    while i < s.len()
        invariant
            i <= s.len(),
            views(out@).push(cur@) == split_char(s@.take(i as int), sep),
        decreases s.len() - i,
    {
        let c = s[i];
        let ghost before = s@.take(i as int);
        assert(s@.take(i + 1).drop_last() =~= before);
        assert(s@.take(i + 1).last() == c);
        proof {
            lemma_split_char_nonempty(before, sep);
        }
        if c == sep {
            let done = cur;
            out.push(done);
            cur = Vec::new();
            assert(views(out@).push(cur@) =~= split_char(s@.take(i + 1), sep));
        } else {
            let ghost old_cur = cur@;
            cur.push(c);
            assert(views(out@).push(cur@) =~= split_char(s@.take(i + 1), sep));
        }
        i += 1;
    }
    assert(s@.take(s.len() as int) =~= s@);
    out.push(cur);
    assert(views(out@) =~= split_char(s@, sep));
    out
}

/// `line` without one trailing carriage return.
pub fn strip_cr_vec(line: Vec<char>) -> (out: Vec<char>)
    ensures
        out@ == strip_cr(line@),
{
    let mut line = line;
    if line.len() > 0 && line[line.len() - 1] == '\r' {
        line.pop();
    }
    line
}

/// `str::lines`.
pub fn lines_of(s: &Vec<char>) -> (out: Vec<Vec<char>>)
    ensures
        views(out@) == lines(s@),
{
    let pieces = split_on(s, '\n');
    proof {
        lemma_split_char_nonempty(s@, '\n');
    }
    let ghost p = split_char(s@, '\n');
    let n = pieces.len();
    let mut out: Vec<Vec<char>> = Vec::new();
    let mut i: usize = 0;
    while i + 1 < n
        invariant
            n == pieces.len(),
            n >= 1,
            i < n,
            views(pieces@) == p,
            views(out@) == p.take(i as int).map_values(|l: Seq<char>| strip_cr(l)),
        decreases n - i,
    {
        let line = strip_cr_vec(pieces[i].clone());
        assert(pieces@[i as int]@ == p[i as int]);
        let ghost before = views(out@);
        out.push(line);
        assert(views(out@) =~= before.push(strip_cr(p[i as int])));
        assert(p.take(i + 1) =~= p.take(i as int).push(p[i as int]));
        assert(views(out@) =~= p.take(i + 1).map_values(|l: Seq<char>| strip_cr(l)));
        i += 1;
    }
    assert(p.take(i as int) =~= p.drop_last());
    if pieces[n - 1].len() > 0 {
        out.push(pieces[n - 1].clone());
        assert(views(out@) =~= p.drop_last().map_values(|l: Seq<char>| strip_cr(l)).push(
            p.last(),
        ));
    }
    out
}

/// `str::split_whitespace`.
pub fn words_of(s: &Vec<char>) -> (out: Vec<Vec<char>>)
    ensures
        views(out@) == words(s@),
{
    let mut out: Vec<Vec<char>> = Vec::new();
    let mut i: usize = 0;
    while i < s.len()
        invariant
            i <= s.len(),
            views(out@) == words(s@.take(i as int)),
        decreases s.len() - i,
    {
        let c = s[i];
        let ghost before = s@.take(i as int);
        assert(s@.take(i + 1).drop_last() =~= before);
        assert(s@.take(i + 1).last() == c);
        proof {
            lemma_words_nonempty(before);
        }
        if is_space_char(c) {
        } else if i >= 1 && !is_space_char(s[i - 1]) {
            assert(s@.take(i + 1)[i - 1] == s@[i - 1]);
            assert(before.last() == s@[i - 1]);
            let mut last = out.pop().unwrap();
            last.push(c);
            out.push(last);
        } else {
            let mut w: Vec<char> = Vec::new();
            w.push(c);
            out.push(w);
        }
        assert(views(out@) =~= words(s@.take(i + 1)));
        i += 1;
    }
    assert(s@.take(s.len() as int) =~= s@);
    out
}

/// The position of the first `c` in `s`, if any.
pub fn find_char(s: &Vec<char>, c: char) -> (r: Option<usize>)
    ensures
        match r {
            Some(i) => i < s@.len() && first_index(s@, c) == Some(i as int),
            None => first_index(s@, c) is None,
        },
{
    let mut i: usize = 0;
    while i < s.len()
        invariant
            i <= s.len(),
            first_index(s@.take(i as int), c) is None,
        decreases s.len() - i,
    {
        assert(s@.take(i + 1).drop_last() =~= s@.take(i as int));
        if s[i] == c {
            assert(first_index(s@.take(i + 1), c) == Some(i as int));
            proof {
                lemma_first_index_extends(s@, i as int + 1, c);
            }
            return Some(i);
        }
        i += 1;
    }
    assert(s@.take(s.len() as int) =~= s@);
    None
}

/// Once the first `c` lies within a prefix, it is the first in the whole text.
pub proof fn lemma_first_index_extends(s: Seq<char>, k: int, c: char)
    requires
        0 <= k <= s.len(),
        first_index(s.take(k), c) is Some,
    ensures
        first_index(s, c) == first_index(s.take(k), c),
    decreases s.len() - k,
{
    if k < s.len() {
        assert(s.take(k + 1).drop_last() =~= s.take(k));
        lemma_first_index_extends(s, k + 1, c);
    } else {
        assert(s.take(k) =~= s);
    }
}

/// Facts about the first `c`: nothing before it is `c`.
pub proof fn lemma_first_index(s: Seq<char>, c: char)
    ensures
        match first_index(s, c) {
            Some(i) => 0 <= i < s.len() && s[i] == c && forall|j: int| 0 <= j < i ==> s[j] != c,
            None => forall|j: int| 0 <= j < s.len() ==> s[j] != c,
        },
    decreases s.len(),
{
    if s.len() > 0 {
        lemma_first_index(s.drop_last(), c);
        assert(forall|j: int| 0 <= j < s.len() - 1 ==> s.drop_last()[j] == s[j]);
    }
}

/// `str::split_once` with a character.
pub fn split_once_vec(s: &Vec<char>, c: char) -> (r: Option<(Vec<char>, Vec<char>)>)
    ensures
        match r {
            Some((a, b)) => split_once(s@, c) == Some((a@, b@)),
            None => split_once(s@, c) is None,
        },
{
    match find_char(s, c) {
        None => None,
        Some(i) => {
            proof {
                lemma_first_index(s@, c);
            }
            assert(i < s.len());
            let a = slice_vec(s, 0, i);
            let b = slice_vec(s, i + 1, s.len());
            assert(a@ =~= s@.take(i as int));
            assert(b@ =~= s@.skip(i + 1));
            Some((a, b))
        },
    }
}

/// The characters of `s` from `from` up to `to`.
pub fn slice_vec(s: &Vec<char>, from: usize, to: usize) -> (out: Vec<char>)
    requires
        from <= to <= s.len(),
    ensures
        out@ == s@.subrange(from as int, to as int),
{
    let mut out: Vec<char> = Vec::new();
    let mut i = from;
    while i < to
        invariant
            from <= i <= to,
            to <= s.len(),
            out@ == s@.subrange(from as int, i as int),
        decreases to - i,
    {
        out.push(s[i]);
        assert(s@.subrange(from as int, i + 1) =~= s@.subrange(from as int, i as int).push(
            s@[i as int],
        ));
        i += 1;
    }
    out
}

proof fn lemma_trim_start_skip(s: Seq<char>, k: int)
    requires
        0 <= k <= s.len(),
        forall|j: int| 0 <= j < k ==> is_space(#[trigger] s[j]),
    ensures
        trim_start(s) == trim_start(s.skip(k)),
    decreases k,
{
    if k > 0 {
        assert(is_space(s[0]));
        assert(s.skip(1).skip(k - 1) =~= s.skip(k));
        lemma_trim_start_skip(s.skip(1), k - 1);
    } else {
        assert(s.skip(0) =~= s);
    }
}

proof fn lemma_trim_end_take(s: Seq<char>, k: int)
    requires
        0 <= k <= s.len(),
        forall|j: int| k <= j < s.len() ==> is_space(#[trigger] s[j]),
    ensures
        trim_end(s) == trim_end(s.take(k)),
    decreases s.len() - k,
{
    if k < s.len() {
        assert(is_space(s.last()));
        assert(s.drop_last().take(k) =~= s.take(k));
        lemma_trim_end_take(s.drop_last(), k);
    } else {
        assert(s.take(k) =~= s);
    }
}

/// `str::trim`.
pub fn trim_vec(s: &Vec<char>) -> (out: Vec<char>)
    ensures
        out@ == trim(s@),
{
    let mut a: usize = 0;
    while a < s.len() && is_space_char(s[a])
        invariant
            a <= s.len(),
            forall|j: int| 0 <= j < a ==> is_space(#[trigger] s@[j]),
        decreases s.len() - a,
    {
        a += 1;
    }
    proof {
        lemma_trim_start_skip(s@, a as int);
    }
    let ghost t = s@.skip(a as int);
    assert(t.len() == 0 || !is_space(t[0]));
    assert(trim_start(t) == t);
    let mut b: usize = s.len();
    while b > a && is_space_char(s[b - 1])
        invariant
            a <= b <= s.len(),
            forall|j: int| b <= j < s.len() ==> is_space(#[trigger] s@[j]),
        decreases b,
    {
        b -= 1;
    }
    let ghost u = s@.subrange(a as int, b as int);
    proof {
        assert forall|j: int| (b - a) <= j < t.len() implies is_space(#[trigger] t[j]) by {
            assert(t[j] == s@[a + j]);
        }
        lemma_trim_end_take(t, b - a);
        assert(t.take(b - a) =~= u);
    }
    assert(u.len() == 0 || !is_space(u.last()));
    slice_vec(s, a, b)
}

/// `str::starts_with`.
pub fn starts_with_vec(s: &Vec<char>, p: &Vec<char>) -> (r: bool)
    ensures
        r == starts_with(s@, p@),
{
    if p.len() > s.len() {
        return false;
    }
    let mut i: usize = 0;
    while i < p.len()
        invariant
            i <= p.len() <= s.len(),
            forall|j: int| 0 <= j < i ==> s@[j] == p@[j],
        decreases p.len() - i,
    {
        if s[i] != p[i] {
            assert(s@.take(p.len() as int)[i as int] != p@[i as int]);
            return false;
        }
        i += 1;
    }
    assert(s@.take(p.len() as int) =~= p@);
    true
}

/// Whether `p` occurs in `s` at `i`.
fn occurs_at_vec(s: &Vec<char>, p: &Vec<char>, i: usize) -> (r: bool)
    ensures
        r == occurs_at(s@, p@, i as int),
{
    if i > s.len() || p.len() > s.len() - i {
        return false;
    }
    let mut j: usize = 0;
    while j < p.len()
        invariant
            j <= p.len(),
            i + p.len() <= s.len(),
            forall|k: int| 0 <= k < j ==> s@[i + k] == p@[k],
        decreases p.len() - j,
    {
        if s[i + j] != p[j] {
            assert(s@.subrange(i as int, i + p.len())[j as int] != p@[j as int]);
            return false;
        }
        j += 1;
    }
    assert(s@.subrange(i as int, i + p.len()) =~= p@);
    true
}

/// `str::contains` with a string pattern.
pub fn contains_vec(s: &Vec<char>, p: &Vec<char>) -> (r: bool)
    ensures
        r == contains(s@, p@),
{
    if p.len() == 0 {
        assert(s@.subrange(0, 0) =~= p@);
        assert(occurs_at(s@, p@, 0));
        return true;
    }
    if p.len() > s.len() {
        assert forall|k: int| !occurs_at(s@, p@, k) by {}
        return false;
    }
    let bound = s.len() - p.len() + 1;
    let mut i: usize = 0;
    while i < bound
        invariant
            bound == s.len() - p.len() + 1,
            i <= bound,
            forall|k: int| 0 <= k < i ==> !occurs_at(s@, p@, k),
        decreases bound - i,
    {
        if occurs_at_vec(s, p, i) {
            return true;
        }
        i += 1;
    }
    assert forall|k: int| !occurs_at(s@, p@, k) by {
        if 0 <= k && k < i {
        }
    }
    false
}

/// The text after the last `c`, or all of `s` when there is none.
pub fn after_last_vec(s: &Vec<char>, c: char) -> (out: Vec<char>)
    ensures
        out@ == after_last(s@, c),
{
    let mut start: usize = 0;
    let mut i: usize = 0;
    while i < s.len()
        invariant
            start <= i <= s.len(),
            after_last(s@.take(i as int), c) == s@.subrange(start as int, i as int),
        decreases s.len() - i,
    {
        assert(s@.take(i + 1).drop_last() =~= s@.take(i as int));
        if s[i] == c {
            start = i + 1;
            assert(s@.subrange(start as int, i + 1) =~= Seq::<char>::empty());
        } else {
            assert(s@.subrange(start as int, i + 1) =~= s@.subrange(start as int, i as int).push(
                s@[i as int],
            ));
        }
        i += 1;
    }
    assert(s@.take(s.len() as int) =~= s@);
    slice_vec(s, start, s.len())
}

/// The value of a digit in base `radix`.
fn digit_of(c: char, radix: u32) -> (r: Option<u32>)
    requires
        radix <= 16,
    ensures
        match r {
            Some(v) => digit_value(c, radix as nat) == Some(v as nat),
            None => digit_value(c, radix as nat) is None,
        },
{
    let v: u32 = if '0' <= c && c <= '9' {
        (c as u32) - ('0' as u32)
    } else if 'a' <= c && c <= 'f' {
        (c as u32) - ('a' as u32) + 10
    } else if 'A' <= c && c <= 'F' {
        (c as u32) - ('A' as u32) + 10
    } else {
        16
    };
    if v < radix {
        Some(v)
    } else {
        None
    }
}

/// `from_str_radix` for an unsigned type whose largest value is `max`.
pub fn parse_uint_vec(s: &Vec<char>, radix: u32, max: u64) -> (r: Option<u64>)
    requires
        2 <= radix <= 16,
    ensures
        match r {
            Some(v) => parse_uint(s@, radix as nat, max as nat) == Some(v as nat),
            None => parse_uint(s@, radix as nat, max as nat) is None,
        },
{
    let start: usize = if s.len() > 0 && s[0] == '+' {
        1
    } else {
        0
    };
    let ghost d = if s@.len() > 0 && s@[0] == '+' {
        s@.skip(1)
    } else {
        s@
    };
    assert(d =~= s@.skip(start as int));
    if start == s.len() {
        return None;
    }
    let mut acc: u64 = 0;
    let mut i: usize = start;
    assert(d.take(0) =~= Seq::<char>::empty());
    while i < s.len()
        invariant
            start <= i <= s.len(),
            2 <= radix <= 16,
            d == s@.skip(start as int),
            d == (if s@.len() > 0 && s@[0] == '+' {
                s@.skip(1)
            } else {
                s@
            }),
            start < s.len(),
            digits_value(d.take(i - start), radix as nat) == Some(acc as nat),
            acc <= max,
        decreases s.len() - i,
    {
        let ghost k = i - start;
        assert(d.take(k + 1).drop_last() =~= d.take(k));
        assert(d.take(k + 1).last() == s@[i as int]);
        match digit_of(s[i], radix) {
            None => {
                proof {
                    if digits_value(d, radix as nat) is Some {
                        lemma_digits_grow(d, k + 1, radix as nat);
                    }
                    assert(digits_value(d, radix as nat) is None);
                    assert(parse_uint(s@, radix as nat, max as nat) is None);
                }
                return None;
            },
            Some(x) => {
                assert((acc as int) * (radix as int) <= (u64::MAX as int) * 16) by (nonlinear_arith)
                    requires
                        radix <= 16,
                ;
                let next: u128 = (acc as u128) * (radix as u128) + (x as u128);
                if next > max as u128 {
                    proof {
                        if digits_value(d, radix as nat) is Some {
                            lemma_digits_grow(d, k + 1, radix as nat);
                        }
                        assert(parse_uint(s@, radix as nat, max as nat) is None);
                    }
                    return None;
                }
                acc = next as u64;
            },
        }
        i += 1;
    }
    assert(d.take(s.len() - start) =~= d);
    Some(acc)
}

/// `str::parse::<u64>`.
pub fn parse_u64_vec(s: &Vec<char>) -> (r: Option<u64>)
    ensures
        r == parse_u64(s@),
{
    parse_uint_vec(s, 10, u64::MAX)
}

/// `str::parse::<u32>`.
pub fn parse_u32_vec(s: &Vec<char>) -> (r: Option<u32>)
    ensures
        r == parse_u32(s@),
{
    match parse_uint_vec(s, 10, u32::MAX as u64) {
        Some(v) => Some(v as u32),
        None => None,
    }
}

/// `str::parse::<u16>`.
pub fn parse_u16_vec(s: &Vec<char>) -> (r: Option<u16>)
    ensures
        r == parse_u16(s@),
{
    match parse_uint_vec(s, 10, u16::MAX as u64) {
        Some(v) => Some(v as u16),
        None => None,
    }
}

/// Appends the decimal text of `n`.
pub fn push_decimal(out: &mut String, n: u64)
    ensures
        final(out)@ == old(out)@ + decimal(n as nat),
    decreases n,
{
    if n >= 10 {
        push_decimal(out, n / 10);
    }
    let d = n % 10;
    let c = ((d as u32) + ('0' as u32)) as u8 as char;
    assert(c == digit_char(d as nat));
    push_char(out, c);
    assert(old(out)@ + decimal(n as nat) =~= if n >= 10 {
        old(out)@ + decimal((n / 10) as nat)
    } else {
        old(out)@
    }.push(c));
}

/// The decimal text of `n`.
pub fn decimal_string(n: u64) -> (s: String)
    ensures
        s@ == decimal(n as nat),
{
    let mut s = String::new();
    push_decimal(&mut s, n);
    assert(Seq::<char>::empty() + decimal(n as nat) =~= decimal(n as nat));
    s
}

// ---------------------------------------------------------------------------
// Associations
// ---------------------------------------------------------------------------

/// A key-value association in which a later entry replaces an earlier one
/// with the same key, as when pairs are collected into a map.
pub open spec fn assoc<V>(pairs: Seq<(Seq<char>, V)>) -> Map<Seq<char>, V>
    decreases pairs.len(),
{
    if pairs.len() == 0 {
        Map::empty()
    } else {
        assoc(pairs.drop_last()).insert(pairs.last().0, pairs.last().1)
    }
}

/// Entries after the last one with key `k` do not change what `k` maps to.
pub proof fn lemma_assoc_tail<V>(pairs: Seq<(Seq<char>, V)>, j: int, k: Seq<char>)
    requires
        0 <= j <= pairs.len(),
        forall|i: int| j <= i < pairs.len() ==> #[trigger] pairs[i].0 != k,
    ensures
        assoc(pairs).contains_key(k) == assoc(pairs.take(j)).contains_key(k),
        assoc(pairs).contains_key(k) ==> assoc(pairs)[k] == assoc(pairs.take(j))[k],
    decreases pairs.len(),
{
    if j < pairs.len() {
        let d = pairs.drop_last();
        assert(pairs.last().0 != k);
        assert forall|i: int| j <= i < d.len() implies #[trigger] d[i].0 != k by {
            assert(d[i] == pairs[i]);
        }
        lemma_assoc_tail(d, j, k);
        assert(d.take(j) =~= pairs.take(j));
    } else {
        assert(pairs.take(j) =~= pairs);
    }
}

/// The last entry with key `k` gives what `k` maps to.
pub proof fn lemma_assoc_hit<V>(pairs: Seq<(Seq<char>, V)>, j: int, k: Seq<char>)
    requires
        0 <= j < pairs.len(),
        pairs[j].0 == k,
        forall|i: int| j < i < pairs.len() ==> #[trigger] pairs[i].0 != k,
    ensures
        assoc(pairs).contains_key(k),
        assoc(pairs)[k] == pairs[j].1,
{
    lemma_assoc_tail(pairs, j + 1, k);
    assert(pairs.take(j + 1).drop_last() =~= pairs.take(j));
}

/// A key that no entry has is not in the association.
pub proof fn lemma_assoc_miss<V>(pairs: Seq<(Seq<char>, V)>, k: Seq<char>)
    requires
        forall|i: int| 0 <= i < pairs.len() ==> #[trigger] pairs[i].0 != k,
    ensures
        !assoc(pairs).contains_key(k),
{
    lemma_assoc_tail(pairs, 0, k);
}

/// The position of the last pair whose key is `key`.
pub fn find_last_key<V>(pairs: &Vec<(Vec<char>, V)>, key: &Vec<char>) -> (r: Option<usize>)
    ensures
        match r {
            Some(i) => i < pairs.len() && pairs@[i as int].0@ == key@ && forall|j: int|
                i < j < pairs.len() ==> #[trigger] pairs@[j].0@ != key@,
            None => forall|j: int| 0 <= j < pairs.len() ==> #[trigger] pairs@[j].0@ != key@,
        },
{
    let mut i = pairs.len();
    while i > 0
        invariant
            i <= pairs.len(),
            forall|j: int| i <= j < pairs.len() ==> #[trigger] pairs@[j].0@ != key@,
        decreases i,
    {
        if same(&pairs[i - 1].0, key) {
            return Some(i - 1);
        }
        i -= 1;
    }
    None
}

} // verus!
