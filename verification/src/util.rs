//! JSON text (string quoting, optional numbers and objects), and the text
//! that kernel files and commands hand over.

use vstd::prelude::*;
use crate::text::{
    chars_of, push_char, push_decimal, decimal, digit_char, digit_value, slice_vec, string_of, trim,
    trim_vec,
};

verus! {

/// The JSON escape of one character: quotes, backslashes and control
/// characters are escaped, everything else stands for itself.
pub open spec fn escape(c: char) -> Seq<char> {
    if c == '"' {
        seq!['\\', '"']
    } else if c == '\\' {
        seq!['\\', '\\']
    } else if c == '\n' {
        seq!['\\', 'n']
    } else if c == '\r' {
        seq!['\\', 'r']
    } else if c == '\t' {
        seq!['\\', 't']
    } else if (c as nat) < 0x20 {
        seq!['\\', 'u', '0', '0', digit_char((c as nat) / 16), digit_char((c as nat) % 16)]
    } else {
        seq![c]
    }
}

/// The escapes of all characters of `s`, in order.
pub open spec fn escaped(s: Seq<char>) -> Seq<char>
    decreases s.len(),
{
    if s.len() == 0 {
        Seq::<char>::empty()
    } else {
        escaped(s.drop_last()) + escape(s.last())
    }
}

/// A JSON string literal holding `s`.
pub open spec fn quoted(s: Seq<char>) -> Seq<char> {
    seq!['"'] + escaped(s) + seq!['"']
}

/// The items joined with `sep` between neighbours.
pub open spec fn join(items: Seq<Seq<char>>, sep: Seq<char>) -> Seq<char>
    decreases items.len(),
{
    if items.len() == 0 {
        Seq::<char>::empty()
    } else if items.len() == 1 {
        items[0]
    } else {
        join(items.drop_last(), sep) + sep + items.last()
    }
}

/// One `"key":value` member of a JSON object.
pub open spec fn member(key: Seq<char>, value: Seq<char>) -> Seq<char> {
    quoted(key) + seq![':'] + value
}

/// The members of an object, each rendered.
pub open spec fn members(fields: Seq<(Seq<char>, Seq<char>)>) -> Seq<Seq<char>> {
    fields.map_values(|f: (Seq<char>, Seq<char>)| member(f.0, f.1))
}

/// A JSON object with the given keys and already rendered values, in order.
pub open spec fn object_text(fields: Seq<(Seq<char>, Seq<char>)>) -> Seq<char> {
    seq!['{'] + join(members(fields), seq![',']) + seq!['}']
}

/// The text of an optional number: its decimal digits, or `null`.
pub open spec fn number_text(value: Option<u64>) -> Seq<char> {
    match value {
        Some(n) => decimal(n as nat),
        None => seq!['n', 'u', 'l', 'l'],
    }
}


/// Quoting leaves no control character in the text: every character of a
/// quoted string is at least U+0020, and it starts and ends with `"`.
pub proof fn lemma_quoted_printable(s: Seq<char>)
    ensures
        forall|i: int| 0 <= i < quoted(s).len() ==> (#[trigger] quoted(s)[i] as nat) >= 0x20,
        quoted(s).len() >= 2,
        quoted(s)[0] == '"',
        quoted(s).last() == '"',
{
    lemma_escaped_printable(s);
    let q = quoted(s);
    let e = escaped(s);
    assert forall|i: int| 0 <= i < q.len() implies (#[trigger] q[i] as nat) >= 0x20 by {
        if 0 < i < q.len() - 1 {
            assert(q[i] == e[i - 1]);
        }
    }
}

/// `c` in front of decoded text, when there is any.
pub open spec fn prepend(c: char, rest: Option<Seq<char>>) -> Option<Seq<char>> {
    match rest {
        Some(t) => Some(seq![c] + t),
        None => None,
    }
}

/// The character of a one-letter JSON escape `\c`.
pub open spec fn short_escape(c: char) -> Option<char> {
    if c == '"' {
        Some('"')
    } else if c == '\\' {
        Some('\\')
    } else if c == '/' {
        Some('/')
    } else if c == 'b' {
        Some('\u{8}')
    } else if c == 'f' {
        Some('\u{c}')
    } else if c == 'n' {
        Some('\n')
    } else if c == 'r' {
        Some('\r')
    } else if c == 't' {
        Some('\t')
    } else {
        None
    }
}

/// The value of four hexadecimal digits.
pub open spec fn hex4(d: Seq<char>) -> Option<nat> {
    match (digit_value(d[0], 16), digit_value(d[1], 16), digit_value(d[2], 16), digit_value(d[3], 16)) {
        (Some(a), Some(b), Some(c), Some(e)) => Some(4096 * a + 256 * b + 16 * c + e),
        _ => None,
    }
}

/// The text that the body of a JSON string literal (between its quotes)
/// stands for: escapes `\"`, `\\`, `\/`, `\b`, `\f`, `\n`, `\r`, `\t`, and
/// `\u` with four hexadecimal digits of a character outside the surrogate
/// range; any other character stands for itself, except a bare quote or
/// control character, which makes the body invalid.
pub open spec fn unescaped(q: Seq<char>) -> Option<Seq<char>>
    decreases q.len(),
{
    if q.len() == 0 {
        Some(Seq::<char>::empty())
    } else if q[0] == '\\' {
        if q.len() < 2 {
            None
        } else {
            match short_escape(q[1]) {
                Some(c) => prepend(c, unescaped(q.skip(2))),
                None => if q[1] == 'u' && q.len() >= 6 {
                    match hex4(q.subrange(2, 6)) {
                        Some(v) => if v < 0xD800 || 0xE000 <= v {
                            prepend(v as char, unescaped(q.skip(6)))
                        } else {
                            None
                        },
                        None => None,
                    }
                } else {
                    None
                },
            }
        }
    } else if q[0] == '"' || (q[0] as nat) < 0x20 {
        None
    } else {
        prepend(q[0], unescaped(q.skip(1)))
    }
}

proof fn lemma_hex_digit_value(d: nat)
    requires
        d < 16,
    ensures
        digit_value(digit_char(d), 16) == Some(d),
{
}

proof fn lemma_unescaped_escape(c: char, rest: Seq<char>)
    ensures
        unescaped(escape(c) + rest) == prepend(c, unescaped(rest)),
{
    let q = escape(c) + rest;
    if c == '"' || c == '\\' || c == '\n' || c == '\r' || c == '\t' {
        assert(q.skip(2) =~= rest);
    } else if (c as nat) < 0x20 {
        let h = (c as nat) / 16;
        let l = (c as nat) % 16;
        lemma_hex_digit_value(h);
        lemma_hex_digit_value(l);
        assert(digit_value('0', 16) == Some(0nat));
        assert(q.subrange(2, 6) =~= seq!['0', '0', digit_char(h), digit_char(l)]);
        assert(hex4(q.subrange(2, 6)) == Some(16 * h + l));
        assert(16 * h + l == c as nat);
        assert(q.skip(6) =~= rest);
    } else {
        assert(q[0] == c);
        assert(q.skip(1) =~= rest);
    }
}

proof fn lemma_escaped_concat(a: Seq<char>, b: Seq<char>)
    ensures
        escaped(a + b) == escaped(a) + escaped(b),
    decreases b.len(),
{
    if b.len() == 0 {
        assert(a + b =~= a);
        assert(escaped(a) + escaped(b) =~= escaped(a));
    } else {
        lemma_escaped_concat(a, b.drop_last());
        assert((a + b).drop_last() =~= a + b.drop_last());
        assert((a + b).last() == b.last());
        assert(escaped(a) + escaped(b.drop_last()) + escape(b.last()) =~= escaped(a) + (escaped(
            b.drop_last(),
        ) + escape(b.last())));
    }
}

proof fn lemma_unescaped_escaped(s: Seq<char>)
    ensures
        unescaped(escaped(s)) == Some(s),
    decreases s.len(),
{
    if s.len() == 0 {
    } else {
        let rest = s.skip(1);
        assert(s =~= seq![s[0]] + rest);
        lemma_escaped_concat(seq![s[0]], rest);
        let one = seq![s[0]];
        assert(one.drop_last() =~= Seq::<char>::empty());
        assert(escaped(one.drop_last()) == Seq::<char>::empty());
        assert(one.last() == s[0]);
        assert(escaped(one) == escaped(one.drop_last()) + escape(s[0]));
        assert(Seq::<char>::empty() + escape(s[0]) =~= escape(s[0]));
        lemma_unescaped_escape(s[0], escaped(rest));
        lemma_unescaped_escaped(rest);
        assert(seq![s[0]] + rest =~= s);
    }
}

/// Quoting can be undone: a quoted string starts and ends with `"`, and
/// decoding the text between the quotes as a JSON string literal gives
/// back exactly the original text.
pub proof fn lemma_quoted_decodes(s: Seq<char>)
    ensures
        quoted(s).len() >= 2,
        quoted(s)[0] == '"',
        quoted(s).last() == '"',
        unescaped(quoted(s).subrange(1, quoted(s).len() - 1)) == Some(s),
{
    assert(quoted(s).subrange(1, quoted(s).len() - 1) =~= escaped(s));
    lemma_unescaped_escaped(s);
}

proof fn lemma_escaped_printable(s: Seq<char>)
    ensures
        forall|i: int| 0 <= i < escaped(s).len() ==> (#[trigger] escaped(s)[i] as nat) >= 0x20,
    decreases s.len(),
{
    if s.len() > 0 {
        lemma_escaped_printable(s.drop_last());
        let a = escaped(s.drop_last());
        let c = s.last();
        let e = escape(c);
        assert forall|i: int| 0 <= i < e.len() implies (#[trigger] e[i] as nat) >= 0x20 by {
            if (c as nat) < 0x20 && c != '\n' && c != '\r' && c != '\t' {
                assert((c as nat) / 16 < 2);
            }
        }
        assert forall|i: int| 0 <= i < escaped(s).len() implies (#[trigger] escaped(s)[i] as nat) >= 0x20 by {
            if i < a.len() {
                assert(escaped(s)[i] == a[i]);
            } else {
                assert(escaped(s)[i] == e[i - a.len()]);
            }
        }
    }
}

fn hex_digit(d: u32) -> (c: char)
    requires
        d < 16,
    ensures
        c == digit_char(d as nat),
{
    if d < 10 {
        ((d + ('0' as u32)) as u8) as char
    } else {
        ((d - 10 + ('a' as u32)) as u8) as char
    }
}

/// Appends the JSON escape of `c`.
pub fn push_escape(out: &mut String, c: char)
    ensures
        final(out)@ == old(out)@ + escape(c),
{
    let ghost start = out@;
    if c == '"' {
        push_char(out, '\\');
        push_char(out, '"');
    } else if c == '\\' {
        push_char(out, '\\');
        push_char(out, '\\');
    } else if c == '\n' {
        push_char(out, '\\');
        push_char(out, 'n');
    } else if c == '\r' {
        push_char(out, '\\');
        push_char(out, 'r');
    } else if c == '\t' {
        push_char(out, '\\');
        push_char(out, 't');
    } else if '\u{1f}' >= c {
        let code = c as u32;
        push_char(out, '\\');
        push_char(out, 'u');
        push_char(out, '0');
        push_char(out, '0');
        push_char(out, hex_digit(code / 16));
        push_char(out, hex_digit(code % 16));
    } else {
        push_char(out, c);
    }
    assert(out@ =~= start + escape(c));
}

/// Appends `s` as a JSON string literal.
pub fn push_quoted(out: &mut String, s: &str)
    ensures
        final(out)@ == old(out)@ + quoted(s@),
{
    let chars = chars_of(s);
    let ghost start = out@;
    push_char(out, '"');
    let mut i: usize = 0;
    while i < chars.len()
        invariant
            i <= chars.len(),
            out@ == start + seq!['"'] + escaped(chars@.take(i as int)),
        decreases chars.len() - i,
    {
        push_escape(out, chars[i]);
        assert(chars@.take(i + 1).drop_last() =~= chars@.take(i as int));
        assert(out@ =~= start + seq!['"'] + escaped(chars@.take(i + 1)));
        i += 1;
    }
    assert(chars@.take(chars.len() as int) =~= chars@);
    push_char(out, '"');
    assert(out@ =~= start + quoted(s@));
}

/// `value` as a JSON string literal: the characters `"`, `\` and those below
/// U+0020 are escaped.
pub fn quote(value: &str) -> (s: String)
    ensures
        s@ == quoted(value@),
{
    let mut s = String::new();
    push_quoted(&mut s, value);
    assert(Seq::<char>::empty() + quoted(value@) =~= quoted(value@));
    s
}

/// Appends the text of an optional number.
pub fn push_number(out: &mut String, value: Option<u64>)
    ensures
        final(out)@ == old(out)@ + number_text(value),
{
    match value {
        Some(n) => push_decimal(out, n),
        None => {
            let ghost start = out@;
            push_char(out, 'n');
            push_char(out, 'u');
            push_char(out, 'l');
            push_char(out, 'l');
            assert(out@ =~= start + number_text(value));
        },
    }
}

/// An optional number as JSON: its decimal digits, or `null`.
pub fn number(value: Option<u64>) -> (s: String)
    ensures
        s@ == number_text(value),
{
    let mut s = String::new();
    push_number(&mut s, value);
    assert(Seq::<char>::empty() + number_text(value) =~= number_text(value));
    s
}

proof fn lemma_join_push(items: Seq<Seq<char>>, sep: Seq<char>, x: Seq<char>)
    ensures
        join(items.push(x), sep) == if items.len() == 0 {
            x
        } else {
            join(items, sep) + sep + x
        },
{
    assert(items.push(x).drop_last() =~= items);
}

/// An object of one member is that member in braces.
pub proof fn lemma_object1(k: Seq<char>, v: Seq<char>)
    ensures
        object_text(seq![(k, v)]) == seq!['{'] + member(k, v) + seq!['}'],
{
    assert(members(seq![(k, v)]) =~= seq![member(k, v)]);
}

/// Adding a member to a non-empty object puts a comma and the member
/// before its closing brace.
pub proof fn lemma_object_push(f: Seq<(Seq<char>, Seq<char>)>, k: Seq<char>, v: Seq<char>)
    requires
        f.len() > 0,
    ensures
        object_text(f.push((k, v))) == object_text(f).drop_last() + seq![','] + member(k, v) + seq!['}'],
{
    let m = members(f.push((k, v)));
    assert(m.drop_last() =~= members(f));
    assert(m.last() == member(k, v));
    assert(object_text(f).drop_last() =~= seq!['{'] + join(members(f), seq![',']));
    assert(object_text(f.push((k, v))) =~= seq!['{'] + join(members(f), seq![',']) + seq![','] + member(
        k,
        v,
    ) + seq!['}']);
}

/// An object of sixteen members is its members in order, separated by
/// commas, in braces.
pub proof fn lemma_object16(f: Seq<(Seq<char>, Seq<char>)>)
    requires
        f.len() == 16,
    ensures
        object_text(f) == seq!['{'] + member(f[0].0, f[0].1) + seq![','] + member(f[1].0, f[1].1) + seq![','] + member(f[2].0, f[2].1) + seq![','] + member(f[3].0, f[3].1) + seq![','] + member(f[4].0, f[4].1) + seq![','] + member(f[5].0, f[5].1) + seq![','] + member(f[6].0, f[6].1) + seq![','] + member(f[7].0, f[7].1) + seq![','] + member(f[8].0, f[8].1) + seq![','] + member(f[9].0, f[9].1) + seq![','] + member(f[10].0, f[10].1) + seq![','] + member(f[11].0, f[11].1) + seq![','] + member(f[12].0, f[12].1) + seq![','] + member(f[13].0, f[13].1) + seq![','] + member(f[14].0, f[14].1) + seq![','] + member(f[15].0, f[15].1) + seq!['}'],
{
    lemma_object1(f[0].0, f[0].1);
    assert(f.take(1) =~= seq![f[0]]);
    let e1 = seq!['{'] + member(f[0].0, f[0].1);
    assert(f.take(2) =~= f.take(1).push(f[1]));
    lemma_object_push(f.take(1), f[1].0, f[1].1);
    assert((e1 + seq!['}']).drop_last() =~= e1);
    let e2 = e1 + seq![','] + member(f[1].0, f[1].1);
    assert(object_text(f.take(2)) == e2 + seq!['}']);
    assert(f.take(3) =~= f.take(2).push(f[2]));
    lemma_object_push(f.take(2), f[2].0, f[2].1);
    assert((e2 + seq!['}']).drop_last() =~= e2);
    let e3 = e2 + seq![','] + member(f[2].0, f[2].1);
    assert(object_text(f.take(3)) == e3 + seq!['}']);
    assert(f.take(4) =~= f.take(3).push(f[3]));
    lemma_object_push(f.take(3), f[3].0, f[3].1);
    assert((e3 + seq!['}']).drop_last() =~= e3);
    let e4 = e3 + seq![','] + member(f[3].0, f[3].1);
    assert(object_text(f.take(4)) == e4 + seq!['}']);
    assert(f.take(5) =~= f.take(4).push(f[4]));
    lemma_object_push(f.take(4), f[4].0, f[4].1);
    assert((e4 + seq!['}']).drop_last() =~= e4);
    let e5 = e4 + seq![','] + member(f[4].0, f[4].1);
    assert(object_text(f.take(5)) == e5 + seq!['}']);
    assert(f.take(6) =~= f.take(5).push(f[5]));
    lemma_object_push(f.take(5), f[5].0, f[5].1);
    assert((e5 + seq!['}']).drop_last() =~= e5);
    let e6 = e5 + seq![','] + member(f[5].0, f[5].1);
    assert(object_text(f.take(6)) == e6 + seq!['}']);
    assert(f.take(7) =~= f.take(6).push(f[6]));
    lemma_object_push(f.take(6), f[6].0, f[6].1);
    assert((e6 + seq!['}']).drop_last() =~= e6);
    let e7 = e6 + seq![','] + member(f[6].0, f[6].1);
    assert(object_text(f.take(7)) == e7 + seq!['}']);
    assert(f.take(8) =~= f.take(7).push(f[7]));
    lemma_object_push(f.take(7), f[7].0, f[7].1);
    assert((e7 + seq!['}']).drop_last() =~= e7);
    let e8 = e7 + seq![','] + member(f[7].0, f[7].1);
    assert(object_text(f.take(8)) == e8 + seq!['}']);
    assert(f.take(9) =~= f.take(8).push(f[8]));
    lemma_object_push(f.take(8), f[8].0, f[8].1);
    assert((e8 + seq!['}']).drop_last() =~= e8);
    let e9 = e8 + seq![','] + member(f[8].0, f[8].1);
    assert(object_text(f.take(9)) == e9 + seq!['}']);
    assert(f.take(10) =~= f.take(9).push(f[9]));
    lemma_object_push(f.take(9), f[9].0, f[9].1);
    assert((e9 + seq!['}']).drop_last() =~= e9);
    let e10 = e9 + seq![','] + member(f[9].0, f[9].1);
    assert(object_text(f.take(10)) == e10 + seq!['}']);
    assert(f.take(11) =~= f.take(10).push(f[10]));
    lemma_object_push(f.take(10), f[10].0, f[10].1);
    assert((e10 + seq!['}']).drop_last() =~= e10);
    let e11 = e10 + seq![','] + member(f[10].0, f[10].1);
    assert(object_text(f.take(11)) == e11 + seq!['}']);
    assert(f.take(12) =~= f.take(11).push(f[11]));
    lemma_object_push(f.take(11), f[11].0, f[11].1);
    assert((e11 + seq!['}']).drop_last() =~= e11);
    let e12 = e11 + seq![','] + member(f[11].0, f[11].1);
    assert(object_text(f.take(12)) == e12 + seq!['}']);
    assert(f.take(13) =~= f.take(12).push(f[12]));
    lemma_object_push(f.take(12), f[12].0, f[12].1);
    assert((e12 + seq!['}']).drop_last() =~= e12);
    let e13 = e12 + seq![','] + member(f[12].0, f[12].1);
    assert(object_text(f.take(13)) == e13 + seq!['}']);
    assert(f.take(14) =~= f.take(13).push(f[13]));
    lemma_object_push(f.take(13), f[13].0, f[13].1);
    assert((e13 + seq!['}']).drop_last() =~= e13);
    let e14 = e13 + seq![','] + member(f[13].0, f[13].1);
    assert(object_text(f.take(14)) == e14 + seq!['}']);
    assert(f.take(15) =~= f.take(14).push(f[14]));
    lemma_object_push(f.take(14), f[14].0, f[14].1);
    assert((e14 + seq!['}']).drop_last() =~= e14);
    let e15 = e14 + seq![','] + member(f[14].0, f[14].1);
    assert(object_text(f.take(15)) == e15 + seq!['}']);
    assert(f.take(16) =~= f.take(15).push(f[15]));
    lemma_object_push(f.take(15), f[15].0, f[15].1);
    assert((e15 + seq!['}']).drop_last() =~= e15);
    let e16 = e15 + seq![','] + member(f[15].0, f[15].1);
    assert(object_text(f.take(16)) == e16 + seq!['}']);
    assert(f.take(16) =~= f);
}

/// An object of three members is its three `"key":value` members in
/// order, separated by commas, in braces.
pub proof fn lemma_object3(
    k1: Seq<char>,
    v1: Seq<char>,
    k2: Seq<char>,
    v2: Seq<char>,
    k3: Seq<char>,
    v3: Seq<char>,
)
    ensures
        object_text(seq![(k1, v1), (k2, v2), (k3, v3)]) == seq!['{'] + member(k1, v1) + seq![','] + member(
            k2,
            v2,
        ) + seq![','] + member(k3, v3) + seq!['}'],
{
    let m = members(seq![(k1, v1), (k2, v2), (k3, v3)]);
    assert(m =~= seq![member(k1, v1), member(k2, v2), member(k3, v3)]);
    assert(m.drop_last() =~= seq![member(k1, v1), member(k2, v2)]);
    assert(m.drop_last().drop_last() =~= seq![member(k1, v1)]);
    let c = seq![','];
    assert(join(m.drop_last().drop_last(), c) == member(k1, v1));
    assert(join(m.drop_last(), c) == join(m.drop_last().drop_last(), c) + c + member(k2, v2));
    assert(join(m, c) == join(m.drop_last(), c) + c + member(k3, v3));
    assert(join(m, c) =~= member(k1, v1) + c + member(k2, v2) + c + member(k3, v3));
    assert(object_text(seq![(k1, v1), (k2, v2), (k3, v3)]) =~= seq!['{'] + member(k1, v1) + c + member(
        k2,
        v2,
    ) + c + member(k3, v3) + seq!['}']);
}

/// An object of four members is its four `"key":value` members in order,
/// separated by commas, in braces.
pub proof fn lemma_object4(
    k1: Seq<char>,
    v1: Seq<char>,
    k2: Seq<char>,
    v2: Seq<char>,
    k3: Seq<char>,
    v3: Seq<char>,
    k4: Seq<char>,
    v4: Seq<char>,
)
    ensures
        object_text(seq![(k1, v1), (k2, v2), (k3, v3), (k4, v4)]) == seq!['{'] + member(k1, v1) + seq![
            ',',
        ] + member(k2, v2) + seq![','] + member(k3, v3) + seq![','] + member(k4, v4) + seq!['}'],
{
    let m = members(seq![(k1, v1), (k2, v2), (k3, v3), (k4, v4)]);
    assert(m =~= seq![member(k1, v1), member(k2, v2), member(k3, v3), member(k4, v4)]);
    assert(m.drop_last() =~= seq![member(k1, v1), member(k2, v2), member(k3, v3)]);
    assert(m.drop_last().drop_last() =~= seq![member(k1, v1), member(k2, v2)]);
    assert(m.drop_last().drop_last().drop_last() =~= seq![member(k1, v1)]);
    let c = seq![','];
    assert(join(m.drop_last().drop_last().drop_last(), c) == member(k1, v1));
    assert(join(m.drop_last().drop_last(), c) == join(m.drop_last().drop_last().drop_last(), c) + c
        + member(k2, v2));
    assert(join(m.drop_last(), c) == join(m.drop_last().drop_last(), c) + c + member(k3, v3));
    assert(join(m, c) == join(m.drop_last(), c) + c + member(k4, v4));
    assert(join(m, c) =~= member(k1, v1) + c + member(k2, v2) + c + member(k3, v3) + c + member(k4, v4));
    assert(object_text(seq![(k1, v1), (k2, v2), (k3, v3), (k4, v4)]) =~= seq!['{'] + member(k1, v1) + c
        + member(k2, v2) + c + member(k3, v3) + c + member(k4, v4) + seq!['}']);
}

/// A JSON object of the given keys and rendered values, in order.
pub fn object(fields: &[(&str, String)]) -> (s: String)
    ensures
        s@ == object_text(fields@.map_values(|f: (&str, String)| (f.0@, f.1@))),
{
    let ghost fs = fields@.map_values(|f: (&str, String)| (f.0@, f.1@));
    let mut s = String::new();
    push_char(&mut s, '{');
    let mut i: usize = 0;
    while i < fields.len()
        invariant
            i <= fields.len(),
            fs == fields@.map_values(|f: (&str, String)| (f.0@, f.1@)),
            s@ == seq!['{'] + join(members(fs.take(i as int)), seq![',']),
        decreases fields.len() - i,
    {
        let ghost before = s@;
        if i > 0 {
            push_char(&mut s, ',');
        }
        let (key, value) = &fields[i];
        push_quoted(&mut s, key);
        push_char(&mut s, ':');
        s.append(value.as_str());
        proof {
            assert(members(fs.take(i + 1)) =~= members(fs.take(i as int)).push(
                member(fs[i as int].0, fs[i as int].1),
            ));
            lemma_join_push(members(fs.take(i as int)), seq![','], member(fs[i as int].0, fs[i as int].1));
        }
        assert(s@ =~= seq!['{'] + join(members(fs.take(i + 1)), seq![',']));
        i += 1;
    }
    assert(fs.take(fields.len() as int) =~= fs);
    push_char(&mut s, '}');
    s
}


/// A JSON array of already rendered items, in order.
pub open spec fn list_text(items: Seq<Seq<char>>) -> Seq<char> {
    seq!['['] + join(items, seq![',']) + seq![']']
}

/// The views of a sequence of strings.
pub open spec fn texts(items: Seq<String>) -> Seq<Seq<char>> {
    items.map_values(|x: String| x@)
}

/// A JSON array of the given rendered items, in order.
pub fn list(items: &Vec<String>) -> (s: String)
    ensures
        s@ == list_text(texts(items@)),
{
    let ghost v = texts(items@);
    let mut s = String::new();
    push_char(&mut s, '[');
    let mut i: usize = 0;
    while i < items.len()
        invariant
            i <= items@.len(),
            v == texts(items@),
            s@ == seq!['['] + join(v.take(i as int), seq![',']),
        decreases items@.len() - i,
    {
        if i > 0 {
            push_char(&mut s, ',');
        }
        s.append(items[i].as_str());
        proof {
            lemma_join_push(v.take(i as int), seq![','], v[i as int]);
            assert(v.take(i + 1) =~= v.take(i as int).push(v[i as int]));
        }
        assert(s@ =~= seq!['['] + join(v.take(i + 1), seq![',']));
        i += 1;
    }
    assert(v.take(items@.len() as int) =~= v);
    push_char(&mut s, ']');
    s
}

/// The quoted forms of the given strings, in order.
pub open spec fn quoted_all(items: Seq<Seq<char>>) -> Seq<Seq<char>> {
    items.map_values(|x: Seq<char>| quoted(x))
}

/// A JSON array of the given strings, each quoted.
pub fn quoted_list(items: &Vec<String>) -> (s: String)
    ensures
        s@ == list_text(quoted_all(texts(items@))),
{
    let mut q: Vec<String> = Vec::new();
    let mut i: usize = 0;
    while i < items.len()
        invariant
            i <= items@.len(),
            q@.len() == i,
            forall|j: int| 0 <= j < i ==> (#[trigger] q@[j])@ == quoted(items@[j]@),
        decreases items@.len() - i,
    {
        q.push(quote(items[i].as_str()));
        i += 1;
    }
    assert(texts(q@) =~= quoted_all(texts(items@)));
    list(&q)
}

/// Rendered text, or `null` when there is none.
pub open spec fn text_or_null(value: Option<Seq<char>>) -> Seq<char> {
    match value {
        Some(t) => t,
        None => seq!['n', 'u', 'l', 'l'],
    }
}

/// The view of optional text.
pub open spec fn text_view(value: Option<&str>) -> Option<Seq<char>> {
    match value {
        Some(t) => Some(t@),
        None => None,
    }
}

/// Rendered text, or `null` when there is none.
pub fn or_null(value: Option<&str>) -> (s: String)
    ensures
        s@ == text_or_null(text_view(value)),
{
    match value {
        Some(t) => t.to_owned(),
        None => {
            let s = "null".to_owned();
            proof {
                reveal_strlit("null");
            }
            s
        },
    }
}

/// The characters around a kernel file's value: NULs, line breaks and spaces.
pub open spec fn is_padding(c: char) -> bool {
    c == '\0' || c == '\n' || c == '\r' || c == ' '
}

/// `s` without its leading padding.
pub open spec fn unpad_start(s: Seq<char>) -> Seq<char>
    decreases s.len(),
{
    if s.len() > 0 && is_padding(s[0]) {
        unpad_start(s.skip(1))
    } else {
        s
    }
}

/// `s` without its trailing padding.
pub open spec fn unpad_end(s: Seq<char>) -> Seq<char>
    decreases s.len(),
{
    if s.len() > 0 && is_padding(s.last()) {
        unpad_end(s.drop_last())
    } else {
        s
    }
}

/// `s` without padding at either end.
pub open spec fn unpadded(s: Seq<char>) -> Seq<char> {
    unpad_end(unpad_start(s))
}

proof fn lemma_unpad_start_skip(s: Seq<char>, k: int)
    requires
        0 <= k <= s.len(),
        forall|j: int| 0 <= j < k ==> is_padding(#[trigger] s[j]),
    ensures
        unpad_start(s) == unpad_start(s.skip(k)),
    decreases k,
{
    if k > 0 {
        assert(is_padding(s[0]));
        assert(s.skip(1).skip(k - 1) =~= s.skip(k));
        lemma_unpad_start_skip(s.skip(1), k - 1);
    } else {
        assert(s.skip(0) =~= s);
    }
}

proof fn lemma_unpad_end_take(s: Seq<char>, k: int)
    requires
        0 <= k <= s.len(),
        forall|j: int| k <= j < s.len() ==> is_padding(#[trigger] s[j]),
    ensures
        unpad_end(s) == unpad_end(s.take(k)),
    decreases s.len() - k,
{
    if k < s.len() {
        assert(is_padding(s.last()));
        assert(s.drop_last().take(k) =~= s.take(k));
        lemma_unpad_end_take(s.drop_last(), k);
    } else {
        assert(s.take(k) =~= s);
    }
}

/// The value of a kernel file: its text without NULs, line breaks and
/// spaces at either end.
pub fn file_text(raw: &str) -> (s: String)
    ensures
        s@ == unpadded(raw@),
{
    let v = chars_of(raw);
    let mut a: usize = 0;
    while a < v.len() && (v[a] == '\0' || v[a] == '\n' || v[a] == '\r' || v[a] == ' ')
        invariant
            a <= v.len(),
            forall|j: int| 0 <= j < a ==> is_padding(#[trigger] v@[j]),
        decreases v.len() - a,
    {
        a += 1;
    }
    proof {
        lemma_unpad_start_skip(v@, a as int);
    }
    let ghost t = v@.skip(a as int);
    assert(unpad_start(t) == t);
    let mut b: usize = v.len();
    while b > a && (v[b - 1] == '\0' || v[b - 1] == '\n' || v[b - 1] == '\r' || v[b - 1] == ' ')
        invariant
            a <= b <= v.len(),
            forall|j: int| b <= j < v.len() ==> is_padding(#[trigger] v@[j]),
        decreases b,
    {
        b -= 1;
    }
    let ghost u = v@.subrange(a as int, b as int);
    proof {
        assert forall|j: int| (b - a) <= j < t.len() implies is_padding(#[trigger] t[j]) by {
            assert(t[j] == v@[a + j]);
        }
        lemma_unpad_end_take(t, b - a);
        assert(t.take(b - a) =~= u);
    }
    assert(unpad_end(u) == u);
    string_of(&slice_vec(&v, a, b))
}

/// What a command hands over: its output without white space at either
/// end, when it finished in time and that is not empty.
pub open spec fn command_text(finished: bool, output: Seq<char>) -> Option<Seq<char>> {
    if finished && trim(output).len() > 0 {
        Some(trim(output))
    } else {
        None
    }
}

/// The text of a command's output, whatever its exit status: a service
/// manager that reports one unit missing still lists the others.
pub fn command_output(finished: bool, output: &str) -> (r: Option<String>)
    ensures
        match r {
            Some(s) => command_text(finished, output@) == Some(s@),
            None => command_text(finished, output@) is None,
        },
{
    let t = trim_vec(&chars_of(output));
    if finished && t.len() > 0 {
        Some(string_of(&t))
    } else {
        None
    }
}

} // verus!
