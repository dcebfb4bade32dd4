//! Text: numbers in decimal and hexadecimal, white space, and UTF-8.

use vstd::prelude::*;
use vstd::string::*;
use vstd::utf8::{decode_utf8, valid_utf8};

verus! {

/// `String::push` appends one character.
pub assume_specification[ String::push ](s: &mut String, c: char)
    ensures
        final(s)@ == old(s)@.push(c),
;

/// Calls `std::str::from_utf8`, which accepts exactly the valid UTF-8
/// sequences and gives the characters that they encode.
#[verifier::external_body]
pub(crate) fn utf8_text(bytes: &[u8]) -> (r: Option<&str>)
    ensures
        r is Some == valid_utf8(bytes@),
        r matches Some(s) ==> s@ == decode_utf8(bytes@),
{
    std::str::from_utf8(bytes).ok()
}

/// The texts that a sequence of strings holds.
pub open spec fn texts(strings: Seq<String>) -> Seq<Seq<char>> {
    Seq::new(strings.len(), |i: int| strings[i]@)
}

// ---------------------------------------------------------------------------
// Numbers
// ---------------------------------------------------------------------------

/// The character of a decimal digit.
pub open spec fn digit(d: int) -> char {
    (48 + d) as char
}

/// A number in decimal, without leading zeros.
pub open spec fn decimal(n: nat) -> Seq<char>
    decreases n,
{
    if n < 10 {
        seq![digit(n as int)]
    } else {
        decimal(n / 10).push(digit((n % 10) as int))
    }
}

/// A number of zeros.
pub open spec fn zeros(k: nat) -> Seq<char> {
    Seq::new(k, |i: int| '0')
}

/// A number in decimal, with zeros in front up to a width.
pub open spec fn padded(n: nat, width: nat) -> Seq<char> {
    let d = decimal(n);
    if d.len() >= width {
        d
    } else {
        zeros((width - d.len()) as nat) + d
    }
}

/// The number that a sequence of digits denotes.
pub open spec fn denoted(s: Seq<char>) -> int
    decreases s.len(),
{
    if s.len() == 0 {
        0
    } else {
        denoted(s.drop_last()) * 10 + (s.last() as int - 48)
    }
}

/// A number is read back from its decimal digits, with or without padding.
pub proof fn lemma_decimal_denotes(n: nat, width: nat)
    ensures
        denoted(decimal(n)) == n,
        denoted(padded(n, width)) == n,
{
    lemma_decimal(n);
    let d = decimal(n);
    if d.len() < width {
        lemma_zeros((width - d.len()) as nat, d);
    }
}

proof fn lemma_decimal(n: nat)
    ensures
        denoted(decimal(n)) == n,
        decimal(n).len() > 0,
    decreases n,
{
    if n < 10 {
        let s = seq![digit(n as int)];
        assert(s.drop_last() =~= Seq::<char>::empty());
        assert(denoted(s.drop_last()) == 0);
        assert(s.last() as int == 48 + n);
    } else {
        lemma_decimal(n / 10);
        let s = decimal(n / 10).push(digit((n % 10) as int));
        assert(s.drop_last() =~= decimal(n / 10));
        assert(s.last() as int == 48 + n % 10);
    }
}

proof fn lemma_zeros(k: nat, d: Seq<char>)
    ensures
        denoted(zeros(k) + d) == denoted(d),
    decreases d.len(), k,
{
    let s = zeros(k) + d;
    if d.len() > 0 {
        lemma_zeros(k, d.drop_last());
        assert(s.drop_last() =~= zeros(k) + d.drop_last());
        assert(s.last() == d.last());
    } else if k > 0 {
        lemma_zeros((k - 1) as nat, d);
        assert(s.drop_last() =~= zeros((k - 1) as nat) + d);
        assert(s.last() == '0');
    } else {
        assert(s =~= d);
    }
}

fn digit_char(d: u64) -> (c: char)
    requires
        d < 10,
    ensures
        c == digit(d as int),
{
    (48 + d) as u8 as char
}

/// Appends a number in decimal.
pub fn append_decimal(out: &mut String, n: u64)
    ensures
        final(out)@ == old(out)@ + decimal(n as nat),
    decreases n,
{
    let ghost before = out@;
    if n >= 10 {
        append_decimal(out, n / 10);
    }
    out.push(digit_char(n % 10));
    assert(out@ =~= before + decimal(n as nat));
}

/// Padding reaches past the last digit: the digits before it are padded to one
/// place less.
proof fn lemma_padded_step(n: nat, width: nat)
    requires
        width > 1,
    ensures
        padded(n, width) == padded(n / 10, (width - 1) as nat).push(digit((n % 10) as int)),
{
    lemma_decimal(n);
    lemma_decimal(n / 10);
    let d = digit((n % 10) as int);
    if n < 10 {
        assert(decimal(0).len() == 1);
        assert(padded(n, width) =~= padded(n / 10, (width - 1) as nat).push(d));
    } else {
        assert(decimal(n) == decimal(n / 10).push(d));
        assert(padded(n, width) =~= padded(n / 10, (width - 1) as nat).push(d));
    }
}

/// Appends a number in decimal, with zeros in front up to a width.
pub fn append_padded(out: &mut String, n: u64, width: usize)
    ensures
        final(out)@ == old(out)@ + padded(n as nat, width as nat),
    decreases width,
{
    let ghost before = out@;
    if width <= 1 {
        append_decimal(out, n);
        proof {
            lemma_decimal(n as nat);
        }
    } else {
        append_padded(out, n / 10, width - 1);
        out.push(digit_char(n % 10));
        proof {
            lemma_padded_step(n as nat, width as nat);
        }
        assert(out@ =~= before + padded(n as nat, width as nat));
    }
}

/// The character of a hexadecimal digit, in lower case.
pub open spec fn hex_digit(d: int) -> char {
    if d < 10 {
        (48 + d) as char
    } else {
        (87 + d) as char
    }
}

/// A byte sequence in hexadecimal, two digits for each byte.
pub open spec fn hex(bytes: Seq<u8>) -> Seq<char> {
    Seq::new(
        bytes.len() * 2,
        |i: int|
            hex_digit(
                if i % 2 == 0 {
                    bytes[i / 2] as int / 16
                } else {
                    bytes[i / 2] as int % 16
                },
            ),
    )
}

fn hex_char(d: u8) -> (c: char)
    requires
        d < 16,
    ensures
        c == hex_digit(d as int),
{
    if d < 10 {
        (48 + d) as char
    } else {
        (87 + d) as char
    }
}

/// Writes a byte sequence in hexadecimal.
pub fn hex_string(bytes: &[u8]) -> (out: String)
    ensures
        out@ == hex(bytes@),
{
    let mut out: String = String::new();
    let mut i: usize = 0;
    while i < bytes.len()
        invariant
            i <= bytes@.len(),
            out@ == hex(bytes@.take(i as int)),
        decreases bytes@.len() - i,
    {
        let ghost before = out@;
        let b: u8 = bytes[i];
        out.push(hex_char(b / 16));
        out.push(hex_char(b % 16));
        proof {
            let next = bytes@.take(i + 1);
            assert forall|j: int| 0 <= j < 2 * (i + 1) implies out@[j] == hex(next)[j] by {
                if j < 2 * i {
                    assert(bytes@.take(i as int)[j / 2] == next[j / 2]);
                } else {
                    assert(j / 2 == i);
                }
            }
            assert(out@ =~= hex(next));
        }
        i += 1;
    }
    assert(bytes@.take(i as int) =~= bytes@);
    out
}

/// Distinct byte sequences are written differently.
pub proof fn lemma_hex_distinct(a: Seq<u8>, b: Seq<u8>)
    requires
        hex(a) == hex(b),
    ensures
        a == b,
{
    assert(hex(a).len() == 2 * a.len() && hex(b).len() == 2 * b.len());
    assert forall|i: int| 0 <= i < a.len() implies a[i] == b[i] by {
        assert((2 * i) / 2 == i && (2 * i) % 2 == 0);
        assert((2 * i + 1) / 2 == i && (2 * i + 1) % 2 == 1);
        assert(hex(a)[2 * i] == hex_digit(a[i] as int / 16));
        assert(hex(b)[2 * i] == hex_digit(b[i] as int / 16));
        assert(hex(a)[2 * i + 1] == hex_digit(a[i] as int % 16));
        assert(hex(b)[2 * i + 1] == hex_digit(b[i] as int % 16));
        lemma_hex_digit(a[i] as int / 16, b[i] as int / 16);
        lemma_hex_digit(a[i] as int % 16, b[i] as int % 16);
    }
    assert(a =~= b);
}

proof fn lemma_hex_digit(d: int, e: int)
    requires
        0 <= d < 16,
        0 <= e < 16,
        hex_digit(d) == hex_digit(e),
    ensures
        d == e,
{
    assert(hex_digit(d) as int == if d < 10 { 48 + d } else { 87 + d });
    assert(hex_digit(e) as int == if e < 10 { 48 + e } else { 87 + e });
}

// ---------------------------------------------------------------------------
// White space
// ---------------------------------------------------------------------------

/// The characters with the Unicode property White_Space.
pub open spec fn blank(c: char) -> bool {
    let u = c as u32;
    ||| 0x09 <= u <= 0x0d
    ||| u == 0x20
    ||| u == 0x85
    ||| u == 0xa0
    ||| u == 0x1680
    ||| 0x2000 <= u <= 0x200a
    ||| u == 0x2028
    ||| u == 0x2029
    ||| u == 0x202f
    ||| u == 0x205f
    ||| u == 0x3000
}

/// How many blank characters the text begins with.
pub open spec fn blank_prefix(s: Seq<char>) -> nat
    decreases s.len(),
{
    if s.len() > 0 && blank(s[0]) {
        1 + blank_prefix(s.drop_first())
    } else {
        0
    }
}

/// How many blank characters the text ends with.
pub open spec fn blank_suffix(s: Seq<char>) -> nat
    decreases s.len(),
{
    if s.len() > 0 && blank(s.last()) {
        1 + blank_suffix(s.drop_last())
    } else {
        0
    }
}

/// The text without the blank characters at its ends.
pub open spec fn trimmed(s: Seq<char>) -> Seq<char> {
    let front = s.skip(blank_prefix(s) as int);
    front.take(front.len() - blank_suffix(front))
}

fn is_blank(c: char) -> (b: bool)
    ensures
        b == blank(c),
{
    let u: u32 = c as u32;
    (0x09 <= u && u <= 0x0d) || u == 0x20 || u == 0x85 || u == 0xa0 || u == 0x1680 || (0x2000 <= u
        && u <= 0x200a) || u == 0x2028 || u == 0x2029 || u == 0x202f || u == 0x205f || u == 0x3000
}

/// The characters of a text.
pub fn chars_of(s: &str) -> (v: Vec<char>)
    ensures
        v@ == s@,
{
    let mut v: Vec<char> = Vec::new();
    for c in it: s.chars()
        invariant
            v@ == s@.take(it.index()),
            it.seq() == s@,
    {
        v.push(c);
        assert(v@ =~= s@.take(it.index() + 1));
    }
    assert(v@ =~= s@);
    v
}

/// The text without the blank characters at its ends.
pub fn trim(s: &str) -> (r: &str)
    ensures
        r@ == trimmed(s@),
        r@.len() <= s@.len(),
{
    let cs: Vec<char> = chars_of(s);
    let n: usize = cs.len();
    let mut from: usize = 0;
    assert(s@.skip(0) =~= s@);
    while from < n && is_blank(cs[from])
        invariant
            from <= n,
            n == cs@.len(),
            cs@ == s@,
            blank_prefix(s@) == from + blank_prefix(s@.skip(from as int)),
        decreases n - from,
    {
        assert(s@.skip(from as int).drop_first() =~= s@.skip(from + 1));
        from += 1;
    }
    let ghost front = s@.skip(from as int);
    assert(blank_prefix(front) == 0);
    let mut to: usize = n;
    assert(front.take(front.len() as int) =~= front);
    while to > from && is_blank(cs[to - 1])
        invariant
            from <= to <= n,
            n == cs@.len(),
            cs@ == s@,
            front == s@.skip(from as int),
            blank_suffix(front) == (n - to) + blank_suffix(front.take(to - from)),
        decreases to,
    {
        assert(front.take(to - from).last() == cs@[to - 1]);
        assert(front.take(to - from).drop_last() =~= front.take(to - from - 1));
        to -= 1;
    }
    assert(to > from ==> front.take(to - from).last() == cs@[to - 1]);
    assert(blank_suffix(front.take(to - from)) == 0);
    let r: &str = s.substring_char(from, to);
    assert(r@ =~= trimmed(s@));
    r
}

/// How often a character occurs in a text.
pub open spec fn occurrences(s: Seq<char>, c: char) -> nat
    decreases s.len(),
{
    if s.len() == 0 {
        0
    } else {
        occurrences(s.drop_last(), c) + if s.last() == c {
            1nat
        } else {
            0nat
        }
    }
}

/// A character occurs no more often than the text is long.
pub proof fn lemma_occurrences(s: Seq<char>, c: char)
    ensures
        occurrences(s, c) <= s.len(),
    decreases s.len(),
{
    if s.len() > 0 {
        lemma_occurrences(s.drop_last(), c);
    }
}

/// Counts how often a character occurs in a text.
pub fn count_char(s: &str, c: char) -> (k: usize)
    ensures
        k == occurrences(s@, c),
{
    let cs: Vec<char> = chars_of(s);
    let mut k: usize = 0;
    let mut i: usize = 0;
    while i < cs.len()
        invariant
            k <= i <= cs@.len(),
            k == occurrences(cs@.take(i as int), c),
        decreases cs@.len() - i,
    {
        if cs[i] == c {
            k += 1;
        }
        i += 1;
        assert(cs@.take(i as int).drop_last() =~= cs@.take(i - 1));
    }
    assert(cs@.take(i as int) =~= s@);
    k
}

/// A text is what was trimmed off in front, the trimmed text, and what was
/// trimmed off at the end; what was trimmed off is blank, and the trimmed text
/// neither begins nor ends with a blank character.
pub proof fn law_trimmed(s: Seq<char>)
    ensures
        ({
            let t = trimmed(s);
            let (a, n) = (blank_prefix(s) as int, s.len() as int);
            &&& 0 <= a <= a + t.len() <= n
            &&& t == s.subrange(a, a + t.len())
            &&& forall|i: int| 0 <= i < a ==> blank(#[trigger] s[i])
            &&& forall|i: int| a + t.len() <= i < n ==> blank(#[trigger] s[i])
            &&& t.len() > 0 ==> !blank(t[0]) && !blank(t.last())
        }),
{
    lemma_blank_prefix(s);
    let a = blank_prefix(s) as int;
    let front = s.skip(a);
    lemma_blank_suffix(front);
    let b = blank_suffix(front) as int;
    let t = trimmed(s);
    assert(t =~= s.subrange(a, a + t.len()));
    assert forall|i: int| a + t.len() <= i < s.len() implies blank(#[trigger] s[i]) by {
        assert(front[i - a] == s[i]);
    }
    if t.len() > 0 {
        assert(t[0] == s[a]);
        assert(t.last() == front[front.len() - b - 1]);
    }
}

proof fn lemma_blank_prefix(s: Seq<char>)
    ensures
        blank_prefix(s) <= s.len(),
        forall|i: int| 0 <= i < blank_prefix(s) ==> blank(#[trigger] s[i]),
        blank_prefix(s) < s.len() ==> !blank(s[blank_prefix(s) as int]),
    decreases s.len(),
{
    if s.len() > 0 && blank(s[0]) {
        let t = s.drop_first();
        lemma_blank_prefix(t);
        assert forall|i: int| 0 <= i < blank_prefix(s) implies blank(#[trigger] s[i]) by {
            if i > 0 {
                assert(t[i - 1] == s[i]);
            }
        }
    }
}

proof fn lemma_blank_suffix(s: Seq<char>)
    ensures
        blank_suffix(s) <= s.len(),
        forall|i: int| s.len() - blank_suffix(s) <= i < s.len() ==> blank(#[trigger] s[i]),
        blank_suffix(s) < s.len() ==> !blank(s[s.len() - blank_suffix(s) - 1]),
    decreases s.len(),
{
    if s.len() > 0 && blank(s.last()) {
        let t = s.drop_last();
        lemma_blank_suffix(t);
        assert forall|i: int| s.len() - blank_suffix(s) <= i < s.len() implies blank(
            #[trigger] s[i],
        ) by {
            if i < t.len() {
                assert(t[i] == s[i]);
            }
        }
    }
}

/// Of the characters that numbers are written with none is blank; the space, the
/// tab and what ends a line or a page are.
pub proof fn law_blank(c: char)
    ensures
        blank(' ') && blank('\t') && blank('\n') && blank('\r'),
        (c as u32) < 0x80 ==> (blank(c) <==> 9 <= c as u32 <= 13 || c == ' '),
        0x80 <= c as u32 <= 0x3000 ==> (blank(c) <==> c as u32 == 133 || c as u32 == 160 || c as u32
            == 5760 || 8192 <= c as u32 <= 8202 || c as u32 == 8232 || c as u32 == 8233 || c as u32
            == 8239 || c as u32 == 8287 || c as u32 == 12288),
        0x3001 <= c as u32 ==> !blank(c),
{
}

/// A number in decimal consists of digits, does not begin with a zero unless it
/// is zero, and denotes the number.
pub proof fn law_decimal(n: nat)
    ensures
        decimal(n).len() >= 1,
        forall|i: int| 0 <= i < decimal(n).len() ==> '0' <= (#[trigger] decimal(n)[i]) <= '9',
        decimal(n).len() > 1 ==> decimal(n)[0] != '0',
        n == 0 ==> decimal(n) == seq!['0'],
        denoted(decimal(n)) == n,
    decreases n,
{
    lemma_decimal_denotes(n, 0);
    if n >= 10 {
        law_decimal(n / 10);
        let d = decimal(n / 10);
        assert(decimal(n)[0] == d[0]);
        if d.len() == 1 && d[0] == '0' {
            assert(denoted(d) == n / 10);
            assert(d.drop_last() =~= Seq::<char>::empty());
            assert(denoted(d.drop_last()) == 0);
        }
    }
}

/// The value of a sequence of digits: each digit counts ten times as much as the
/// one after it.
pub proof fn law_denoted(s: Seq<char>, c: char)
    ensures
        denoted(Seq::empty()) == 0,
        denoted(s.push(c)) == 10 * denoted(s) + (c as int - '0' as int),
{
    assert(s.push(c).drop_last() =~= s);
}

/// Padding puts zeros in front of a number, up to the width and no further.
pub proof fn law_padded(n: nat, width: nat)
    ensures
        ({
            let (p, d) = (padded(n, width), decimal(n));
            &&& p.len() == if d.len() >= width {
                d.len()
            } else {
                width
            }
            &&& p.skip(p.len() - d.len()) == d
            &&& forall|i: int| 0 <= i < p.len() - d.len() ==> (#[trigger] p[i]) == '0'
        }),
{
    let (p, d) = (padded(n, width), decimal(n));
    assert(p.skip(p.len() - d.len()) =~= d);
}

/// A byte is written as two digits, each in `0` to `9` or `a` to `f`, the first
/// one counting sixteen times as much as the second one.
pub proof fn law_hex(bytes: Seq<u8>, i: int)
    requires
        0 <= i < bytes.len(),
    ensures
        hex(bytes).len() == 2 * bytes.len(),
        bytes[i] == 16 * hex_value(hex(bytes)[2 * i]) + hex_value(hex(bytes)[2 * i + 1]),
        ({
            let (a, b) = (hex(bytes)[2 * i], hex(bytes)[2 * i + 1]);
            ('0' <= a <= '9' || 'a' <= a <= 'f') && ('0' <= b <= '9' || 'a' <= b <= 'f')
        }),
{
    assert(2 * i / 2 == i && (2 * i + 1) / 2 == i && (2 * i) % 2 == 0 && (2 * i + 1) % 2 == 1);
}

/// The value of a hexadecimal digit.
pub open spec fn hex_value(c: char) -> int {
    if c <= '9' {
        c as int - '0' as int
    } else {
        c as int - 'a' as int + 10
    }
}

/// A character is counted as often as it occurs.
pub proof fn law_occurrences(s: Seq<char>, c: char)
    ensures
        occurrences(s, c) == s.to_multiset().count(c),
    decreases s.len(),
{
    broadcast use vstd::seq_lib::group_to_multiset_ensures;

    if s.len() > 0 {
        law_occurrences(s.drop_last(), c);
        assert(s =~= s.drop_last().push(s.last()));
    }
}

} // verus!
