//! Text rendering helpers: decimal numbers, padding and truncation.
use vstd::prelude::*;

verus! {

/// The character of the decimal digit `d` (`d < 10`).
pub open spec fn digit_char(d: nat) -> char {
    (48 + d) as char
}

/// Decimal representation of a natural number, without sign or leading zeros.
pub open spec fn dec(n: nat) -> Seq<char>
    decreases n,
{
    if n < 10 {
        seq![digit_char(n)]
    } else {
        dec(n / 10).push(digit_char(n % 10))
    }
}

/// Decimal representation of an integer, with a leading `-` when negative.
pub open spec fn dec_int(i: int) -> Seq<char> {
    if i < 0 {
        seq!['-'] + dec((-i) as nat)
    } else {
        dec(i as nat)
    }
}

/// `n` copies of the space character.
pub open spec fn spaces(n: nat) -> Seq<char> {
    Seq::new(n, |i: int| ' ')
}

/// `s` followed by spaces up to `width` characters.
pub open spec fn pad_end(s: Seq<char>, width: nat) -> Seq<char> {
    if s.len() >= width {
        s
    } else {
        s + spaces((width - s.len()) as nat)
    }
}

/// `s` preceded by spaces up to `width` characters.
pub open spec fn pad_start(s: Seq<char>, width: nat) -> Seq<char> {
    if s.len() >= width {
        s
    } else {
        spaces((width - s.len()) as nat) + s
    }
}

/// Number of bytes of the UTF-8 encoding of `c`.
pub open spec fn utf8_width(c: char) -> nat {
    if (c as u32) < 0x80 {
        1
    } else if (c as u32) < 0x800 {
        2
    } else if (c as u32) < 0x10000 {
        3
    } else {
        4
    }
}

/// Number of bytes of the UTF-8 encoding of `s`.
pub open spec fn utf8_len(s: Seq<char>) -> nat
    decreases s.len(),
{
    if s.len() == 0 {
        0
    } else {
        utf8_len(s.drop_last()) + utf8_width(s.last())
    }
}

/// Byte offset `b` of the encoding of `s` is the end of the string or
/// falls between two characters.
pub open spec fn is_char_boundary(s: Seq<char>, b: nat) -> bool {
    b >= utf8_len(s) || exists|k: int| 0 <= k <= s.len() && utf8_len(#[trigger] s.take(k)) == b
}

/// The longest prefix of `s` whose encoding has at most `b` bytes.
pub open spec fn truncate_bytes(s: Seq<char>, b: nat) -> Seq<char>
    decreases s.len(),
{
    if utf8_len(s) <= b {
        s
    } else {
        truncate_bytes(s.drop_last(), b)
    }
}

/// Appends one character to a string.
#[verifier::external_body]
pub fn push_char(s: &mut String, c: char)
    ensures
        final(s)@ == old(s)@.push(c),
{
    s.push(c)
}

/// Appends the characters of `t` to `s`.
pub fn push_str_chars(s: &mut String, t: &Vec<char>)
    ensures
        final(s)@ == old(s)@ + t@,
{
    let mut i: usize = 0;
    while i < t.len()
        invariant
            i <= t.len(),
            s@ == old(s)@ + t@.take(i as int),
        decreases t.len() - i,
    {
        push_char(s, t[i]);
        assert(t@.take(i as int).push(t@[i as int]) == t@.take(i as int + 1));
        i = i + 1;
    }
    assert(t@.take(t.len() as int) == t@);
}

/// The characters of a string slice.
pub fn str_chars(s: &str) -> (res: Vec<char>)
    ensures
        res@ == s@,
{
    let mut res: Vec<char> = Vec::new();
    for c in it: s.chars()
        invariant
            res@ == it.seq().take(it.index() as int),
            it.seq() == s@,
    {
        res.push(c);
    }
    res
}

/// The decimal digits of `n`.
pub fn dec_chars(n: u64) -> (res: Vec<char>)
    ensures
        res@ == dec(n as nat),
    decreases n,
{
    if n < 10 {
        let c = ((48 + n) as u8) as char;
        let mut v: Vec<char> = Vec::new();
        v.push(c);
        proof {
            assert(v@ =~= seq![digit_char(n as nat)]);
        }
        v
    } else {
        let mut v = dec_chars(n / 10);
        let d: u64 = n % 10;
        let c = ((48 + d) as u8) as char;
        v.push(c);
        v
    }
}

/// Appends `n` spaces.
pub fn push_spaces(s: &mut String, n: usize)
    ensures
        final(s)@ == old(s)@ + spaces(n as nat),
{
    let mut i: usize = 0;
    while i < n
        invariant
            i <= n,
            s@ == old(s)@ + spaces(i as nat),
        decreases n - i,
    {
        push_char(s, ' ');
        assert(spaces(i as nat).push(' ') =~= spaces((i + 1) as nat));
        i = i + 1;
    }
}

/// `s` padded with spaces at the end to `width` characters.
pub fn padded_end(s: &Vec<char>, width: usize) -> (res: String)
    ensures
        res@ == pad_end(s@, width as nat),
{
    let mut r = String::new();
    push_str_chars(&mut r, s);
    if s.len() < width {
        push_spaces(&mut r, width - s.len());
    }
    r
}

/// `s` padded with spaces at the start to `width` characters.
pub fn padded_start(s: &Vec<char>, width: usize) -> (res: String)
    ensures
        res@ == pad_start(s@, width as nat),
{
    let mut r = String::new();
    if s.len() < width {
        push_spaces(&mut r, width - s.len());
    }
    push_str_chars(&mut r, s);
    r
}

/// The characters of the decimal representation of `i`, with `-` when negative.
pub fn dec_int_chars(i: i64) -> (res: Vec<char>)
    ensures
        res@ == dec_int(i as int),
{
    if i < 0 {
        let m: u64 = if i == i64::MIN {
            9223372036854775808u64
        } else {
            (-i) as u64
        };
        let d = dec_chars(m);
        let mut v: Vec<char> = Vec::new();
        v.push('-');
        let mut k: usize = 0;
        while k < d.len()
            invariant
                k <= d@.len(),
                v@ == seq!['-'] + d@.take(k as int),
            decreases d@.len() - k,
        {
            v.push(d[k]);
            proof {
                assert(d@.take(k as int + 1) =~= d@.take(k as int).push(d@[k as int]));
            }
            k = k + 1;
        }
        proof {
            assert(d@.take(d@.len() as int) =~= d@);
        }
        v
    } else {
        dec_chars(i as u64)
    }
}

/// Number of bytes of the UTF-8 encoding of `c`.
fn utf8_width_of(c: char) -> (res: usize)
    ensures
        res == utf8_width(c),
{
    let u = c as u32;
    if u < 0x80 {
        1
    } else if u < 0x800 {
        2
    } else if u < 0x10000 {
        3
    } else {
        4
    }
}

proof fn lemma_utf8_prefix(s: Seq<char>, k: int)
    requires
        0 <= k < s.len(),
    ensures
        utf8_len(s.take(k + 1)) == utf8_len(s.take(k)) + utf8_width(s[k]),
{
    assert(s.take(k + 1).drop_last() =~= s.take(k));
}

proof fn lemma_utf8_prefix_le(s: Seq<char>, k: int)
    requires
        0 <= k <= s.len(),
    ensures
        utf8_len(s.take(k)) <= utf8_len(s),
    decreases s.len() - k,
{
    if k < s.len() {
        lemma_utf8_prefix(s, k);
        lemma_utf8_prefix_le(s, k + 1);
    } else {
        assert(s.take(k) =~= s);
    }
}

/// The longest prefix within `b` bytes is the prefix `k` whose encoding
/// fits and that the next character would overflow.
proof fn lemma_truncate_at(s: Seq<char>, b: nat, k: int)
    requires
        0 <= k <= s.len(),
        utf8_len(s.take(k)) <= b,
        k < s.len() ==> utf8_len(s.take(k + 1)) > b,
    ensures
        truncate_bytes(s, b) == s.take(k),
    decreases s.len(),
{
    if utf8_len(s) <= b {
        if k < s.len() {
            lemma_utf8_prefix_le(s, k + 1);
        }
        assert(s.take(k) =~= s);
    } else {
        if k == s.len() {
            assert(s.take(k) =~= s);
        }
        let t = s.drop_last();
        assert(t.take(k) =~= s.take(k));
        if k < t.len() {
            assert(t.take(k + 1) =~= s.take(k + 1));
        }
        lemma_truncate_at(t, b, k);
    }
}

/// The longest prefix of `s` whose UTF-8 encoding has at most `b` bytes.
pub fn truncated(s: &Vec<char>, b: usize) -> (res: Vec<char>)
    ensures
        res@ == truncate_bytes(s@, b as nat),
{
    let mut res: Vec<char> = Vec::new();
    let mut used: usize = 0;
    let mut k: usize = 0;
    while k < s.len()
        invariant
            k <= s@.len(),
            res@ == s@.take(k as int),
            used == utf8_len(s@.take(k as int)),
            used <= b,
        decreases s@.len() - k,
    {
        let w = utf8_width_of(s[k]);
        proof {
            lemma_utf8_prefix(s@, k as int);
        }
        if w > b - used {
            proof {
                lemma_truncate_at(s@, b as nat, k as int);
            }
            return res;
        }
        res.push(s[k]);
        used = used + w;
        proof {
            assert(s@.take(k as int + 1) =~= s@.take(k as int).push(s@[k as int]));
        }
        k = k + 1;
    }
    proof {
        lemma_truncate_at(s@, b as nat, k as int);
    }
    res
}

/// The characters of a string.
pub fn string_chars(s: &String) -> (res: Vec<char>)
    ensures
        res@ == s@,
{
    str_chars(s.as_str())
}

} // verus!
