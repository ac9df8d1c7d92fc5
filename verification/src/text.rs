//! Text helpers: decimal rendering of integers and building strings from
//! characters.

use vstd::prelude::*;

verus! {

/// The character of decimal digit `d`.
pub open spec fn digit_char(d: nat) -> char {
    ((48 + d) as u32) as char
}

/// The decimal representation of `n`, without leading zeros.
pub open spec fn decimal(n: nat) -> Seq<char>
    decreases n,
{
    if n < 10 {
        seq![digit_char(n)]
    } else {
        decimal(n / 10).push(digit_char(n % 10))
    }
}

/// Appends `c` (`String::push`).
#[verifier::external_body]
pub(crate) fn push_char(s: &mut String, c: char)
    ensures
        final(s)@ == old(s)@.push(c),
{
    s.push(c)
}

/// The `Debug` rendering of a value (`format!("{:?}")`). What the rendering
/// is depends on the value's type and is not stated.
#[verifier::external_body]
pub(crate) fn debug_text<E: std::fmt::Debug>(e: &E) -> String {
    format!("{:?}", e)
}

/// A string holding the characters of `chars`.
pub fn string_from_chars(chars: &Vec<char>) -> (s: String)
    ensures
        s@ == chars@,
{
    let mut s = String::new();
    let mut k: usize = 0;
    while k < chars.len()
        invariant
            k <= chars.len(),
            s@ == chars@.take(k as int),
        decreases chars.len() - k,
    {
        push_char(&mut s, chars[k]);
        k = k + 1;
        assert(chars@.take(k as int) == chars@.take(k - 1).push(chars@[k - 1]));
    }
    assert(chars@.take(chars.len() as int) == chars@);
    s
}

/// What divides a text into pieces.
#[derive(Clone, Copy, PartialEq, Eq, Structural, Debug)]
pub enum Separator {
    /// The `/` character.
    Slash,
    /// Unicode white space (`char::is_whitespace`).
    Space,
}

/// Whether `c` has the Unicode `White_Space` property.
pub open spec fn is_white_space(c: char) -> bool {
    let n = c as u32;
    ||| 0x9 <= n <= 0xD
    ||| n == 0x20
    ||| n == 0x85
    ||| n == 0xA0
    ||| n == 0x1680
    ||| 0x2000 <= n <= 0x200A
    ||| n == 0x2028
    ||| n == 0x2029
    ||| n == 0x202F
    ||| n == 0x205F
    ||| n == 0x3000
}

/// Whether `c` divides pieces under `sep`.
pub open spec fn separates(sep: Separator, c: char) -> bool {
    match sep {
        Separator::Slash => c == '/',
        Separator::Space => is_white_space(c),
    }
}

/// The maximal runs of characters of `s` that `sep` does not separate, in
/// order (the non-empty pieces between separators).
pub open spec fn pieces(s: Seq<char>, sep: Separator) -> Seq<Seq<char>>
    decreases s.len(),
{
    if s.len() == 0 {
        seq![]
    } else if separates(sep, s.last()) {
        pieces(s.drop_last(), sep)
    } else if s.len() == 1 || separates(sep, s[s.len() - 2]) {
        pieces(s.drop_last(), sep).push(seq![s.last()])
    } else {
        let p = pieces(s.drop_last(), sep);
        p.update(p.len() - 1, p.last().push(s.last()))
    }
}

/// Whether `c` divides pieces under `sep`.
pub fn is_separator(sep: Separator, c: char) -> (r: bool)
    ensures
        r == separates(sep, c),
{
    match sep {
        Separator::Slash => c == '/',
        Separator::Space => {
            let n = c as u32;
            (0x9 <= n && n <= 0xD) || n == 0x20 || n == 0x85 || n == 0xA0 || n == 0x1680 || (0x2000
                <= n && n <= 0x200A) || n == 0x2028 || n == 0x2029 || n == 0x202F || n == 0x205F
                || n == 0x3000
        },
    }
}

/// The pieces collected so far, with the one being read (if any) last.
spec fn pending_pieces(done: Seq<Seq<char>>, cur: Seq<char>) -> Seq<Seq<char>> {
    if cur.len() == 0 {
        done
    } else {
        done.push(cur)
    }
}

/// The pieces of `chars` under `sep`, each as its characters.
pub fn split_pieces(chars: &Vec<char>, sep: Separator) -> (r: Vec<Vec<char>>)
    ensures
        r@.map_values(|v: Vec<char>| v@) == pieces(chars@, sep),
{
    let mut done: Vec<Vec<char>> = Vec::new();
    let mut cur: Vec<char> = Vec::new();
    let mut i: usize = 0;
    while i < chars.len()
        invariant
            i <= chars.len(),
            pending_pieces(done@.map_values(|v: Vec<char>| v@), cur@) == pieces(
                chars@.take(i as int),
                sep,
            ),
            (cur@.len() == 0) == (i == 0 || separates(sep, chars@[i - 1])),
        decreases chars.len() - i,
    {
        let c = chars[i];
        let ghost t = chars@.take(i + 1);
        assert(t.drop_last() == chars@.take(i as int));
        let ghost before = done@.map_values(|v: Vec<char>| v@);
        if is_separator(sep, c) {
            if cur.len() > 0 {
                let mut piece: Vec<char> = Vec::new();
                std::mem::swap(&mut piece, &mut cur);
                done.push(piece);
                assert(done@.map_values(|v: Vec<char>| v@) =~= before.push(piece@));
            }
        } else {
            let ghost old_cur = cur@;
            let reading = cur.len() > 0;
            cur.push(c);
            if reading {
                assert(i >= 1 && !separates(sep, chars@[i - 1]));
                assert(t[t.len() - 2] == chars@[i - 1]);
                assert(cur@ == old_cur.push(c));
                assert(before.push(old_cur).update(before.len() as int, old_cur.push(c)) =~= before.push(cur@));
            } else {
                assert(cur@ =~= seq![c]);
            }
        }
        i = i + 1;
    }
    assert(chars@.take(chars.len() as int) == chars@);
    if cur.len() > 0 {
        let ghost before = done@.map_values(|v: Vec<char>| v@);
        done.push(cur);
        assert(done@.map_values(|v: Vec<char>| v@) =~= pending_pieces(before, cur@));
    }
    done
}

/// Whether `a` and `b` hold the same characters.
pub fn same_chars(a: &Vec<char>, b: &Vec<char>) -> (r: bool)
    ensures
        r == (a@ == b@),
{
    if a.len() != b.len() {
        return false;
    }
    let mut k: usize = 0;
    while k < a.len()
        invariant
            k <= a.len(),
            a.len() == b.len(),
            a@.take(k as int) == b@.take(k as int),
        decreases a.len() - k,
    {
        if a[k] != b[k] {
            assert(a@[k as int] != b@[k as int]);
            return false;
        }
        assert(a@.take(k + 1) == a@.take(k as int).push(a@[k as int]));
        assert(b@.take(k + 1) == b@.take(k as int).push(b@[k as int]));
        k = k + 1;
    }
    assert(a@ == a@.take(a.len() as int));
    assert(b@ == b@.take(b.len() as int));
    true
}

/// A string holding the characters of `chars` from `start` up to `end`.
pub fn string_between(chars: &Vec<char>, start: usize, end: usize) -> (s: String)
    requires
        start <= end <= chars.len(),
    ensures
        s@ == chars@.subrange(start as int, end as int),
{
    let mut s = String::new();
    let mut k: usize = start;
    while k < end
        invariant
            start <= k <= end <= chars.len(),
            s@ == chars@.subrange(start as int, k as int),
        decreases end - k,
    {
        push_char(&mut s, chars[k]);
        k = k + 1;
        assert(chars@.subrange(start as int, k as int) == chars@.subrange(start as int, k - 1).push(chars@[k - 1]));
    }
    s
}

/// A string holding the characters of `chars` from position `start` on.
pub fn string_after(chars: &Vec<char>, start: usize) -> (s: String)
    requires
        start <= chars.len(),
    ensures
        s@ == chars@.skip(start as int),
{
    let mut s = String::new();
    let mut k: usize = start;
    while k < chars.len()
        invariant
            start <= k <= chars.len(),
            s@ == chars@.subrange(start as int, k as int),
        decreases chars.len() - k,
    {
        push_char(&mut s, chars[k]);
        k = k + 1;
        assert(chars@.subrange(start as int, k as int) == chars@.subrange(start as int, k - 1).push(chars@[k - 1]));
    }
    assert(chars@.subrange(start as int, chars.len() as int) == chars@.skip(start as int));
    s
}

/// The characters of `s`.
pub fn chars_of(s: &str) -> (v: Vec<char>)
    ensures
        v@ == s@,
{
    let mut v: Vec<char> = Vec::new();
    for c in it: s.chars()
        invariant
            v@ == it.seq().take(it.index() as int),
    {
        v.push(c);
    }
    v
}

/// The character of decimal digit `d`.
pub fn digit(d: u64) -> (c: char)
    requires
        d < 10,
    ensures
        c == digit_char(d as nat),
{
    match d {
        0 => '0',
        1 => '1',
        2 => '2',
        3 => '3',
        4 => '4',
        5 => '5',
        6 => '6',
        7 => '7',
        8 => '8',
        _ => '9',
    }
}

/// Appends the decimal representation of `n` to `s`.
pub fn push_decimal(s: &mut String, n: u64)
    ensures
        final(s)@ == old(s)@ + decimal(n as nat),
    decreases n,
{
    if n >= 10 {
        push_decimal(s, n / 10);
    }
    push_char(s, digit(n % 10));
    proof {
        if n >= 10 {
            assert(decimal(n as nat) == decimal((n / 10) as nat).push(digit_char((n % 10) as nat)));
        }
    }
    assert(s@ =~= old(s)@ + decimal(n as nat));
}

/// The decimal representation of `n`.
pub fn decimal_string(n: u64) -> (s: String)
    ensures
        s@ == decimal(n as nat),
{
    let mut s = String::new();
    push_decimal(&mut s, n);
    assert(s@ =~= decimal(n as nat));
    s
}

} // verus!
