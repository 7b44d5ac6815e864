//! Decimal and comma-grouped number text, and joined label text.

use vstd::prelude::*;
use vstd::string::{StrSliceExecFns, StringExecFns};
use crate::label::Label;

verus! {

/// The decimal digit for `d < 10`.
pub open spec fn digit_char(d: nat) -> char {
    if d == 0 {
        '0'
    } else if d == 1 {
        '1'
    } else if d == 2 {
        '2'
    } else if d == 3 {
        '3'
    } else if d == 4 {
        '4'
    } else if d == 5 {
        '5'
    } else if d == 6 {
        '6'
    } else if d == 7 {
        '7'
    } else if d == 8 {
        '8'
    } else {
        '9'
    }
}

/// The decimal digits of `n`, most significant first.
pub open spec fn dec(n: nat) -> Seq<char>
    decreases n,
{
    if n < 10 {
        seq![digit_char(n)]
    } else {
        dec(n / 10).push(digit_char(n % 10))
    }
}

/// The text `d` with a comma before each group of three characters,
/// counted from the right, where the comma's position exceeds `lim`.
pub open spec fn grouped(d: Seq<char>, lim: int) -> Seq<char>
    decreases d.len(),
{
    if d.len() >= 3 && d.len() - 3 > lim {
        grouped(d.subrange(0, d.len() - 3), lim).push(',') + d.subrange(d.len() - 3, d.len() as int)
    } else {
        d
    }
}

/// The position of the first `c` in `s`, or the length of `s`.
pub open spec fn pos_of(s: Seq<char>, c: char) -> int
    decreases s.len(),
{
    if s.len() == 0 {
        0
    } else if s[0] == c {
        0
    } else {
        1 + pos_of(s.drop_first(), c)
    }
}

/// A number's text with commas in the integer part: before each group of
/// three digits left of the decimal point, and never right after a sign.
pub open spec fn num_text(s: Seq<char>) -> Seq<char> {
    let p = pos_of(s, '.');
    let lim: int = if s.contains('-') { 1 } else { 0 };
    grouped(s.subrange(0, p), lim) + s.subrange(p, s.len() as int)
}

/// The texts of `s`, with `sep` between each two.
pub open spec fn joined<L: Label>(s: Seq<L>, sep: char) -> Seq<char>
    decreases s.len(),
{
    if s.len() == 0 {
        Seq::empty()
    } else if s.len() == 1 {
        s[0].text()
    } else {
        joined(s.drop_last(), sep).push(sep) + s.last().text()
    }
}

/// Relies on `String::push`: the character is appended at the end.
#[verifier::external_body]
fn push_char(s: &mut String, c: char)
    ensures
        final(s)@ == old(s)@.push(c),
{
    s.push(c)
}

fn digit(d: u64) -> (r: char)
    requires
        d < 10,
    ensures
        r == digit_char(d as nat),
{
    if d == 0 {
        '0'
    } else if d == 1 {
        '1'
    } else if d == 2 {
        '2'
    } else if d == 3 {
        '3'
    } else if d == 4 {
        '4'
    } else if d == 5 {
        '5'
    } else if d == 6 {
        '6'
    } else if d == 7 {
        '7'
    } else if d == 8 {
        '8'
    } else {
        '9'
    }
}

/// Returns the decimal digits of `n`.
pub fn digits(n: u64) -> (r: Vec<char>)
    ensures
        r@ == dec(n as nat),
    decreases n,
{
    if n < 10 {
        let mut r: Vec<char> = Vec::new();
        r.push(digit(n));
        assert(r@ =~= seq![digit_char(n as nat)]);
        r
    } else {
        let mut r = digits(n / 10);
        r.push(digit(n % 10));
        r
    }
}

/// Appends the characters of `cs` from `lo` up to `hi` to `s`.
fn push_chars(s: &mut String, cs: &Vec<char>, lo: usize, hi: usize)
    requires
        lo <= hi <= cs@.len(),
    ensures
        final(s)@ == old(s)@ + cs@.subrange(lo as int, hi as int),
{
    let ghost s0 = s@;
    let mut i = lo;
    while i < hi
        invariant
            lo <= i <= hi <= cs@.len(),
            s@ == s0 + cs@.subrange(lo as int, i as int),
        decreases hi - i,
    {
        push_char(s, cs[i]);
        i += 1;
        assert(s@ =~= s0 + cs@.subrange(lo as int, i as int));
    }
}

/// Returns the decimal text of `n`.
pub fn dec_string(n: u64) -> (r: String)
    ensures
        r@ == dec(n as nat),
{
    let d = digits(n);
    let mut s = String::new();
    push_chars(&mut s, &d, 0, d.len());
    assert(d@.subrange(0, d@.len() as int) =~= d@);
    assert(s@ =~= d@);
    s
}

fn grouped_prefix(d: &Vec<char>, end: usize, lim: usize) -> (r: String)
    requires
        end <= d@.len(),
    ensures
        r@ == grouped(d@.subrange(0, end as int), lim as int),
    decreases end,
{
    let ghost p = d@.subrange(0, end as int);
    if end < 3 || end - 3 <= lim {
        let mut s = String::new();
        push_chars(&mut s, d, 0, end);
        assert(s@ =~= p);
        s
    } else {
        let mut s = grouped_prefix(d, end - 3, lim);
        push_char(&mut s, ',');
        push_chars(&mut s, d, end - 3, end);
        assert(p.subrange(0, p.len() - 3) =~= d@.subrange(0, end - 3));
        assert(p.subrange(p.len() - 3, p.len() as int) =~= d@.subrange(end - 3, end as int));
        s
    }
}

/// Formats a number with a comma between each group of three digits.
pub fn fmt_num(n: u64) -> (r: String)
    ensures
        r@ == grouped(dec(n as nat), 0),
{
    let d = digits(n);
    let r = grouped_prefix(&d, d.len(), 0);
    assert(d@.subrange(0, d@.len() as int) =~= d@);
    r
}

/// The characters of a text.
fn text_chars(s: &str) -> (r: Vec<char>)
    ensures
        r@ == s@,
{
    let n = s.unicode_len();
    let mut r: Vec<char> = Vec::with_capacity(n);
    let mut i: usize = 0;
    while i < n
        invariant
            n == s@.len(),
            i <= n,
            r@ == s@.subrange(0, i as int),
        decreases n - i,
    {
        r.push(s.get_char(i));
        i += 1;
        assert(r@ =~= s@.subrange(0, i as int));
    }
    assert(r@ =~= s@);
    r
}

/// Returns the position of the first `c` in `cs`, or its length.
fn find_char(cs: &Vec<char>, c: char) -> (r: usize)
    ensures
        r as int == pos_of(cs@, c),
{
    let mut i: usize = 0;
    assert(cs@.subrange(0, cs@.len() as int) =~= cs@);
    while i < cs.len()
        invariant
            i <= cs@.len(),
            pos_of(cs@, c) == i + pos_of(cs@.subrange(i as int, cs@.len() as int), c),
        decreases cs@.len() - i,
    {
        let ghost rest = cs@.subrange(i as int, cs@.len() as int);
        assert(rest[0] == cs@[i as int]);
        if cs[i] == c {
            return i;
        }
        assert(rest.drop_first() =~= cs@.subrange(i + 1, cs@.len() as int));
        i += 1;
    }
    i
}

/// Formats the text of a number, which may have a sign and a decimal
/// part, with a comma between each group of three digits of its integer
/// part.
pub fn fmt_num_text(s: &str) -> (r: String)
    ensures
        r@ == num_text(s@),
{
    let cs = text_chars(s);
    let p = find_char(&cs, '.');
    let m = find_char(&cs, '-');
    proof {
        if m < cs@.len() {
            lemma_pos_of_found(cs@, '-');
        } else {
            lemma_pos_of_absent(cs@, '-');
        }
        lemma_pos_of_bound(cs@, '.');
    }
    let lim: usize = if m < cs.len() { 1 } else { 0 };
    let mut r = grouped_prefix(&cs, p, lim);
    push_chars(&mut r, &cs, p, cs.len());
    r
}

proof fn lemma_pos_of_bound(s: Seq<char>, c: char)
    ensures
        0 <= pos_of(s, c) <= s.len(),
    decreases s.len(),
{
    if s.len() > 0 && s[0] != c {
        lemma_pos_of_bound(s.drop_first(), c);
    }
}

proof fn lemma_pos_of_found(s: Seq<char>, c: char)
    requires
        pos_of(s, c) < s.len(),
    ensures
        s.contains(c),
    decreases s.len(),
{
    if s[0] == c {
        assert(s[0] == c);
    } else {
        lemma_pos_of_found(s.drop_first(), c);
        let k = choose|k: int| 0 <= k < s.drop_first().len() && s.drop_first()[k] == c;
        assert(s[k + 1] == c);
    }
}

proof fn lemma_pos_of_absent(s: Seq<char>, c: char)
    requires
        pos_of(s, c) >= s.len(),
    ensures
        !s.contains(c),
    decreases s.len(),
{
    lemma_pos_of_bound(s, c);
    if s.len() > 0 {
        lemma_pos_of_absent(s.drop_first(), c);
        if s.contains(c) {
            let k = choose|k: int| 0 <= k < s.len() && s[k] == c;
            if k > 0 {
                assert(s.drop_first()[k - 1] == c);
            }
        }
    }
}

/// Joins the labels' texts, with `sep` (a comma by default) between each two.
pub fn join<L: Label>(lbls: &Vec<L>, sep: Option<char>) -> (r: String)
    ensures
        r@ == joined(lbls@, match sep { Some(c) => c, None => ',' }),
{
    let c = match sep {
        Some(c) => c,
        None => ',',
    };
    let mut s = String::new();
    let mut i: usize = 0;
    while i < lbls.len()
        invariant
            i <= lbls@.len(),
            c == match sep { Some(c) => c, None => ',' },
            s@ == joined(lbls@.subrange(0, i as int), c),
        decreases lbls@.len() - i,
    {
        let ghost pre = lbls@.subrange(0, i as int);
        if i > 0 {
            push_char(&mut s, c);
        }
        let t = lbls[i].to_text();
        s.append(t.as_str());
        i += 1;
        let ghost cur = lbls@.subrange(0, i as int);
        assert(cur.drop_last() =~= pre);
        if i == 1 {
            assert(s@ =~= cur[0].text());
        }
    }
    assert(lbls@.subrange(0, lbls@.len() as int) =~= lbls@);
    s
}

} // verus!
