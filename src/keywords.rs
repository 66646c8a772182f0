//! Splitting a query into keywords.

use vstd::prelude::*;

verus! {

/// Unicode's White_Space property, as `char::is_whitespace` reads it.
pub open spec fn whitespace(c: char) -> bool {
    let u = c as u32;
    (0x9 <= u <= 0xd) || u == 0x20 || u == 0x85 || u == 0xa0 || u == 0x1680 || (0x2000 <= u
        <= 0x200a) || u == 0x2028 || u == 0x2029 || u == 0x202f || u == 0x205f || u == 0x3000
}

/// Whether `c` is white space.
pub fn is_whitespace(c: char) -> (r: bool)
    ensures
        r == whitespace(c),
{
    let u: u32 = c as u32;
    (0x9 <= u && u <= 0xd) || u == 0x20 || u == 0x85 || u == 0xa0 || u == 0x1680 || (0x2000 <= u
        && u <= 0x200a) || u == 0x2028 || u == 0x2029 || u == 0x202f || u == 0x205f || u == 0x3000
}

/// Relies on `String`'s `FromIterator<&char>`: the characters, in order.
#[verifier::external_body]
fn string_of(chars: &Vec<char>) -> (r: String)
    ensures
        r@ == chars@,
{
    String::from_iter(chars.iter())
}

/// Keywords are separated by commas and spaces.
pub open spec fn is_separator(c: char) -> bool {
    c == ',' || c == ' '
}

/// The pieces of `s` between separators, empty ones included.
pub open spec fn pieces(s: Seq<char>) -> Seq<Seq<char>>
    decreases s.len(),
{
    if s.len() == 0 {
        seq![Seq::empty()]
    } else {
        let ps = pieces(s.drop_last());
        if is_separator(s.last()) {
            ps.push(Seq::empty())
        } else {
            ps.update(ps.len() - 1, ps.last().push(s.last()))
        }
    }
}

/// `p` without leading whitespace.
pub open spec fn trim_start(p: Seq<char>) -> Seq<char>
    decreases p.len(),
{
    if p.len() > 0 && whitespace(p[0]) {
        trim_start(p.drop_first())
    } else {
        p
    }
}

/// `p` without trailing whitespace.
pub open spec fn trim_end(p: Seq<char>) -> Seq<char>
    decreases p.len(),
{
    if p.len() > 0 && whitespace(p.last()) {
        trim_end(p.drop_last())
    } else {
        p
    }
}

/// `p` without whitespace at either end.
pub open spec fn trim(p: Seq<char>) -> Seq<char> {
    trim_end(trim_start(p))
}

/// The trimmed pieces that are not empty, in order.
pub open spec fn kept_words(ps: Seq<Seq<char>>) -> Seq<Seq<char>>
    decreases ps.len(),
{
    if ps.len() == 0 {
        Seq::empty()
    } else {
        let w = trim(ps.last());
        if w.len() == 0 {
            kept_words(ps.drop_last())
        } else {
            kept_words(ps.drop_last()).push(w)
        }
    }
}

/// The keywords of a query: its pieces between commas and spaces, trimmed,
/// empty ones left out.
pub open spec fn keywords_of(s: Seq<char>) -> Seq<Seq<char>> {
    kept_words(pieces(s))
}

/// The views of a list of strings.
pub open spec fn views(v: Seq<String>) -> Seq<Seq<char>> {
    v.map_values(|s: String| s@)
}

/// `p` trimmed of whitespace at both ends.
fn trimmed(p: &Vec<char>) -> (r: Vec<char>)
    ensures
        r@ == trim(p@),
{
    let mut a: usize = 0;
    assert(p@.subrange(0, p@.len() as int) == p@);
    while a < p.len() && is_whitespace(p[a])
        invariant
            a <= p.len(),
            trim_start(p@) == trim_start(p@.subrange(a as int, p@.len() as int)),
        decreases p.len() - a,
    {
        assert(p@.subrange(a as int, p@.len() as int).drop_first() == p@.subrange(a + 1, p@.len() as int));
        a += 1;
    }
    let ghost mid = p@.subrange(a as int, p@.len() as int);
    assert(trim_start(mid) == mid);
    let mut b: usize = p.len();
    assert(trim_start(p@) == mid);
    while b > a && is_whitespace(p[b - 1])
        invariant
            a <= b <= p.len(),
            mid == p@.subrange(a as int, p@.len() as int),
            trim_end(mid) == trim_end(p@.subrange(a as int, b as int)),
        decreases b,
    {
        assert(p@.subrange(a as int, b as int).drop_last() == p@.subrange(a as int, b - 1));
        b -= 1;
    }
    assert(trim(p@) == p@.subrange(a as int, b as int));
    let mut r: Vec<char> = Vec::new();
    let mut i: usize = a;
    while i < b
        invariant
            a <= i <= b,
            b <= p.len(),
            r@ == p@.subrange(a as int, i as int),
        decreases b - i,
    {
        r.push(p[i]);
        i += 1;
        assert(r@ == p@.subrange(a as int, i as int));
    }
    r
}

/// Splits a query at commas and spaces into trimmed, non-empty keywords.
pub fn split_keywords(s: &str) -> (r: Vec<String>)
    ensures
        views(r@) == keywords_of(s@),
{
    let n: usize = s.unicode_len();
    let mut out: Vec<String> = Vec::new();
    let mut cur: Vec<char> = Vec::new();
    let mut i: usize = 0;
    assert(s@.take(0) =~= Seq::<char>::empty());
    assert(views(out@) =~= kept_words(pieces(s@.take(0)).drop_last()));
    while i < n
        invariant
            n == s@.len(),
            i <= n,
            pieces(s@.take(i as int)).len() >= 1,
            cur@ == pieces(s@.take(i as int)).last(),
            views(out@) == kept_words(pieces(s@.take(i as int)).drop_last()),
        decreases n - i,
    {
        let c = s.get_char(i);
        let ghost before = pieces(s@.take(i as int));
        let ghost old_out = out@;
        assert(s@.take(i + 1).drop_last() == s@.take(i as int));
        assert(s@.take(i + 1).last() == c);
        if c == ',' || c == ' ' {
            let w = trimmed(&cur);
            let ghost after = before.push(Seq::empty());
            assert(pieces(s@.take(i + 1)) == after);
            assert(after.drop_last() == before);
            if w.len() > 0 {
                let word = string_of(&w);
                out.push(word);
                assert(views(out@) =~= views(old_out).push(word@));
            }
            cur = Vec::new();
        } else {
            cur.push(c);
            let ghost after = before.update(before.len() - 1, before.last().push(c));
            assert(pieces(s@.take(i + 1)) == after);
            assert(after.drop_last() =~= before.drop_last());
        }
        i += 1;
    }
    assert(s@.take(n as int) == s@);
    let ghost ps = pieces(s@);
    let ghost old_out = out@;
    let w = trimmed(&cur);
    if w.len() > 0 {
        let word = string_of(&w);
        out.push(word);
        assert(views(out@) =~= views(old_out).push(word@));
    }
    out
}

} // verus!
