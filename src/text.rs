//! Character-level text handling for the recorded line format: trimming,
//! splitting on a delimiter, and reading unsigned decimal integers.
use vstd::prelude::*;
use vstd::string::StrSliceExecFns;

verus! {

/// The characters that carry the Unicode `White_Space` property.
pub open spec fn is_white(c: char) -> bool {
    ||| c == ' '
    ||| ('\u{9}' <= c && c <= '\u{d}')
    ||| c == '\u{85}'
    ||| c == '\u{a0}'
    ||| c == '\u{1680}'
    ||| ('\u{2000}' <= c && c <= '\u{200a}')
    ||| c == '\u{2028}'
    ||| c == '\u{2029}'
    ||| c == '\u{202f}'
    ||| c == '\u{205f}'
    ||| c == '\u{3000}'
}

/// `s` without its leading white space.
pub open spec fn trim_front(s: Seq<char>) -> Seq<char>
    decreases s.len(),
{
    if s.len() > 0 && is_white(s[0]) {
        trim_front(s.drop_first())
    } else {
        s
    }
}

/// `s` without its trailing white space.
pub open spec fn trim_back(s: Seq<char>) -> Seq<char>
    decreases s.len(),
{
    if s.len() > 0 && is_white(s.last()) {
        trim_back(s.drop_last())
    } else {
        s
    }
}

/// `s` without white space at either end.
pub open spec fn trimmed(s: Seq<char>) -> Seq<char> {
    trim_back(trim_front(s))
}

fn is_white_char(c: char) -> (r: bool)
    ensures
        r == is_white(c),
{
    c == ' ' || ('\u{9}' <= c && c <= '\u{d}') || c == '\u{85}' || c == '\u{a0}' || c == '\u{1680}'
        || ('\u{2000}' <= c && c <= '\u{200a}') || c == '\u{2028}' || c == '\u{2029}' || c
        == '\u{202f}' || c == '\u{205f}' || c == '\u{3000}'
}

/// The text of `s` with white space removed at both ends.
pub fn trim(s: &str) -> (r: String)
    ensures
        r@ == trimmed(s@),
{
    let n = s.unicode_len();
    let mut a: usize = 0;
    assert(s@.subrange(0, n as int) =~= s@);
    while a < n && is_white_char(s.get_char(a))
        invariant
            n == s@.len(),
            a <= n,
            trim_front(s@) == trim_front(s@.subrange(a as int, n as int)),
        decreases n - a,
    {
        proof {
            let t = s@.subrange(a as int, n as int);
            assert(t.drop_first() =~= s@.subrange(a + 1, n as int));
        }
        a = a + 1;
    }
    let ghost front = s@.subrange(a as int, n as int);
    proof {
        if a < n {
            assert(front[0] == s@[a as int]);
        }
    }
    assert(trim_front(s@) == front);
    let mut b: usize = n;
    while b > a && is_white_char(s.get_char(b - 1))
        invariant
            n == s@.len(),
            a <= b <= n,
            front == s@.subrange(a as int, n as int),
            trim_back(front) == trim_back(s@.subrange(a as int, b as int)),
        decreases b,
    {
        proof {
            let t = s@.subrange(a as int, b as int);
            assert(t.drop_last() =~= s@.subrange(a as int, b - 1));
        }
        b = b - 1;
    }
    proof {
        let t = s@.subrange(a as int, b as int);
        if b > a {
            assert(t.last() == s@[b - 1]);
        }
    }
    s.substring_char(a, b).to_owned()
}

/// The fields of `s` separated by `d`: one more field than there are
/// delimiters, each possibly empty.
pub open spec fn split_on(s: Seq<char>, d: char) -> Seq<Seq<char>>
    decreases s.len(),
{
    if s.len() == 0 {
        seq![Seq::empty()]
    } else {
        let p = split_on(s.drop_last(), d);
        if s.last() == d {
            p.push(Seq::empty())
        } else {
            p.update(p.len() - 1, p.last().push(s.last()))
        }
    }
}

/// The views of a sequence of strings.
pub open spec fn views(v: Seq<String>) -> Seq<Seq<char>> {
    v.map_values(|f: String| f@)
}

/// The fields of `s` separated by `d`, each trimmed of white space.
pub fn split_trimmed(s: &str, d: char) -> (r: Vec<String>)
    ensures
        views(r@) == split_on(s@, d).map_values(|f: Seq<char>| trimmed(f)),
{
    let n = s.unicode_len();
    let mut r: Vec<String> = Vec::new();
    let ghost mut done: Seq<Seq<char>> = Seq::empty();
    let mut start: usize = 0;
    let mut i: usize = 0;
    assert(s@.subrange(0, 0) =~= Seq::<char>::empty());
    while i < n
        invariant
            n == s@.len(),
            start <= i <= n,
            split_on(s@.subrange(0, i as int), d) == done.push(s@.subrange(start as int, i as int)),
            views(r@) =~= done.map_values(|f: Seq<char>| trimmed(f)),
        decreases n - i,
    {
        let c = s.get_char(i);
        proof {
            let t = s@.subrange(0, i + 1);
            assert(t.drop_last() =~= s@.subrange(0, i as int));
            assert(t.last() == c);
            assert(s@.subrange(start as int, i as int).push(c) =~= s@.subrange(start as int, i + 1));
        }
        if c == d {
            let field = trim(s.substring_char(start, i));
            let ghost old_r = r@;
            r.push(field);
            proof {
                assert(views(r@) =~= views(old_r).push(field@));
                done = done.push(s@.subrange(start as int, i as int));
                assert(views(r@) =~= done.map_values(|f: Seq<char>| trimmed(f)));
                assert(s@.subrange(i + 1, i + 1) =~= Seq::<char>::empty());
            }
            start = i + 1;
        }
        i = i + 1;
    }
    let field = trim(s.substring_char(start, n));
    let ghost old_r = r@;
    r.push(field);
    proof {
        assert(views(r@) =~= views(old_r).push(field@));
        assert(s@.subrange(0, n as int) =~= s@);
        done = done.push(s@.subrange(start as int, n as int));
        assert(views(r@) =~= done.map_values(|f: Seq<char>| trimmed(f)));
    }
    r
}

/// An ASCII decimal digit.
pub open spec fn is_digit(c: char) -> bool {
    '0' <= c && c <= '9'
}

/// The value of a decimal digit.
pub open spec fn digit_value(c: char) -> nat {
    (c as int - '0' as int) as nat
}

/// The value of a sequence of decimal digits, most significant first.
pub open spec fn decimal_value(s: Seq<char>) -> nat
    decreases s.len(),
{
    if s.len() == 0 {
        0
    } else {
        decimal_value(s.drop_last()) * 10 + digit_value(s.last())
    }
}

/// The digits of an unsigned number written with an optional leading `+`.
pub open spec fn unsigned_digits(s: Seq<char>) -> Seq<char> {
    if s.len() > 0 && s[0] == '+' {
        s.drop_first()
    } else {
        s
    }
}

/// `s` is an unsigned decimal number: an optional `+`, then one or more digits.
pub open spec fn is_unsigned_text(s: Seq<char>) -> bool {
    let b = unsigned_digits(s);
    b.len() > 0 && forall|i: int| 0 <= i < b.len() ==> is_digit(#[trigger] b[i])
}

/// The `usize` that `s` writes, if it writes one that fits.
pub open spec fn parsed_usize(s: Seq<char>) -> Option<usize> {
    if is_unsigned_text(s) && decimal_value(unsigned_digits(s)) <= usize::MAX {
        Some(decimal_value(unsigned_digits(s)) as usize)
    } else {
        None
    }
}

/// A longer run of digits is worth at least as much as its prefix.
proof fn lemma_prefix_value_le(b: Seq<char>, k: int)
    requires
        0 <= k <= b.len(),
        forall|i: int| 0 <= i < b.len() ==> is_digit(#[trigger] b[i]),
    ensures
        decimal_value(b.subrange(0, k)) <= decimal_value(b),
    decreases b.len(),
{
    if k < b.len() {
        let c = b.drop_last();
        assert(b.subrange(0, k) =~= c.subrange(0, k));
        lemma_prefix_value_le(c, k);
    } else {
        assert(b.subrange(0, k) =~= b);
    }
}

/// Reads an unsigned decimal number, with an optional leading `+`, that
/// fits in `usize`; anything else gives `None`.
pub fn parse_usize(s: &str) -> (r: Option<usize>)
    ensures
        r == parsed_usize(s@),
{
    let n = s.unicode_len();
    let mut begin: usize = 0;
    if n > 0 && s.get_char(0) == '+' {
        begin = 1;
    }
    let ghost b = unsigned_digits(s@);
    assert(b =~= s@.subrange(begin as int, n as int));
    if begin == n {
        return None;
    }
    let mut value: usize = 0;
    let mut i: usize = begin;
    assert(b.subrange(0, 0) =~= Seq::<char>::empty());
    while i < n
        invariant
            n == s@.len(),
            begin <= i <= n,
            b == s@.subrange(begin as int, n as int),
            b == unsigned_digits(s@),
            forall|j: int| 0 <= j < i - begin ==> is_digit(#[trigger] b[j]),
            value == decimal_value(b.subrange(0, i - begin)),
        decreases n - i,
    {
        let c = s.get_char(i);
        assert(b[i - begin] == c);
        if !('0' <= c && c <= '9') {
            assert(!is_digit(b[i - begin]));
            return None;
        }
        let d = (c as u32 - '0' as u32) as usize;
        proof {
            let p = b.subrange(0, i + 1 - begin);
            assert(p.drop_last() =~= b.subrange(0, i - begin));
            assert(p.last() == c);
        }
        match value.checked_mul(10) {
            Some(v) => match v.checked_add(d) {
                Some(w) => {
                    value = w;
                },
                None => {
                    proof {
                        if is_unsigned_text(s@) {
                            assert(forall|j: int| 0 <= j < b.len() ==> is_digit(#[trigger] b[j]));
                            lemma_prefix_value_le(b, i + 1 - begin);
                        }
                    }
                    return None;
                },
            },
            None => {
                proof {
                    if is_unsigned_text(s@) {
                        assert(forall|j: int| 0 <= j < b.len() ==> is_digit(#[trigger] b[j]));
                        lemma_prefix_value_le(b, i + 1 - begin);
                    }
                }
                return None;
            },
        }
        i = i + 1;
    }
    assert(b.subrange(0, n - begin) =~= b);
    Some(value)
}

} // verus!
