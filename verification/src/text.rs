//! Character-level helpers on strings.
use vstd::prelude::*;

verus! {

/// The characters of a string slice, in order.
pub fn chars_of(s: &str) -> (v: Vec<char>)
    ensures
        v@ == s@,
{
    let mut v: Vec<char> = Vec::new();
    for c in it: s.chars()
        invariant
            v@ == it.seq().take(it.index() as int),
            it.seq() == s@,
    {
        v.push(c);
    }
    v
}

/// A string holding the given characters, in order.
#[verifier::external_body]
pub(crate) fn string_from_chars(v: &[char]) -> (s: String)
    ensures
        s@ == v@,
{
    String::from_iter(v.iter())
}

/// A string holding the characters of `a` followed by those of `b`.
pub fn concat(a: &str, b: &str) -> (s: String)
    ensures
        s@ == a@ + b@,
{
    let mut s = String::from_str(a);
    s.append(b);
    s
}

/// The characters that the Unicode `White_Space` property marks as white space.
pub open spec fn is_white_space(c: char) -> bool {
    let x = c as u32;
    ||| 0x09 <= x <= 0x0D
    ||| x == 0x20
    ||| x == 0x85
    ||| x == 0xA0
    ||| x == 0x1680
    ||| 0x2000 <= x <= 0x200A
    ||| x == 0x2028
    ||| x == 0x2029
    ||| x == 0x202F
    ||| x == 0x205F
    ||| x == 0x3000
}

/// Whether a character is white space.
pub fn char_is_white_space(c: char) -> (b: bool)
    ensures
        b == is_white_space(c),
{
    let x = c as u32;
    (0x09 <= x && x <= 0x0D) || x == 0x20 || x == 0x85 || x == 0xA0 || x == 0x1680 || (0x2000 <= x
        && x <= 0x200A) || x == 0x2028 || x == 0x2029 || x == 0x202F || x == 0x205F || x == 0x3000
}

/// A string is blank when trimming white space from both ends leaves nothing, that is,
/// when every character of it is white space.
pub open spec fn is_blank_spec(s: Seq<char>) -> bool {
    forall|i: int| 0 <= i < s.len() ==> is_white_space(#[trigger] s[i])
}

/// Whether every character of `s` is white space (the empty string included).
pub fn is_blank(s: &str) -> (b: bool)
    ensures
        b == is_blank_spec(s@),
{
    let cs = chars_of(s);
    let mut i: usize = 0;
    while i < cs.len()
        invariant
            i <= cs.len(),
            cs@ == s@,
            forall|k: int| 0 <= k < i ==> is_white_space(#[trigger] s@[k]),
        decreases cs.len() - i,
    {
        if !char_is_white_space(cs[i]) {
            return false;
        }
        i = i + 1;
    }
    true
}

/// Whether two strings hold the same characters.
pub fn str_eq(a: &str, b: &str) -> (r: bool)
    ensures
        r == (a@ == b@),
{
    let ca = chars_of(a);
    let cb = chars_of(b);
    if ca.len() != cb.len() {
        return false;
    }
    let mut i: usize = 0;
    while i < ca.len()
        invariant
            i <= ca.len(),
            ca.len() == cb.len(),
            ca@ == a@,
            cb@ == b@,
            forall|k: int| 0 <= k < i ==> a@[k] == b@[k],
        decreases ca.len() - i,
    {
        if ca[i] != cb[i] {
            return false;
        }
        i = i + 1;
    }
    assert(a@ =~= b@);
    true
}

/// The string of the characters `cs[start..end]`.
pub fn string_of_range(cs: &Vec<char>, start: usize, end: usize) -> (s: String)
    requires
        start <= end <= cs@.len(),
    ensures
        s@ == cs@.subrange(start as int, end as int),
{
    let mut part: Vec<char> = Vec::new();
    let mut i: usize = start;
    while i < end
        invariant
            start <= i <= end <= cs@.len(),
            part@ == cs@.subrange(start as int, i as int),
        decreases end - i,
    {
        part.push(cs[i]);
        assert(part@ =~= cs@.subrange(start as int, i + 1));
        i = i + 1;
    }
    string_from_chars(part.as_slice())
}

/// Whether `s` ends with `p`.
pub open spec fn ends_with(s: Seq<char>, p: Seq<char>) -> bool {
    p.len() <= s.len() && s.skip(s.len() - p.len()) == p
}

/// Whether `p` occurs in `s` at position `i`.
pub open spec fn occurs_at(s: Seq<char>, p: Seq<char>, i: int) -> bool {
    0 <= i && i + p.len() <= s.len() && s.subrange(i, i + p.len()) == p
}

/// Whether `p` occurs in `s`.
pub open spec fn contains_text(s: Seq<char>, p: Seq<char>) -> bool {
    exists|i: int| occurs_at(s, p, i)
}

/// Whether the characters of `s` from `i` on start with `p`.
fn matches_at(s: &Vec<char>, p: &Vec<char>, i: usize) -> (b: bool)
    requires
        i + p@.len() <= s@.len(),
    ensures
        b == (s@.subrange(i as int, i + p@.len()) == p@),
{
    let mut k: usize = 0;
    let sl = s.len();
    while k < p.len()
        invariant
            k <= p@.len(),
            sl == s@.len(),
            i + p@.len() <= s@.len(),
            forall|q: int| 0 <= q < k ==> s@[i + q] == p@[q],
        decreases p.len() - k,
    {
        if s[i + k] != p[k] {
            proof {
                assert(s@.subrange(i as int, i + p@.len())[k as int] != p@[k as int]);
            }
            return false;
        }
        k = k + 1;
    }
    assert(s@.subrange(i as int, i + p@.len()) =~= p@);
    true
}

/// Whether `s` ends with `p`.
pub fn str_ends_with(s: &str, p: &str) -> (b: bool)
    ensures
        b == ends_with(s@, p@),
{
    let cs = chars_of(s);
    let cp = chars_of(p);
    if cp.len() > cs.len() {
        return false;
    }
    let start = cs.len() - cp.len();
    let r = matches_at(&cs, &cp, start);
    assert(cs@.subrange(start as int, start + cp@.len()) =~= cs@.skip(start as int));
    r
}

/// Whether `p` occurs in `s`.
pub fn str_contains(s: &str, p: &str) -> (b: bool)
    ensures
        b == contains_text(s@, p@),
{
    let cs = chars_of(s);
    let cp = chars_of(p);
    if cp.len() > cs.len() {
        return false;
    }
    if cp.len() == 0 {
        assert(s@.subrange(0, 0) =~= p@);
        assert(occurs_at(s@, p@, 0));
        return true;
    }
    let last = cs.len() - cp.len();
    let mut i: usize = 0;
    while i <= last
        invariant
            last + cp@.len() == cs@.len(),
            last < cs@.len() <= usize::MAX,
            cs@ == s@,
            cp@ == p@,
            i <= last + 1,
            forall|q: int| 0 <= q < i ==> !occurs_at(s@, p@, q),
        decreases last + 1 - i,
    {
        if matches_at(&cs, &cp, i) {
            assert(occurs_at(s@, p@, i as int));
            return true;
        }
        i = i + 1;
    }
    proof {
        assert forall|q: int| !occurs_at(s@, p@, q) by {
            if 0 <= q < i {
            }
        }
    }
    false
}

/// `s` with every leading `./` taken off, as `str::trim_start_matches("./")` gives it.
pub open spec fn trim_dot_slash(s: Seq<char>) -> Seq<char>
    decreases s.len(),
{
    if s.len() >= 2 && s[0] == '.' && s[1] == '/' {
        trim_dot_slash(s.skip(2))
    } else {
        s
    }
}

/// `s` with every leading `./` taken off.
pub fn trim_leading_dot_slash(s: &str) -> (t: String)
    ensures
        t@ == trim_dot_slash(s@),
{
    let cs = chars_of(s);
    let mut i: usize = 0;
    assert(cs@.skip(0) =~= cs@);
    while cs.len() - i > 1 && cs[i] == '.' && cs[i + 1] == '/'
        invariant
            i <= cs@.len(),
            cs@ == s@,
            trim_dot_slash(s@) == trim_dot_slash(cs@.skip(i as int)),
        decreases cs.len() - i,
    {
        assert(cs@.skip(i as int).skip(2) =~= cs@.skip(i + 2));
        i = i + 2;
    }
    let ghost rest = cs@.skip(i as int);
    if cs.len() - i > 1 {
        assert(rest[0] == cs@[i as int] && rest[1] == cs@[i + 1]);
    }
    string_of_range(&cs, i, cs.len())
}

/// Position of the last occurrence of `c` in `s`, or -1.
pub open spec fn last_index_of(s: Seq<char>, c: char) -> int
    decreases s.len(),
{
    if s.len() == 0 {
        -1
    } else if s.last() == c {
        s.len() - 1
    } else {
        last_index_of(s.drop_last(), c)
    }
}

/// Facts about [`last_index_of`].
pub proof fn lemma_last_index_of(s: Seq<char>, c: char)
    ensures
        -1 <= last_index_of(s, c) < s.len(),
        last_index_of(s, c) >= 0 ==> s[last_index_of(s, c)] == c,
        forall|k: int| last_index_of(s, c) < k < s.len() ==> #[trigger] s[k] != c,
    decreases s.len(),
{
    if s.len() > 0 && s.last() != c {
        lemma_last_index_of(s.drop_last(), c);
        assert forall|k: int| last_index_of(s, c) < k < s.len() implies #[trigger] s[k] != c by {
            if k < s.len() - 1 {
                assert(s.drop_last()[k] == s[k]);
            }
        }
    }
}

/// Splits `s` at the last occurrence of `c`: the text before it and the text after it,
/// as `str::rsplit_once` does; nothing when `c` does not occur.
pub fn split_at_last(s: &str, c: char) -> (r: Option<(String, String)>)
    ensures
        last_index_of(s@, c) == -1 ==> r is None,
        last_index_of(s@, c) >= 0 ==> (r matches Some(p) && p.0@ == s@.take(last_index_of(s@, c))
            && p.1@ == s@.skip(last_index_of(s@, c) + 1)),
{
    let cs = chars_of(s);
    proof {
        lemma_last_index_of(s@, c);
    }
    let mut i: usize = cs.len();
    while i > 0
        invariant
            i <= cs@.len(),
            cs@ == s@,
            forall|k: int| i <= k < cs@.len() ==> #[trigger] cs@[k] != c,
        decreases i,
    {
        if cs[i - 1] == c {
            proof {
                lemma_last_index_of(s@, c);
                let p = last_index_of(s@, c);
                if p != i - 1 {
                    assert(cs@[i - 1] == c);
                }
            }
            let before = string_of_range(&cs, 0, i - 1);
            let after = string_of_range(&cs, i, cs.len());
            assert(cs@.subrange(0, i - 1) =~= s@.take(i - 1));
            return Some((before, after));
        }
        i = i - 1;
    }
    proof {
        lemma_last_index_of(s@, c);
        if last_index_of(s@, c) >= 0 {
            assert(cs@[last_index_of(s@, c)] == c);
        }
    }
    None
}

} // verus!
