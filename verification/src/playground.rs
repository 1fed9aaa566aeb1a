//! The playground project: a source text in which functions are found by a line scan.
use vstd::prelude::*;
use crate::text::{chars_of, char_is_white_space, is_white_space, string_from_chars};

verus! {

/// Whether `char::is_alphanumeric` holds of a character (the Unicode `Alphabetic` or
/// `Numeric` properties).
pub uninterp spec fn unicode_alphanumeric(c: char) -> bool;

/// Whether a character is an ASCII letter or digit.
pub open spec fn ascii_alphanumeric(c: char) -> bool {
    ('a' <= c && c <= 'z') || ('A' <= c && c <= 'Z') || ('0' <= c && c <= '9')
}

/// Calls `char::is_alphanumeric`. Its documentation defines it as the Unicode `Alphabetic`
/// or `Numeric` property; among ASCII characters those hold of the letters and digits
/// only. What it gives beyond ASCII is left to the name.
#[verifier::external_body]
fn char_is_alphanumeric(c: char) -> (b: bool)
    ensures
        b == unicode_alphanumeric(c),
        (c as u32) < 128 ==> (b <==> ascii_alphanumeric(c)),
{
    c.is_alphanumeric()
}

/// Characters that may appear in a function name: letters, digits and `_`, where among
/// ASCII characters the letters and digits are `a`-`z`, `A`-`Z` and `0`-`9`.
pub open spec fn is_name_char(c: char) -> bool {
    if (c as u32) < 128 {
        ascii_alphanumeric(c) || c == '_'
    } else {
        unicode_alphanumeric(c) || c == '_'
    }
}

/// The state of a line split after reading `s`: the lines ended by a line feed (a carriage
/// return before the line feed taken off), and the text of the line not yet ended.
pub open spec fn line_split(s: Seq<char>) -> (Seq<Seq<char>>, Seq<char>)
    decreases s.len(),
{
    if s.len() == 0 {
        (Seq::empty(), Seq::empty())
    } else {
        let (done, cur) = line_split(s.drop_last());
        if s.last() == '\n' {
            (done.push(strip_carriage_return(cur)), Seq::empty())
        } else {
            (done, cur.push(s.last()))
        }
    }
}

/// A line without the carriage return that ends it, if any.
pub open spec fn strip_carriage_return(line: Seq<char>) -> Seq<char> {
    if line.len() > 0 && line.last() == '\r' {
        line.drop_last()
    } else {
        line
    }
}

/// The lines of a text as `str::lines` gives them: split at line feeds, a carriage return
/// before a line feed removed, and a last line without a line feed kept when not empty.
pub open spec fn text_lines(s: Seq<char>) -> Seq<Seq<char>> {
    let (done, cur) = line_split(s);
    if cur.len() > 0 {
        done.push(cur)
    } else {
        done
    }
}

/// A line without its leading white space.
pub open spec fn trim_start(s: Seq<char>) -> Seq<char>
    decreases s.len(),
{
    if s.len() > 0 && is_white_space(s[0]) {
        trim_start(s.drop_first())
    } else {
        s
    }
}

/// The longest prefix of `s` made of name characters.
pub open spec fn leading_name(s: Seq<char>) -> Seq<char>
    decreases s.len(),
{
    if s.len() > 0 && is_name_char(s[0]) {
        seq![s[0]] + leading_name(s.drop_first())
    } else {
        Seq::empty()
    }
}

/// The keyword that opens a function declaration, with the space after it.
pub open spec fn function_keyword() -> Seq<char> {
    seq!['f', 'u', 'n', 'c', 't', 'i', 'o', 'n', ' ']
}

/// The name a line declares: after optional white space, the keyword, then the name
/// characters that follow it. Empty when the line declares nothing.
pub open spec fn declared_name(line: Seq<char>) -> Seq<char> {
    let t = trim_start(line);
    if t.len() >= 9 && t.take(9) == function_keyword() {
        leading_name(t.skip(9))
    } else {
        Seq::empty()
    }
}

/// The non-empty declared names of a list of lines, in order.
pub open spec fn declared_names(lines: Seq<Seq<char>>) -> Seq<Seq<char>>
    decreases lines.len(),
{
    if lines.len() == 0 {
        Seq::empty()
    } else {
        let rest = declared_names(lines.drop_last());
        let name = declared_name(lines.last());
        if name.len() > 0 {
            rest.push(name)
        } else {
            rest
        }
    }
}

/// The name declared by a line, found by a scan of its characters.
fn line_function_name(line: &Vec<char>) -> (name: Vec<char>)
    ensures
        name@ == declared_name(line@),
{
    let n = line.len();
    let mut i: usize = 0;
    assert(line@.skip(0) =~= line@);
    while i < n && char_is_white_space(line[i])
        invariant
            i <= n == line@.len(),
            trim_start(line@) == trim_start(line@.skip(i as int)),
        decreases n - i,
    {
        proof {
            assert(line@.skip(i as int).drop_first() =~= line@.skip(i + 1));
        }
        i = i + 1;
    }
    proof {
        if i < n {
            assert(line@.skip(i as int)[0] == line@[i as int]);
        } else {
            assert(line@.skip(i as int) =~= Seq::<char>::empty());
        }
    }
    let ghost t = line@.skip(i as int);
    assert(trim_start(line@) == t);
    let keyword = ['f', 'u', 'n', 'c', 't', 'i', 'o', 'n', ' '];
    if n - i < 9 {
        return Vec::new();
    }
    let mut k: usize = 0;
    while k < 9
        invariant
            k <= 9,
            i + 9 <= n == line@.len(),
            t == line@.skip(i as int),
            trim_start(line@) == t,
            keyword@ == function_keyword(),
            forall|q: int| 0 <= q < k ==> line@[i + q] == keyword@[q],
        decreases 9 - k,
    {
        if line[i + k] != keyword[k] {
            proof {
                assert(t.take(9)[k as int] != function_keyword()[k as int]);
                assert(t.take(9) != function_keyword());
            }
            return Vec::new();
        }
        k = k + 1;
    }
    proof {
        assert(t.take(9) =~= function_keyword());
    }
    let mut name: Vec<char> = Vec::new();
    let mut j: usize = i + 9;
    let ghost rest = t.skip(9);
    proof {
        assert(rest =~= line@.skip(j as int));
    }
    while j < n && (char_is_alphanumeric(line[j]) || line[j] == '_')
        invariant
            i + 9 <= j <= n == line@.len(),
            rest == line@.skip(i + 9),
            leading_name(rest) == name@ + leading_name(line@.skip(j as int)),
        decreases n - j,
    {
        proof {
            let s = line@.skip(j as int);
            assert(s[0] == line@[j as int]);
            assert(s.drop_first() =~= line@.skip(j + 1));
            assert(name@ + (seq![s[0]] + leading_name(s.drop_first())) =~= name@.push(line@[j as int])
                + leading_name(line@.skip(j + 1)));
        }
        name.push(line[j]);
        j = j + 1;
    }
    proof {
        let s = line@.skip(j as int);
        if j < n {
            assert(s[0] == line@[j as int]);
        } else {
            assert(s =~= Seq::<char>::empty());
        }
        assert(leading_name(s) =~= Seq::<char>::empty());
        assert(name@ + Seq::<char>::empty() =~= name@);
    }
    name
}

/// Appends the name a line declares to `names`, when it declares one.
fn add_line_name(names: &mut Vec<String>, line: &Vec<char>)
    ensures
        ({
            let name = declared_name(line@);
            if name.len() > 0 {
                names_view(final(names)@) == names_view(old(names)@).push(name)
            } else {
                names_view(final(names)@) == names_view(old(names)@)
            }
        }),
{
    let name = line_function_name(line);
    if name.len() > 0 {
        let s = string_from_chars(name.as_slice());
        names.push(s);
        assert(names_view(names@) =~= names_view(old(names)@).push(name@));
    }
}

/// The texts of a list of strings.
pub open spec fn names_view(v: Seq<String>) -> Seq<Seq<char>> {
    v.map_values(|s: String| s@)
}

/// The names of the functions a source text declares, in order: for each line, after
/// optional leading white space, the text `function ` followed by the name, made of
/// alphanumeric characters and underscores; lines with an empty name are passed over.
pub fn extract_function_names(src: &str) -> (names: Vec<String>)
    ensures
        names_view(names@) == declared_names(text_lines(src@)),
{
    let cs = chars_of(src);
    let mut names: Vec<String> = Vec::new();
    let mut cur: Vec<char> = Vec::new();
    let mut i: usize = 0;
    while i < cs.len()
        invariant
            i <= cs@.len(),
            cs@ == src@,
            names_view(names@) == declared_names(line_split(cs@.take(i as int)).0),
            cur@ == line_split(cs@.take(i as int)).1,
        decreases cs.len() - i,
    {
        let c = cs[i];
        proof {
            assert(cs@.take(i + 1).drop_last() =~= cs@.take(i as int));
            assert(cs@.take(i + 1).last() == c);
        }
        if c == '\n' {
            let ghost done = line_split(cs@.take(i as int)).0;
            let len = cur.len();
            if len > 0 && cur[len - 1] == '\r' {
                cur.pop();
            }
            assert(cur@ == strip_carriage_return(line_split(cs@.take(i as int)).1));
            add_line_name(&mut names, &cur);
            proof {
                assert(done.push(cur@).drop_last() =~= done);
            }
            cur = Vec::new();
        } else {
            cur.push(c);
        }
        i = i + 1;
    }
    proof {
        assert(cs@.take(cs@.len() as int) =~= cs@);
    }
    if cur.len() > 0 {
        let ghost done = line_split(cs@).0;
        add_line_name(&mut names, &cur);
        proof {
            assert(done.push(cur@).drop_last() =~= done);
        }
    }
    names
}

/// A playground project: the source text of a project whose functions the editor lists.
pub struct BamlProject {
    src: String,
}

impl View for BamlProject {
    type V = Seq<char>;

    /// The project's source text.
    closed spec fn view(&self) -> Seq<char> {
        self.src@
    }
}

impl BamlProject {
    /// A project with the given source text.
    pub fn new(baml_src: String) -> (p: BamlProject)
        ensures
            p@ == baml_src@,
    {
        BamlProject { src: baml_src }
    }

    /// Replaces the project's source text.
    pub fn set_source(&mut self, baml_src: String)
        ensures
            final(self)@ == baml_src@,
    {
        self.src = baml_src;
    }

    /// The names of the functions the source text declares, in order.
    pub fn function_names(&self) -> (names: Vec<String>)
        ensures
            names_view(names@) == declared_names(text_lines(self@)),
    {
        extract_function_names(self.src.as_str())
    }
}

} // verus!
