//! Character and sequence utilities shared by the parsers: Unicode
//! whitespace trimming, ASCII case folding, line splitting, and
//! conversions between `&str`, `Vec<char>` and `String`.
use vstd::prelude::*;

verus! {

/// Appends one character; `String::push`'s documented behaviour.
pub assume_specification[ String::push ](s: &mut String, ch: char)
    ensures
        final(s)@ == old(s)@.push(ch),
;

/// The characters with the Unicode white-space property, the ones
/// `char::is_whitespace` accepts.
pub open spec fn is_ws(c: char) -> bool {
    let u = c as u32;
    (0x09 <= u && u <= 0x0d) || u == 0x20 || u == 0x85 || u == 0xa0 || u == 0x1680 || (0x2000
        <= u && u <= 0x200a) || u == 0x2028 || u == 0x2029 || u == 0x202f || u == 0x205f || u
        == 0x3000
}

pub fn is_ws_char(c: char) -> (r: bool)
    ensures
        r == is_ws(c),
{
    let u: u32 = c as u32;
    (0x09 <= u && u <= 0x0d) || u == 0x20 || u == 0x85 || u == 0xa0 || u == 0x1680 || (0x2000 <= u
        && u <= 0x200a) || u == 0x2028 || u == 0x2029 || u == 0x202f || u == 0x205f || u == 0x3000
}

/// ASCII lowercasing of one character, as `char::to_ascii_lowercase` does it.
pub open spec fn lower_char(c: char) -> char {
    if 0x41 <= c as u32 && c as u32 <= 0x5a {
        ((c as u32) + 0x20) as char
    } else {
        c
    }
}

/// A sequence lowered character by character: the case-insensitive dedup key.
pub open spec fn lower_seq(s: Seq<char>) -> Seq<char> {
    s.map_values(|c: char| lower_char(c))
}

/// True when two characters agree up to ASCII case.
fn eq_char_ci(a: char, b: char) -> (r: bool)
    ensures
        r == (lower_char(a) == lower_char(b)),
{
    let ua: u32 = a as u32;
    let ub: u32 = b as u32;
    let la: u32 = if 0x41 <= ua && ua <= 0x5a {
        ua + 0x20
    } else {
        ua
    };
    let lb: u32 = if 0x41 <= ub && ub <= 0x5a {
        ub + 0x20
    } else {
        ub
    };
    la == lb
}

/// True when two character vectors agree up to ASCII case.
pub fn eq_ci(a: &Vec<char>, b: &Vec<char>) -> (r: bool)
    ensures
        r == (lower_seq(a@) == lower_seq(b@)),
{
    if a.len() != b.len() {
        assert(lower_seq(a@).len() == a@.len());
        assert(lower_seq(b@).len() == b@.len());
        return false;
    }
    let mut i: usize = 0;
    while i < a.len()
        invariant
            i <= a.len(),
            a.len() == b.len(),
            forall|j: int| 0 <= j < i ==> lower_char(a@[j]) == lower_char(b@[j]),
        decreases a.len() - i,
    {
        if !eq_char_ci(a[i], b[i]) {
            assert(lower_seq(a@)[i as int] != lower_seq(b@)[i as int]);
            return false;
        }
        i += 1;
    }
    assert(lower_seq(a@) =~= lower_seq(b@));
    true
}

/// A trimmed line that carries a bullet marker: `- ` or `* `.
pub open spec fn is_bullet(t: Seq<char>) -> bool {
    t.len() >= 2 && (t[0] == '-' || t[0] == '*') && t[1] == ' '
}

/// Leading white space removed.
pub open spec fn trim_front(s: Seq<char>) -> Seq<char>
    decreases s.len(),
{
    if s.len() == 0 {
        s
    } else if is_ws(s[0]) {
        trim_front(s.skip(1))
    } else {
        s
    }
}

/// Trailing white space removed.
pub open spec fn trim_back(s: Seq<char>) -> Seq<char>
    decreases s.len(),
{
    if s.len() == 0 {
        s
    } else if is_ws(s[s.len() - 1]) {
        trim_back(s.drop_last())
    } else {
        s
    }
}

/// Both ends trimmed, as `str::trim` trims.
pub open spec fn trim_spec(s: Seq<char>) -> Seq<char> {
    trim_back(trim_front(s))
}

pub fn trim_chars(s: &Vec<char>) -> (r: Vec<char>)
    ensures
        r@ == trim_spec(s@),
{
    let mut start: usize = 0;
    assert(s@.skip(0) =~= s@);
    while start < s.len() && is_ws_char(s[start])
        invariant
            start <= s.len(),
            trim_front(s@) == trim_front(s@.skip(start as int)),
        decreases s.len() - start,
    {
        assert(s@.skip(start as int).skip(1) =~= s@.skip(start as int + 1));
        start += 1;
    }
    assert(trim_front(s@) == s@.skip(start as int)) by {
        if start == s.len() {
            assert(s@.skip(start as int) =~= Seq::<char>::empty());
        }
    }
    let ghost f = s@.skip(start as int);
    let mut end: usize = s.len();
    while end > start && is_ws_char(s[end - 1])
        invariant
            start <= end <= s.len(),
            trim_front(s@) == f,
            f == s@.skip(start as int),
            trim_back(f) == trim_back(s@.subrange(start as int, end as int)),
        decreases end,
    {
        assert(s@.subrange(start as int, end as int).drop_last() =~= s@.subrange(
            start as int,
            end as int - 1,
        ));
        assert(s@.subrange(start as int, end as int).last() == s@[end - 1]);
        end -= 1;
    }
    assert(trim_back(s@.subrange(start as int, end as int)) == s@.subrange(
        start as int,
        end as int,
    )) by {
        if end == start {
            assert(s@.subrange(start as int, end as int) =~= Seq::<char>::empty());
        }
    }
    let mut r: Vec<char> = Vec::new();
    let mut i: usize = start;
    while i < end
        invariant
            start <= i <= end <= s.len(),
            r@ =~= s@.subrange(start as int, i as int),
        decreases end - i,
    {
        r.push(s[i]);
        i += 1;
    }
    assert(r@ =~= s@.subrange(start as int, end as int));
    r
}

/// The lines of a text, split at `'\n'`; an unfinished last line counts,
/// an empty tail after a final `'\n'` does not. Carriage returns are left
/// in place (the parsers trim each line afterwards).
pub open spec fn lines_from(s: Seq<char>, cur: Seq<char>) -> Seq<Seq<char>>
    decreases s.len(),
{
    if s.len() == 0 {
        if cur.len() == 0 {
            Seq::empty()
        } else {
            seq![cur]
        }
    } else if s[0] == '\n' {
        seq![cur] + lines_from(s.skip(1), Seq::empty())
    } else {
        lines_from(s.skip(1), cur.push(s[0]))
    }
}

pub open spec fn lines_spec(s: Seq<char>) -> Seq<Seq<char>> {
    lines_from(s, Seq::empty())
}

pub fn split_lines(s: &Vec<char>) -> (r: Vec<Vec<char>>)
    ensures
        r.deep_view() == lines_spec(s@),
{
    let mut r: Vec<Vec<char>> = Vec::new();
    let mut cur: Vec<char> = Vec::new();
    let mut i: usize = 0;
    assert(s@.skip(0) =~= s@);
    assert(r.deep_view() + lines_from(s@, cur@) =~= lines_spec(s@));
    while i < s.len()
        invariant
            i <= s.len(),
            lines_spec(s@) == r.deep_view() + lines_from(s@.skip(i as int), cur@),
        decreases s.len() - i,
    {
        let ghost rest = s@.skip(i as int);
        assert(rest.skip(1) =~= s@.skip(i as int + 1));
        assert(rest[0] == s@[i as int]);
        if s[i] == '\n' {
            let done = cur;
            cur = Vec::new();
            let ghost old_r = r.deep_view();
            r.push(done);
            assert(r.deep_view() =~~= old_r.push(done@));
            assert(old_r + (seq![done@] + lines_from(rest.skip(1), Seq::empty()))
                =~~= r.deep_view() + lines_from(s@.skip(i as int + 1), cur@));
        } else {
            cur.push(s[i]);
        }
        i += 1;
    }
    assert(s@.skip(s@.len() as int) =~= Seq::<char>::empty());
    if cur.len() > 0 {
        let ghost old_r = r.deep_view();
        let ghost tail = cur@;
        r.push(cur);
        assert(r.deep_view() =~~= old_r.push(tail));
        assert(lines_spec(s@) =~~= r.deep_view());
    } else {
        assert(lines_spec(s@) =~~= r.deep_view());
    }
    r
}

/// The characters of `v` from position `from` on.
pub fn chars_from(v: &Vec<char>, from: usize) -> (r: Vec<char>)
    requires
        from <= v.len(),
    ensures
        r@ == v@.skip(from as int),
{
    let mut r: Vec<char> = Vec::new();
    let mut i: usize = from;
    while i < v.len()
        invariant
            from <= i <= v.len(),
            r@ =~= v@.subrange(from as int, i as int),
        decreases v.len() - i,
    {
        r.push(v[i]);
        i += 1;
    }
    assert(r@ =~= v@.skip(from as int));
    r
}

/// True when some element of `s` equals `e` up to ASCII case.
pub open spec fn has_ci(s: Seq<Seq<char>>, e: Seq<char>) -> bool {
    exists|i: int| 0 <= i < s.len() && lower_seq(s[i]) == lower_seq(e)
}

pub fn contains_ci(s: &Vec<Vec<char>>, e: &Vec<char>) -> (r: bool)
    ensures
        r == has_ci(s.deep_view(), e@),
{
    let mut i: usize = 0;
    while i < s.len()
        invariant
            i <= s.len(),
            forall|j: int| 0 <= j < i ==> lower_seq(s.deep_view()[j]) != lower_seq(e@),
        decreases s.len() - i,
    {
        assert(s@[i as int].deep_view() =~= s@[i as int]@);
        if eq_ci(&s[i], e) {
            assert(lower_seq(s.deep_view()[i as int]) == lower_seq(e@));
            return true;
        }
        i += 1;
    }
    false
}

/// Each character vector as a freshly allocated string, in order.
pub fn strings_of(v: &Vec<Vec<char>>) -> (r: Vec<String>)
    ensures
        r.deep_view() == v.deep_view(),
{
    let mut r: Vec<String> = Vec::new();
    let mut i: usize = 0;
    while i < v.len()
        invariant
            i <= v.len(),
            r.deep_view() =~~= v.deep_view().take(i as int),
        decreases v.len() - i,
    {
        let s = chars_to_string(&v[i]);
        assert(v@[i as int].deep_view() =~= v@[i as int]@);
        let ghost old_rd = r.deep_view();
        let ghost sv = s@;
        r.push(s);
        assert(r.deep_view() =~~= old_rd.push(sv));
        assert(v.deep_view().take(i as int + 1) =~~= v.deep_view().take(i as int).push(
            v@[i as int].deep_view(),
        ));
        assert(r.deep_view() =~~= v.deep_view().take(i as int + 1));
        i += 1;
    }
    assert(r.deep_view() =~~= v.deep_view());
    r
}

/// No two entries share a case-insensitive key.
pub open spec fn distinct_keys(s: Seq<Seq<char>>) -> bool {
    forall|i: int, j: int| 0 <= i < j < s.len() ==> lower_seq(s[i]) != lower_seq(s[j])
}

/// Each string's characters as a vector, in order.
pub fn chars_of_strings(v: &Vec<String>) -> (r: Vec<Vec<char>>)
    ensures
        r.deep_view() == v.deep_view(),
{
    let mut r: Vec<Vec<char>> = Vec::new();
    let mut i: usize = 0;
    while i < v.len()
        invariant
            i <= v.len(),
            r.deep_view() =~~= v.deep_view().take(i as int),
        decreases v.len() - i,
    {
        let c = str_to_chars(v[i].as_str());
        let ghost cv = c@;
        let ghost old_rd = r.deep_view();
        r.push(c);
        assert(r.deep_view() =~~= old_rd.push(cv));
        assert(v.deep_view().take(i as int + 1) =~~= v.deep_view().take(i as int).push(
            v@[i as int].deep_view(),
        ));
        assert(r.deep_view() =~~= v.deep_view().take(i as int + 1));
        i += 1;
    }
    assert(r.deep_view() =~~= v.deep_view());
    r
}

/// The characters of a string slice, in order.
pub fn str_to_chars(s: &str) -> (r: Vec<char>)
    ensures
        r@ == s@,
{
    let n: usize = s.unicode_len();
    let mut r: Vec<char> = Vec::new();
    let mut i: usize = 0;
    while i < n
        invariant
            i <= n,
            n == s@.len(),
            r@ =~= s@.take(i as int),
        decreases n - i,
    {
        r.push(s.get_char(i));
        i += 1;
    }
    assert(r@ =~= s@);
    r
}

/// A freshly allocated string with exactly these characters.
pub fn chars_to_string(s: &Vec<char>) -> (r: String)
    ensures
        r@ == s@,
{
    let mut r = String::new();
    let mut i: usize = 0;
    while i < s.len()
        invariant
            i <= s.len(),
            r@ =~= s@.take(i as int),
        decreases s.len() - i,
    {
        r.push(s[i]);
        i += 1;
    }
    assert(r@ =~= s@);
    r
}

} // verus!
