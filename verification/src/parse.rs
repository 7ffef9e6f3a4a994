//! The two text parsers: one for stored note files (with the
//! bullet-preferring fallback rule) and one for raw model output
//! (with sentinel handling and case-insensitive dedup).
use vstd::prelude::*;

use crate::text::{
    chars_from, chars_to_string, contains_ci, eq_ci, has_ci, is_bullet, lines_spec, lower_seq,
    split_lines, str_to_chars, strings_of, trim_chars, trim_spec,
};

verus! {

/// A trimmed line that contributes to a parse: non-empty and not a
/// `#` heading or comment.
pub open spec fn kept_line(t: Seq<char>) -> bool {
    t.len() > 0 && t[0] != '#'
}

/// The note text of a bullet line: everything after the marker, trimmed.
pub open spec fn bullet_body(t: Seq<char>) -> Seq<char> {
    trim_spec(t.skip(2))
}

/// The trimmed bullet bodies of all kept bullet lines, in order.
pub open spec fn bullets_of(ls: Seq<Seq<char>>) -> Seq<Seq<char>>
    decreases ls.len(),
{
    if ls.len() == 0 {
        Seq::empty()
    } else {
        let prev = bullets_of(ls.drop_last());
        let t = trim_spec(ls.last());
        if kept_line(t) && is_bullet(t) {
            prev.push(bullet_body(t))
        } else {
            prev
        }
    }
}

/// The trimmed kept non-bullet lines, in order.
pub open spec fn plains_of(ls: Seq<Seq<char>>) -> Seq<Seq<char>>
    decreases ls.len(),
{
    if ls.len() == 0 {
        Seq::empty()
    } else {
        let prev = plains_of(ls.drop_last());
        let t = trim_spec(ls.last());
        if kept_line(t) && !is_bullet(t) {
            prev.push(t)
        } else {
            prev
        }
    }
}

/// What parsing a note file returns: the bullet bodies when any line is a
/// bullet, else the plain kept lines. The presence of a single bullet line
/// deliberately drops every plain line of the same file.
pub open spec fn parse_memories_spec(text: Seq<char>) -> Seq<Seq<char>> {
    let ls = lines_spec(text);
    if bullets_of(ls).len() > 0 {
        bullets_of(ls)
    } else {
        plains_of(ls)
    }
}

/// Parses a stored note file: per line, trim, skip blanks and `#` headings,
/// collect bullet bodies and plain lines; bullets win when any exist.
pub fn parse_memories(text: &str) -> (r: Vec<String>)
    ensures
        r.deep_view() == parse_memories_spec(text@),
{
    let chars = str_to_chars(text);
    let lines = split_lines(&chars);
    let ghost lds = lines.deep_view();
    let mut bullets: Vec<Vec<char>> = Vec::new();
    let mut plains: Vec<Vec<char>> = Vec::new();
    let mut i: usize = 0;
    assert(lds.take(0) =~= Seq::<Seq<char>>::empty());
    while i < lines.len()
        invariant
            i <= lines.len(),
            lds == lines.deep_view(),
            lds == lines_spec(text@),
            bullets.deep_view() =~~= bullets_of(lds.take(i as int)),
            plains.deep_view() =~~= plains_of(lds.take(i as int)),
        decreases lines.len() - i,
    {
        assert(lines@[i as int].deep_view() =~= lines@[i as int]@);
        assert(lds.take(i as int + 1).drop_last() =~= lds.take(i as int));
        assert(lds.take(i as int + 1).last() == lines@[i as int]@);
        let t = trim_chars(&lines[i]);
        if t.len() > 0 && t[0] != '#' {
            if t.len() >= 2 && (t[0] == '-' || t[0] == '*') && t[1] == ' ' {
                let rest = chars_from(&t, 2);
                let body = trim_chars(&rest);
                let ghost old_b = bullets.deep_view();
                bullets.push(body);
                assert(bullets.deep_view() =~~= old_b.push(bullet_body(trim_spec(
                    lines@[i as int]@,
                ))));
            } else {
                let ghost old_p = plains.deep_view();
                plains.push(t);
                assert(plains.deep_view() =~~= old_p.push(trim_spec(lines@[i as int]@)));
            }
        }
        i += 1;
    }
    assert(lds.take(lines.len() as int) =~= lds);
    if bullets.len() > 0 {
        strings_of(&bullets)
    } else {
        strings_of(&plains)
    }
}

/// The sentinel reply that means there is nothing to remember, compared
/// without regard to ASCII case.
pub open spec fn is_sentinel(t: Seq<char>) -> bool {
    lower_seq(t) == lower_seq("NO_MEMORIES"@)
}

/// A trimmed line of model output that yields a candidate: non-empty and
/// not the sentinel.
pub open spec fn candidate_kept(t: Seq<char>) -> bool {
    t.len() > 0 && !is_sentinel(t)
}

/// The candidate text of one kept line: a bullet marker is stripped, other
/// lines stand as they are.
pub open spec fn candidate_text(t: Seq<char>) -> Seq<char> {
    if is_bullet(t) {
        bullet_body(t)
    } else {
        t
    }
}

/// The candidate texts of all kept lines, in order, before dedup.
pub open spec fn raw_candidates(ls: Seq<Seq<char>>) -> Seq<Seq<char>>
    decreases ls.len(),
{
    if ls.len() == 0 {
        Seq::empty()
    } else {
        let prev = raw_candidates(ls.drop_last());
        let t = trim_spec(ls.last());
        if candidate_kept(t) {
            prev.push(candidate_text(t))
        } else {
            prev
        }
    }
}

/// Keeps of each case-insensitive key only its first occurrence, with its
/// original casing and position.
pub open spec fn dedup_ci(s: Seq<Seq<char>>) -> Seq<Seq<char>>
    decreases s.len(),
{
    if s.len() == 0 {
        Seq::empty()
    } else {
        let prev = dedup_ci(s.drop_last());
        if has_ci(s.drop_last(), s.last()) {
            prev
        } else {
            prev.push(s.last())
        }
    }
}

/// What parsing raw model output returns: nothing for a blank or sentinel
/// reply, else the kept lines' candidate texts deduplicated by lowercase key.
pub open spec fn parse_candidates_spec(text: Seq<char>) -> Seq<Seq<char>> {
    let t = trim_spec(text);
    if t.len() == 0 || is_sentinel(t) {
        Seq::empty()
    } else {
        dedup_ci(raw_candidates(lines_spec(t)))
    }
}

/// Position `i` holds the first entry of `s` with its key, and that entry
/// is `e`: dedup keeps exactly these, casing and order included.
pub open spec fn first_occurrence(s: Seq<Seq<char>>, i: int, e: Seq<char>) -> bool {
    0 <= i < s.len() && s[i] == e && !has_ci(s.take(i), s[i])
}

/// `e` stands in `s` as the first entry of its case-insensitive key.
pub open spec fn from_first_occurrence(s: Seq<Seq<char>>, e: Seq<char>) -> bool {
    exists|i: int| first_occurrence(s, i, e)
}

/// Deduplication keeps every key that the input has.
pub proof fn lemma_dedup_ci_complete(s: Seq<Seq<char>>)
    ensures
        forall|i: int| 0 <= i < s.len() ==> has_ci(dedup_ci(s), s[i]),
    decreases s.len(),
{
    if s.len() > 0 {
        lemma_dedup_ci_complete(s.drop_last());
        let prev = dedup_ci(s.drop_last());
        assert forall|i: int| 0 <= i < s.len() implies has_ci(dedup_ci(s), s[i]) by {
            if i < s.len() - 1 {
                assert(s.drop_last()[i] == s[i]);
                let w = choose|w: int|
                    0 <= w < prev.len() && lower_seq(prev[w]) == lower_seq(s[i]);
                if has_ci(s.drop_last(), s.last()) {
                    assert(dedup_ci(s) == prev);
                } else {
                    assert(dedup_ci(s)[w] == prev[w]);
                }
            } else {
                if has_ci(s.drop_last(), s.last()) {
                    let w = choose|w: int|
                        0 <= w < s.drop_last().len() && lower_seq(s.drop_last()[w]) == lower_seq(
                            s.last(),
                        );
                    assert(has_ci(dedup_ci(s.drop_last()), s.drop_last()[w]));
                    let v = choose|v: int|
                        0 <= v < prev.len() && lower_seq(prev[v]) == lower_seq(s.drop_last()[w]);
                    assert(lower_seq(dedup_ci(s)[v]) == lower_seq(s[i]));
                } else {
                    assert(lower_seq(dedup_ci(s).last()) == lower_seq(s[i]));
                }
            }
        }
    }
}

/// Deduplication leaves no two entries with the same key.
pub proof fn lemma_dedup_ci_distinct(s: Seq<Seq<char>>)
    ensures
        forall|i: int, j: int|
            0 <= i < j < dedup_ci(s).len() ==> lower_seq(dedup_ci(s)[i]) != lower_seq(
                dedup_ci(s)[j],
            ),
        forall|k: int|
            0 <= k < dedup_ci(s).len() ==> from_first_occurrence(s, #[trigger] dedup_ci(s)[k]),
    decreases s.len(),
{
    if s.len() > 0 {
        lemma_dedup_ci_distinct(s.drop_last());
        let prev = dedup_ci(s.drop_last());
        lemma_dedup_ci_complete(s.drop_last());
        assert forall|k: int| 0 <= k < dedup_ci(s).len() implies from_first_occurrence(
            s,
            #[trigger] dedup_ci(s)[k],
        ) by {
            if k < prev.len() {
                assert(dedup_ci(s)[k] == prev[k]);
                let i = choose|i: int| first_occurrence(s.drop_last(), i, prev[k]);
                assert(s.drop_last()[i] == s[i]);
                assert(s.drop_last().take(i) =~= s.take(i));
                assert(first_occurrence(s, i, dedup_ci(s)[k]));
            } else {
                assert(!has_ci(s.drop_last(), s.last()));
                assert(s.take(s.len() - 1) =~= s.drop_last());
                assert(s[s.len() - 1] == dedup_ci(s)[k]);
                assert(first_occurrence(s, s.len() - 1, dedup_ci(s)[k]));
            }
        }
        if !has_ci(s.drop_last(), s.last()) {
            assert forall|i: int, j: int|
                0 <= i < j < dedup_ci(s).len() implies lower_seq(dedup_ci(s)[i]) != lower_seq(
                dedup_ci(s)[j],
            ) by {
                if j == dedup_ci(s).len() - 1 {
                    let w = choose|w: int| first_occurrence(s.drop_last(), w, prev[i]);
                    assert(lower_seq(prev[i]) == lower_seq(s.drop_last()[w]));
                    if lower_seq(dedup_ci(s)[i]) == lower_seq(dedup_ci(s)[j]) {
                        assert(lower_seq(s.drop_last()[w]) == lower_seq(s.last()));
                        assert(has_ci(s.drop_last(), s.last()));
                    }
                } else {
                    assert(dedup_ci(s)[i] == prev[i] && dedup_ci(s)[j] == prev[j]);
                }
            }
        }
    }
}

pub proof fn lemma_bullets_nonempty(ls: Seq<Seq<char>>, i: int)
    requires
        0 <= i < ls.len(),
        kept_line(trim_spec(ls[i])),
        is_bullet(trim_spec(ls[i])),
    ensures
        bullets_of(ls).len() > 0,
    decreases ls.len(),
{
    if i < ls.len() - 1 {
        assert(ls.drop_last()[i] == ls[i]);
        lemma_bullets_nonempty(ls.drop_last(), i);
    }
}

pub proof fn lemma_bullets_empty(ls: Seq<Seq<char>>)
    requires
        forall|i: int|
            0 <= i < ls.len() ==> !(kept_line(trim_spec(#[trigger] ls[i])) && is_bullet(
                trim_spec(ls[i]),
            )),
    ensures
        bullets_of(ls).len() == 0,
    decreases ls.len(),
{
    if ls.len() > 0 {
        assert forall|i: int| 0 <= i < ls.drop_last().len() implies !(kept_line(
            trim_spec(#[trigger] ls.drop_last()[i]),
        ) && is_bullet(trim_spec(ls.drop_last()[i]))) by {
            assert(ls.drop_last()[i] == ls[i]);
        }
        lemma_bullets_empty(ls.drop_last());
    }
}

/// One kept bullet line anywhere in the file makes the parse return exactly
/// the trimmed bullet bodies, in file order; every plain line is dropped.
pub proof fn lemma_parse_prefers_bullets(text: Seq<char>, i: int)
    requires
        0 <= i < lines_spec(text).len(),
        kept_line(trim_spec(lines_spec(text)[i])),
        is_bullet(trim_spec(lines_spec(text)[i])),
    ensures
        parse_memories_spec(text) == bullets_of(lines_spec(text)),
{
    lemma_bullets_nonempty(lines_spec(text), i);
}

/// With no bullet line anywhere in the file, the parse returns every
/// non-blank, non-heading line, trimmed, in file order.
pub proof fn lemma_parse_falls_back_to_lines(text: Seq<char>)
    requires
        forall|i: int|
            0 <= i < lines_spec(text).len() ==> !(kept_line(
                trim_spec(#[trigger] lines_spec(text)[i]),
            ) && is_bullet(trim_spec(lines_spec(text)[i]))),
    ensures
        parse_memories_spec(text) == plains_of(lines_spec(text)),
{
    lemma_bullets_empty(lines_spec(text));
}

/// A reply that is blank, or equals the sentinel up to ASCII case, yields
/// no candidates at all.
pub proof fn lemma_candidates_sentinel(text: Seq<char>)
    requires
        trim_spec(text).len() == 0 || is_sentinel(trim_spec(text)),
    ensures
        parse_candidates_spec(text) == Seq::<Seq<char>>::empty(),
{
}

/// Candidates never repeat a case-insensitive key, every extracted key
/// survives, and each survivor is the first raw candidate of its key, with
/// its original casing.
pub proof fn lemma_candidates_deduped(text: Seq<char>)
    ensures
        forall|i: int, j: int|
            0 <= i < j < parse_candidates_spec(text).len() ==> lower_seq(
                parse_candidates_spec(text)[i],
            ) != lower_seq(parse_candidates_spec(text)[j]),
        forall|i: int|
            0 <= i < raw_candidates(lines_spec(trim_spec(text))).len() && !(trim_spec(
                text,
            ).len() == 0 || is_sentinel(trim_spec(text))) ==> has_ci(
                parse_candidates_spec(text),
                #[trigger] raw_candidates(lines_spec(trim_spec(text)))[i],
            ),
        forall|k: int|
            0 <= k < parse_candidates_spec(text).len() ==> from_first_occurrence(
                raw_candidates(lines_spec(trim_spec(text))),
                #[trigger] parse_candidates_spec(text)[k],
            ),
{
    let t = trim_spec(text);
    if !(t.len() == 0 || is_sentinel(t)) {
        lemma_dedup_ci_distinct(raw_candidates(lines_spec(t)));
        lemma_dedup_ci_complete(raw_candidates(lines_spec(t)));
    }
}

/// Parses raw model output into the ordered, deduplicated candidate notes.
pub fn parse_memory_candidates(text: &str) -> (r: Vec<String>)
    ensures
        r.deep_view() == parse_candidates_spec(text@),
{
    let chars = str_to_chars(text);
    let trimmed = trim_chars(&chars);
    let sentinel = str_to_chars("NO_MEMORIES");
    if trimmed.len() == 0 || eq_ci(&trimmed, &sentinel) {
        let r: Vec<String> = Vec::new();
        assert(r.deep_view() =~= parse_candidates_spec(text@));
        return r;
    }
    let lines = split_lines(&trimmed);
    let ghost lds = lines.deep_view();
    let mut out: Vec<Vec<char>> = Vec::new();
    let mut i: usize = 0;
    assert(lds.take(0) =~= Seq::<Seq<char>>::empty());
    while i < lines.len()
        invariant
            i <= lines.len(),
            lds == lines.deep_view(),
            lds == lines_spec(trim_spec(text@)),
            sentinel@ == "NO_MEMORIES"@,
            out.deep_view() =~~= dedup_ci(raw_candidates(lds.take(i as int))),
        decreases lines.len() - i,
    {
        assert(lines@[i as int].deep_view() =~= lines@[i as int]@);
        assert(lds[i as int] == lines@[i as int]@);
        assert(lds.take(i as int + 1).drop_last() =~= lds.take(i as int));
        assert(lds.take(i as int + 1).last() == lines@[i as int]@);
        let t = trim_chars(&lines[i]);
        let ghost tv = t@;
        assert(tv == trim_spec(lds.take(i as int + 1).last()));
        let ghost raw_prev = raw_candidates(lds.take(i as int));
        if t.len() > 0 && !eq_ci(&t, &sentinel) {
            assert(tv.len() > 0);
            assert(sentinel@ == "NO_MEMORIES"@);
            assert(!is_sentinel(tv));
            assert(candidate_kept(tv));
            let entry = if t.len() >= 2 && (t[0] == '-' || t[0] == '*') && t[1] == ' ' {
                let rest = chars_from(&t, 2);
                trim_chars(&rest)
            } else {
                t
            };
            assert(entry@ == candidate_text(tv));
            let ghost raw_now = raw_candidates(lds.take(i as int + 1));
            assert(raw_now == raw_prev.push(entry@));
            assert(raw_now.drop_last() =~= raw_prev);
            proof {
                lemma_dedup_ci_complete(raw_prev);
                lemma_dedup_ci_distinct(raw_prev);
            }
            if !contains_ci(&out, &entry) {
                let ghost old_out = out.deep_view();
                assert(!has_ci(raw_prev, entry@)) by {
                    if has_ci(raw_prev, entry@) {
                        let w = choose|w: int|
                            0 <= w < raw_prev.len() && lower_seq(raw_prev[w]) == lower_seq(entry@);
                        assert(has_ci(dedup_ci(raw_prev), raw_prev[w]));
                    }
                }
                out.push(entry);
                assert(out.deep_view() =~~= old_out.push(raw_now.last()));
            } else {
                assert(has_ci(raw_prev, entry@)) by {
                    let w = choose|w: int|
                        0 <= w < dedup_ci(raw_prev).len() && lower_seq(dedup_ci(raw_prev)[w])
                            == lower_seq(entry@);
                    let i0 = choose|i0: int|
                        first_occurrence(raw_prev, i0, dedup_ci(raw_prev)[w]);
                    assert(lower_seq(raw_prev[i0]) == lower_seq(entry@));
                }
            }
        } else {
            assert(!candidate_kept(tv));
            assert(raw_candidates(lds.take(i as int + 1)) == raw_prev);
        }
        i += 1;
    }
    assert(lds.take(lines.len() as int) =~= lds);
    let r = strings_of(&out);
    assert(r.deep_view() =~~= parse_candidates_spec(text@));
    r
}

} // verus!
