//! Reading one store file's bytes into notes, and planning an append:
//! which candidates survive the merge against the existing notes, and the
//! exact text that one batch adds to the file.
use vstd::prelude::*;
use vstd::string::StringExecFns;

use crate::parse::parse_memories;
use crate::parse::parse_memories_spec;
use crate::text::{
    chars_of_strings, contains_ci, distinct_keys, has_ci, lower_seq, str_to_chars, strings_of,
    trim_chars, trim_spec,
};

verus! {

/// The byte cap on one store file read: only this much of the file's tail
/// is ever parsed.
pub const MEMORIES_MAX_BYTES: usize = 8192;

/// The bytes that are parsed: the whole file when it fits the cap, else
/// exactly its trailing cap-sized window (oldest content is dropped).
pub open spec fn tail_window(d: Seq<u8>) -> Seq<u8> {
    if d.len() > MEMORIES_MAX_BYTES {
        d.subrange(d.len() - MEMORIES_MAX_BYTES, d.len() as int)
    } else {
        d
    }
}

/// The decoding that `String::from_utf8_lossy` performs, named: it depends
/// on the bytes alone.
pub uninterp spec fn lossy_decode_of(bytes: Seq<u8>) -> Seq<char>;

/// Relies on `String::from_utf8_lossy`: invalid sequences are replaced
/// rather than failing, valid UTF-8 decodes exactly, nothing comes from
/// nothing.
#[verifier::external_body]
fn lossy_decode(data: &Vec<u8>) -> (r: String)
    ensures
        r@ == lossy_decode_of(data@),
        vstd::utf8::valid_utf8(data@) ==> r@ == vstd::utf8::decode_utf8(data@),
        data@.len() == 0 ==> r@.len() == 0,
{
    String::from_utf8_lossy(data).into_owned()
}

/// What reading a store file's raw bytes yields: nothing for an empty file,
/// else the parse of the lossily decoded trailing window.
pub open spec fn read_data_spec(d: Seq<u8>) -> Seq<Seq<char>> {
    if d.len() == 0 {
        Seq::empty()
    } else {
        parse_memories_spec(lossy_decode_of(tail_window(d)))
    }
}

/// Turns a store file's bytes into its notes; a file over the byte cap is
/// silently reduced to its trailing window first.
pub fn read_memories_data(data: &Vec<u8>) -> (r: Vec<String>)
    ensures
        r.deep_view() == read_data_spec(data@),
{
    if data.len() == 0 {
        let r: Vec<String> = Vec::new();
        assert(r.deep_view() =~= read_data_spec(data@));
        return r;
    }
    let window = if data.len() > MEMORIES_MAX_BYTES {
        let mut w: Vec<u8> = Vec::new();
        let mut i: usize = data.len() - MEMORIES_MAX_BYTES;
        while i < data.len()
            invariant
                data@.len() - MEMORIES_MAX_BYTES <= i <= data@.len(),
                data@.len() > MEMORIES_MAX_BYTES,
                w@ =~= data@.subrange(data@.len() - MEMORIES_MAX_BYTES, i as int),
            decreases data.len() - i,
        {
            w.push(data[i]);
            i += 1;
        }
        assert(w@ =~= tail_window(data@));
        w
    } else {
        let mut w: Vec<u8> = Vec::new();
        let mut i: usize = 0;
        while i < data.len()
            invariant
                i <= data@.len(),
                data@.len() <= MEMORIES_MAX_BYTES,
                w@ =~= data@.take(i as int),
            decreases data.len() - i,
        {
            w.push(data[i]);
            i += 1;
        }
        assert(w@ =~= tail_window(data@));
        w
    };
    let text = lossy_decode(&window);
    parse_memories(text.as_str())
}

/// A file larger than the byte cap is parsed exactly as if it contained
/// only its trailing cap-sized window.
pub proof fn lemma_oversized_reads_as_tail(d: Seq<u8>)
    requires
        d.len() > MEMORIES_MAX_BYTES,
    ensures
        read_data_spec(d) == read_data_spec(
            d.subrange(d.len() - MEMORIES_MAX_BYTES, d.len() as int),
        ),
{
    let w = d.subrange(d.len() - MEMORIES_MAX_BYTES, d.len() as int);
    assert(tail_window(w) =~= w);
    assert(tail_window(d) =~= w);
}

/// The additions that one candidate batch makes against existing notes:
/// per candidate, in order, trim it, drop it when blank, when its key is
/// already stored, or when an earlier addition of this batch took its key.
pub open spec fn select_new(existing: Seq<Seq<char>>, cands: Seq<Seq<char>>) -> Seq<Seq<char>>
    decreases cands.len(),
{
    if cands.len() == 0 {
        Seq::empty()
    } else {
        let prev = select_new(existing, cands.drop_last());
        let t = trim_spec(cands.last());
        if t.len() == 0 || has_ci(existing, t) || has_ci(prev, t) {
            prev
        } else {
            prev.push(t)
        }
    }
}

/// Merges a candidate batch against a store's existing notes; only the
/// returned additions are appended, in this order.
pub fn select_new_memories(existing: &Vec<String>, candidates: &Vec<String>) -> (r: Vec<String>)
    ensures
        r.deep_view() == select_new(existing.deep_view(), candidates.deep_view()),
{
    let exv = chars_of_strings(existing);
    let ghost ex = existing.deep_view();
    let ghost cds = candidates.deep_view();
    let mut adds: Vec<Vec<char>> = Vec::new();
    let mut i: usize = 0;
    assert(cds.take(0) =~= Seq::<Seq<char>>::empty());
    while i < candidates.len()
        invariant
            i <= candidates.len(),
            ex == existing.deep_view(),
            cds == candidates.deep_view(),
            exv.deep_view() == ex,
            adds.deep_view() =~~= select_new(ex, cds.take(i as int)),
        decreases candidates.len() - i,
    {
        assert(cds.take(i as int + 1).drop_last() =~= cds.take(i as int));
        assert(cds[i as int] == candidates@[i as int]@);
        assert(cds.take(i as int + 1).last() == candidates@[i as int]@);
        let c = str_to_chars(candidates[i].as_str());
        let t = trim_chars(&c);
        let ghost tv = t@;
        assert(tv == trim_spec(cds.take(i as int + 1).last()));
        if t.len() > 0 && !contains_ci(&exv, &t) && !contains_ci(&adds, &t) {
            let ghost old_a = adds.deep_view();
            adds.push(t);
            assert(adds.deep_view() =~~= old_a.push(tv));
        }
        i += 1;
    }
    assert(cds.take(candidates.len() as int) =~= cds);
    let r = strings_of(&adds);
    assert(r.deep_view() =~~= select_new(ex, cds));
    r
}

/// One write batch never duplicates a key, neither within itself nor
/// against the store's existing notes.
pub proof fn lemma_select_new_distinct(existing: Seq<Seq<char>>, cands: Seq<Seq<char>>)
    ensures
        distinct_keys(select_new(existing, cands)),
        forall|k: int|
            0 <= k < select_new(existing, cands).len() ==> !has_ci(
                existing,
                #[trigger] select_new(existing, cands)[k],
            ),
    decreases cands.len(),
{
    if cands.len() > 0 {
        lemma_select_new_distinct(existing, cands.drop_last());
        let prev = select_new(existing, cands.drop_last());
        let t = trim_spec(cands.last());
        if !(t.len() == 0 || has_ci(existing, t) || has_ci(prev, t)) {
            assert forall|i: int, j: int|
                0 <= i < j < prev.push(t).len() implies lower_seq(prev.push(t)[i]) != lower_seq(
                prev.push(t)[j],
            ) by {
                if j == prev.len() {
                    if lower_seq(prev[i]) == lower_seq(t) {
                        assert(has_ci(prev, t));
                    }
                }
            }
            assert forall|k: int|
                0 <= k < prev.push(t).len() implies !has_ci(
                existing,
                #[trigger] prev.push(t)[k],
            ) by {
                if k < prev.len() {
                    assert(prev.push(t)[k] == prev[k]);
                }
            }
        }
    }
}

/// The bullet lines of a batch: `- ` before each addition, a newline after.
pub open spec fn bullet_lines(additions: Seq<Seq<char>>) -> Seq<char>
    decreases additions.len(),
{
    if additions.len() == 0 {
        Seq::empty()
    } else {
        bullet_lines(additions.drop_last()) + "- "@ + additions.last() + "\n"@
    }
}

/// The exact text one append writes: a one-line header for a fresh (empty
/// or absent) store, a single blank separator line otherwise, then the
/// batch's bullet lines.
pub open spec fn append_block_spec(additions: Seq<Seq<char>>, file_empty: bool) -> Seq<char> {
    (if file_empty {
        "# Memories\n"@
    } else {
        "\n"@
    }) + bullet_lines(additions)
}

/// Renders the text that appending `additions` writes to a store whose
/// current content is empty or absent exactly when `file_empty` holds.
pub fn render_append_block(additions: &Vec<String>, file_empty: bool) -> (r: String)
    ensures
        r@ == append_block_spec(additions.deep_view(), file_empty),
{
    let ghost ads = additions.deep_view();
    let mut r = String::new();
    if file_empty {
        r.append("# Memories\n");
    } else {
        r.append("\n");
    }
    let ghost head = r@;
    let mut i: usize = 0;
    assert(ads.take(0) =~= Seq::<Seq<char>>::empty());
    assert(r@ =~= head + bullet_lines(ads.take(0)));
    while i < additions.len()
        invariant
            i <= additions.len(),
            ads == additions.deep_view(),
            r@ =~= head + bullet_lines(ads.take(i as int)),
        decreases additions.len() - i,
    {
        assert(ads.take(i as int + 1).drop_last() =~= ads.take(i as int));
        assert(ads[i as int] == additions@[i as int]@);
        assert(ads.take(i as int + 1).last() == additions@[i as int]@);
        r.append("- ");
        r.append(additions[i].as_str());
        r.append("\n");
        assert(r@ =~= head + bullet_lines(ads.take(i as int + 1)));
        i += 1;
    }
    assert(ads.take(additions.len() as int) =~= ads);
    assert(r@ =~= append_block_spec(ads, file_empty));
    r
}

} // verus!
