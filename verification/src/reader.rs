//! Surfacing stored notes: merging the note lists of all resolved stores
//! with one global case-insensitive dedup, and rendering the block that is
//! handed back into future prompts.
use vstd::prelude::*;
use vstd::string::StringExecFns;

use crate::text::{contains_ci, distinct_keys, has_ci, lower_seq, str_to_chars, strings_of,
    trim_chars, trim_spec};

verus! {

/// One entry folded into the merged list: trimmed, dropped when blank or
/// when an earlier entry already took its key.
pub open spec fn merge_entry(acc: Seq<Seq<char>>, e: Seq<char>) -> Seq<Seq<char>> {
    let t = trim_spec(e);
    if t.len() == 0 || has_ci(acc, t) {
        acc
    } else {
        acc.push(t)
    }
}

pub open spec fn merge_entries(acc: Seq<Seq<char>>, entries: Seq<Seq<char>>) -> Seq<Seq<char>>
    decreases entries.len(),
{
    if entries.len() == 0 {
        acc
    } else {
        merge_entry(merge_entries(acc, entries.drop_last()), entries.last())
    }
}

pub open spec fn merge_lists(acc: Seq<Seq<char>>, lists: Seq<Seq<Seq<char>>>) -> Seq<Seq<char>>
    decreases lists.len(),
{
    if lists.len() == 0 {
        acc
    } else {
        merge_entries(merge_lists(acc, lists.drop_last()), lists.last())
    }
}

/// The cross-store merge: every store's notes in store order, deduplicated
/// globally by lowercase key, first-seen casing and order kept.
pub open spec fn merged_memories(lists: Seq<Seq<Seq<char>>>) -> Seq<Seq<char>> {
    merge_lists(Seq::empty(), lists)
}

/// Merges the parsed note lists of all stores into one list, in order,
/// with one global case-insensitive dedup across stores.
pub fn merge_memory_lists(lists: &Vec<Vec<String>>) -> (r: Vec<String>)
    ensures
        r.deep_view() == merged_memories(lists.deep_view()),
{
    let ghost lds = lists.deep_view();
    let mut acc: Vec<Vec<char>> = Vec::new();
    let mut i: usize = 0;
    assert(lds.take(0) =~= Seq::<Seq<Seq<char>>>::empty());
    while i < lists.len()
        invariant
            i <= lists.len(),
            lds == lists.deep_view(),
            acc.deep_view() =~~= merge_lists(Seq::empty(), lds.take(i as int)),
        decreases lists.len() - i,
    {
        let ghost base = merge_lists(Seq::empty(), lds.take(i as int));
        let ghost entries = lds[i as int];
        assert(entries == lists@[i as int].deep_view());
        assert(lds.take(i as int + 1).drop_last() =~= lds.take(i as int));
        assert(lds.take(i as int + 1).last() == entries);
        let mut j: usize = 0;
        assert(entries.take(0) =~= Seq::<Seq<char>>::empty());
        while j < lists[i].len()
            invariant
                i < lists@.len(),
                j <= lists@[i as int]@.len(),
                lds == lists.deep_view(),
                entries == lists@[i as int].deep_view(),
                base == merge_lists(Seq::empty(), lds.take(i as int)),
                acc.deep_view() =~~= merge_entries(base, entries.take(j as int)),
            decreases lists@[i as int]@.len() - j,
        {
            assert(entries.take(j as int + 1).drop_last() =~= entries.take(j as int));
            assert(entries[j as int] == lists@[i as int]@[j as int]@);
            assert(entries.take(j as int + 1).last() == lists@[i as int]@[j as int]@);
            let c = str_to_chars(lists[i][j].as_str());
            let t = trim_chars(&c);
            let ghost tv = t@;
            if t.len() > 0 && !contains_ci(&acc, &t) {
                let ghost old_a = acc.deep_view();
                acc.push(t);
                assert(acc.deep_view() =~~= old_a.push(tv));
            }
            assert(acc.deep_view() =~~= merge_entries(base, entries.take(j as int + 1)));
            j += 1;
        }
        assert(entries.take(lists@[i as int]@.len() as int) =~= entries);
        assert(acc.deep_view() =~~= merge_lists(Seq::empty(), lds.take(i as int + 1)));
        i += 1;
    }
    assert(lds.take(lists.len() as int) =~= lds);
    let r = strings_of(&acc);
    assert(r.deep_view() =~~= merged_memories(lds));
    r
}

pub proof fn lemma_merge_entries_distinct(acc: Seq<Seq<char>>, entries: Seq<Seq<char>>)
    requires
        distinct_keys(acc),
    ensures
        distinct_keys(merge_entries(acc, entries)),
    decreases entries.len(),
{
    if entries.len() > 0 {
        lemma_merge_entries_distinct(acc, entries.drop_last());
        let m = merge_entries(acc, entries.drop_last());
        let t = trim_spec(entries.last());
        if !(t.len() == 0 || has_ci(m, t)) {
            assert forall|i: int, j: int|
                0 <= i < j < m.push(t).len() implies lower_seq(m.push(t)[i]) != lower_seq(
                m.push(t)[j],
            ) by {
                if j == m.len() {
                    if lower_seq(m[i]) == lower_seq(t) {
                        assert(has_ci(m, t));
                    }
                }
            }
        }
    }
}

/// A merged read never holds two notes with the same key: the cross-store
/// dedup is global.
pub proof fn lemma_merged_memories_distinct(lists: Seq<Seq<Seq<char>>>)
    ensures
        distinct_keys(merged_memories(lists)),
    decreases lists.len(),
{
    if lists.len() == 0 {
        assert(distinct_keys(Seq::<Seq<char>>::empty()));
    } else {
        lemma_merged_memories_distinct(lists.drop_last());
        lemma_merge_entries_distinct(merge_lists(Seq::empty(), lists.drop_last()), lists.last());
    }
}

/// The bullet lines under the block header: `\n- ` before each note.
pub open spec fn section_lines(entries: Seq<Seq<char>>) -> Seq<char>
    decreases entries.len(),
{
    if entries.len() == 0 {
        Seq::empty()
    } else {
        section_lines(entries.drop_last()) + "\n- "@ + entries.last()
    }
}

/// The rendered block: nothing when no notes survive the merge, else the
/// fixed header line and one bullet line per note, in merge order.
pub open spec fn memories_section_spec(entries: Seq<Seq<char>>) -> Option<Seq<char>> {
    if entries.len() == 0 {
        None
    } else {
        Some("## Memories"@ + section_lines(entries))
    }
}

/// Renders the merged notes for prompt use: `None` exactly when the list is
/// empty, else the fixed header followed by one `- ` line per note in order.
pub fn build_memories_section(entries: &Vec<String>) -> (r: Option<String>)
    ensures
        r.deep_view() == memories_section_spec(entries.deep_view()),
        r is None <==> entries@.len() == 0,
{
    let ghost eds = entries.deep_view();
    if entries.len() == 0 {
        return None;
    }
    let mut s = String::new();
    s.append("## Memories");
    let ghost head = s@;
    assert(head == "## Memories"@);
    let mut i: usize = 0;
    assert(eds.take(0) =~= Seq::<Seq<char>>::empty());
    assert(s@ =~= head + section_lines(eds.take(0)));
    while i < entries.len()
        invariant
            i <= entries.len(),
            eds == entries.deep_view(),
            s@ =~= head + section_lines(eds.take(i as int)),
            head == "## Memories"@,
        decreases entries.len() - i,
    {
        assert(eds.take(i as int + 1).drop_last() =~= eds.take(i as int));
        assert(eds[i as int] == entries@[i as int]@);
        assert(eds.take(i as int + 1).last() == entries@[i as int]@);
        s.append("\n- ");
        s.append(entries[i].as_str());
        assert(s@ =~= head + section_lines(eds.take(i as int + 1)));
        i += 1;
    }
    assert(eds.take(entries.len() as int) =~= eds);
    assert(s@ == "## Memories"@ + section_lines(eds));
    Some(s)
}

/// Merges all stores' note lists and renders the block in one step, as the
/// reader surfaces memories back into a prompt.
pub fn merged_memories_section(lists: &Vec<Vec<String>>) -> (r: Option<String>)
    ensures
        r.deep_view() == memories_section_spec(merged_memories(lists.deep_view())),
        r is None <==> merged_memories(lists.deep_view()).len() == 0,
{
    let merged = merge_memory_lists(lists);
    build_memories_section(&merged)
}

} // verus!
