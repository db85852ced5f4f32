//! One run of the history store, end to end on bytes: split the prior file
//! into lines, merge the new item in front, render the merged list back.

use crate::merge::{
    fresh_of, lemma_merge_rec_len, lemma_merge_rec_prefix, lemma_merge_rec_sources,
    lemma_resubmit_moves_to_front, merge_history, merged,
};
use crate::text::{
    lemma_lines_spec_no_newline, lemma_render_round_trip, lines_spec, render_history, render_spec,
    split_lines, NEWLINE,
};
use vstd::prelude::*;

verus! {

/// The bytes that one run persists, given the submitted item, the prior
/// file's bytes, and the entry cap.
pub open spec fn new_contents_spec(item: Seq<u8>, content: Seq<u8>, cap: nat) -> Seq<u8> {
    render_spec(merged(item, lines_spec(content), cap))
}

/// Compute the new history file from the submitted item and the old one.
///
/// A missing or unreadable old file is passed in as empty content; the
/// result is then the item's line alone.
pub fn build_new_contents(item: Vec<u8>, content: &Vec<u8>, max: usize) -> (r: Vec<u8>)
    requires
        max >= 1,
    ensures
        r@ == new_contents_spec(item@, content@, max as nat),
{
    let lines = split_lines(content);
    let list = merge_history(item, &lines, max);
    render_history(list.entries())
}

/// No entry of the merged history holds a newline byte, as long as the
/// submitted item holds none: the prior entries come from lines, which hold
/// none by construction.
pub proof fn lemma_merged_newline_free(item: Seq<u8>, content: Seq<u8>, cap: nat)
    requires
        !item.contains(NEWLINE),
    ensures
        forall|i: int|
            0 <= i < merged(item, lines_spec(content), cap).len() ==> !(#[trigger] merged(
                item,
                lines_spec(content),
                cap,
            )[i]).contains(NEWLINE),
{
    let lines = lines_spec(content);
    let m = merged(item, lines, cap);
    lemma_lines_spec_no_newline(content);
    lemma_merge_rec_sources(seq![item], lines, cap);
    assert forall|i: int| 0 <= i < m.len() implies !(#[trigger] m[i]).contains(NEWLINE) by {
        assert(m.contains(m[i]));
        if seq![item].contains(m[i]) {
            assert(seq![item][0] == item);
            assert(m[i] == item);
        } else {
            assert(lines.contains(m[i]));
            let j = choose|j: int| 0 <= j < lines.len() && lines[j] == m[i];
            assert(!lines[j].contains(NEWLINE));
        }
    }
}

/// Bounding: whatever the prior file held, the file that one run persists
/// never has more than `cap` lines.
pub proof fn lemma_persisted_bounded(item: Seq<u8>, content: Seq<u8>, cap: nat)
    requires
        cap >= 1,
        !item.contains(NEWLINE),
    ensures
        lines_spec(new_contents_spec(item, content, cap)).len() <= cap,
{
    let m = merged(item, lines_spec(content), cap);
    lemma_merged_newline_free(item, content, cap);
    lemma_merge_rec_len(seq![item], lines_spec(content), cap);
    lemma_render_round_trip(m);
}

/// The file left behind by a whole sequence of runs, each one persisting
/// its item into what the previous run left.
pub open spec fn submit_chain_spec(items: Seq<Seq<u8>>, content: Seq<u8>, cap: nat) -> Seq<u8>
    decreases items.len(),
{
    if items.len() == 0 {
        content
    } else {
        submit_chain_spec(items.skip(1), new_contents_spec(items[0], content, cap), cap)
    }
}

/// Bounding, over any number of runs: however many items are submitted one
/// after another, and whatever the file held at the start, the file that the
/// last run persists never has more than `cap` lines.
pub proof fn lemma_chain_bounded(items: Seq<Seq<u8>>, content: Seq<u8>, cap: nat)
    requires
        cap >= 1,
        items.len() >= 1,
        forall|i: int| 0 <= i < items.len() ==> !(#[trigger] items[i]).contains(NEWLINE),
    ensures
        lines_spec(submit_chain_spec(items, content, cap)).len() <= cap,
    decreases items.len(),
{
    let once = new_contents_spec(items[0], content, cap);
    if items.len() == 1 {
        lemma_persisted_bounded(items[0], content, cap);
        assert(items.skip(1).len() == 0);
        assert(submit_chain_spec(items.skip(1), once, cap) == once);
    } else {
        assert(forall|i: int|
            0 <= i < items.skip(1).len() ==> !(#[trigger] items.skip(1)[i]).contains(NEWLINE));
        lemma_chain_bounded(items.skip(1), once, cap);
    }
}

/// Order: the first line of the persisted file is always the submitted item.
pub proof fn lemma_first_line_is_item(item: Seq<u8>, content: Seq<u8>, cap: nat)
    requires
        cap >= 1,
        !item.contains(NEWLINE),
    ensures
        lines_spec(new_contents_spec(item, content, cap)).len() >= 1,
        lines_spec(new_contents_spec(item, content, cap))[0] == item,
{
    let m = merged(item, lines_spec(content), cap);
    lemma_merged_newline_free(item, content, cap);
    lemma_merge_rec_len(seq![item], lines_spec(content), cap);
    lemma_merge_rec_prefix(seq![item], lines_spec(content), cap);
    lemma_render_round_trip(m);
}

/// Missing-file tolerance: with no prior content the merged history is the
/// one submitted item, and the persisted file is that item's line alone.
pub proof fn lemma_first_run(item: Seq<u8>, cap: nat)
    requires
        cap >= 1,
    ensures
        merged(item, lines_spec(Seq::<u8>::empty()), cap) == seq![item],
        new_contents_spec(item, Seq::<u8>::empty(), cap) == item + seq![NEWLINE],
{
    assert(lines_spec(Seq::<u8>::empty()) =~= Seq::<Seq<u8>>::empty());
    assert(merged(item, lines_spec(Seq::<u8>::empty()), cap) == seq![item]);
    let one = seq![item];
    assert(one.drop_last() =~= Seq::<Seq<u8>>::empty());
    assert(one.last() == item);
    assert(render_spec(Seq::<Seq<u8>>::empty()) == Seq::<u8>::empty());
    assert(render_spec(one) == render_spec(one.drop_last()) + one.last() + seq![NEWLINE]);
    assert(Seq::<u8>::empty() + item + seq![NEWLINE] =~= item + seq![NEWLINE]);
}

/// Idempotent dedup, at the file: re-submitting an item that the prior file
/// already holds persists a file with the same lines, the item moved to the
/// front and the others kept in their old order.
pub proof fn lemma_resubmit_persisted(item: Seq<u8>, content: Seq<u8>, cap: nat)
    requires
        cap >= 1,
        !item.contains(NEWLINE),
        lines_spec(content).no_duplicates(),
        lines_spec(content).contains(item),
        lines_spec(content).len() <= cap,
    ensures
        lines_spec(new_contents_spec(item, content, cap)) == seq![item] + fresh_of(
            lines_spec(content),
            seq![item],
        ),
        lines_spec(new_contents_spec(item, content, cap)).len() == lines_spec(content).len(),
{
    let m = merged(item, lines_spec(content), cap);
    lemma_resubmit_moves_to_front(item, lines_spec(content), cap);
    lemma_merged_newline_free(item, content, cap);
    lemma_render_round_trip(m);
}

} // verus!
