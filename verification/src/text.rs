//! The persisted text form of a history: one entry per line.
//!
//! A history file is the entries in order, each followed by one newline
//! byte. Reading splits the file at newline bytes; a final segment is kept
//! only when it is nonempty, so a file that ends with a newline yields no
//! empty trailing entry.

use vstd::prelude::*;

verus! {

/// The line separator of the persisted file.
pub const NEWLINE: u8 = 10;

/// The segments of `content` between newline bytes, kept in order. There is
/// always one segment more than there are newline bytes, so content that
/// ends with a newline ends with an empty segment.
pub open spec fn split_all(content: Seq<u8>) -> Seq<Seq<u8>>
    decreases content.len(),
{
    if content.len() == 0 {
        seq![Seq::<u8>::empty()]
    } else if content.last() == NEWLINE {
        split_all(content.drop_last()).push(Seq::<u8>::empty())
    } else {
        let segs = split_all(content.drop_last());
        segs.update(segs.len() - 1, segs.last().push(content.last()))
    }
}

/// The lines of `content`: its segments, without the empty final segment
/// that a trailing newline leaves behind.
pub open spec fn lines_spec(content: Seq<u8>) -> Seq<Seq<u8>> {
    let segs = split_all(content);
    if segs.last().len() == 0 {
        segs.drop_last()
    } else {
        segs
    }
}

/// The persisted form of a history: each entry followed by one newline.
pub open spec fn render_spec(entries: Seq<Seq<u8>>) -> Seq<u8>
    decreases entries.len(),
{
    if entries.len() == 0 {
        Seq::<u8>::empty()
    } else {
        render_spec(entries.drop_last()) + entries.last() + seq![NEWLINE]
    }
}

/// `s` with every trailing newline byte removed.
pub open spec fn trim_newlines_spec(s: Seq<u8>) -> Seq<u8>
    decreases s.len(),
{
    if s.len() > 0 && s.last() == NEWLINE {
        trim_newlines_spec(s.drop_last())
    } else {
        s
    }
}

/// There is always at least one segment.
pub proof fn lemma_split_all_len(content: Seq<u8>)
    ensures
        split_all(content).len() >= 1,
    decreases content.len(),
{
    if content.len() > 0 {
        lemma_split_all_len(content.drop_last());
    }
}

/// No segment holds a newline byte: the split consumes them all.
pub proof fn lemma_split_all_no_newline(content: Seq<u8>)
    ensures
        forall|i: int|
            0 <= i < split_all(content).len() ==> !(#[trigger] split_all(content)[i]).contains(
                NEWLINE,
            ),
    decreases content.len(),
{
    if content.len() == 0 {
    } else {
        let segs = split_all(content.drop_last());
        lemma_split_all_len(content.drop_last());
        lemma_split_all_no_newline(content.drop_last());
        assert forall|i: int|
            0 <= i < split_all(content).len() implies !(#[trigger] split_all(content)[i]).contains(
            NEWLINE,
        ) by {
            if content.last() == NEWLINE {
                if i < segs.len() {
                    assert(split_all(content)[i] == segs[i]);
                }
            } else {
                if i == segs.len() - 1 {
                    let ext = segs.last().push(content.last());
                    assert(split_all(content)[i] == ext);
                    assert(!ext.contains(NEWLINE)) by {
                        if ext.contains(NEWLINE) {
                            let j = choose|j: int| 0 <= j < ext.len() && ext[j] == NEWLINE;
                            if j < segs.last().len() {
                                assert(segs.last().contains(NEWLINE));
                            }
                        }
                    }
                } else {
                    assert(split_all(content)[i] == segs[i]);
                }
            }
        }
    }
}

/// The lines of a file are its segments with newlines consumed, so no line
/// holds a newline byte either.
pub proof fn lemma_lines_spec_no_newline(content: Seq<u8>)
    ensures
        forall|i: int|
            0 <= i < lines_spec(content).len() ==> !(#[trigger] lines_spec(content)[i]).contains(
                NEWLINE,
            ),
{
    lemma_split_all_no_newline(content);
    lemma_split_all_len(content);
}

/// Appending a newline-free tail to the content only lengthens the final
/// segment.
pub proof fn lemma_split_all_append_segment(x: Seq<u8>, e: Seq<u8>)
    requires
        !e.contains(NEWLINE),
    ensures
        split_all(x + e) == split_all(x).update(
            split_all(x).len() - 1,
            split_all(x).last() + e,
        ),
    decreases e.len(),
{
    lemma_split_all_len(x);
    let segs = split_all(x);
    if e.len() == 0 {
        assert(x + e =~= x);
        assert(segs.update(segs.len() - 1, segs.last() + e) =~= segs);
    } else {
        let e2 = e.drop_last();
        let b = e.last();
        assert(!e2.contains(NEWLINE)) by {
            if e2.contains(NEWLINE) {
                let j = choose|j: int| 0 <= j < e2.len() && e2[j] == NEWLINE;
                assert(e[j] == NEWLINE);
            }
        }
        assert(b != NEWLINE) by {
            if b == NEWLINE {
                assert(e[e.len() - 1] == NEWLINE);
            }
        }
        lemma_split_all_append_segment(x, e2);
        assert((x + e).drop_last() =~= x + e2);
        assert((x + e).last() == b);
        assert((x + e).len() > 0);
        let prev = split_all(x + e2);
        assert(split_all(x + e) == prev.update(prev.len() - 1, prev.last().push(b)));
        assert(prev.len() == segs.len());
        assert(prev.last() == segs.last() + e2);
        assert((segs.last() + e2).push(b) =~= segs.last() + e);
        assert(prev.update(prev.len() - 1, prev.last().push(b)) =~= segs.update(
            segs.len() - 1,
            segs.last() + e,
        ));
    }
}

/// Appending one newline closes the final segment and opens an empty one.
pub proof fn lemma_split_all_append_newline(x: Seq<u8>)
    ensures
        split_all(x.push(NEWLINE)) == split_all(x).push(Seq::<u8>::empty()),
{
    assert(x.push(NEWLINE).drop_last() =~= x);
    assert(x.push(NEWLINE).last() == NEWLINE);
}

/// Writing a history and reading it back yields exactly the same entries:
/// the segments are the entries plus the empty segment after the final
/// newline, and the lines are the entries themselves.
pub proof fn lemma_render_round_trip(entries: Seq<Seq<u8>>)
    requires
        forall|i: int| 0 <= i < entries.len() ==> !(#[trigger] entries[i]).contains(NEWLINE),
    ensures
        split_all(render_spec(entries)) == entries.push(Seq::<u8>::empty()),
        lines_spec(render_spec(entries)) == entries,
    decreases entries.len(),
{
    if entries.len() == 0 {
        assert(split_all(render_spec(entries)) =~= entries.push(Seq::<u8>::empty()));
        assert(lines_spec(render_spec(entries)) =~= entries);
    } else {
        let es2 = entries.drop_last();
        let e = entries.last();
        assert(forall|i: int| 0 <= i < es2.len() ==> !(#[trigger] es2[i]).contains(NEWLINE));
        lemma_render_round_trip(es2);
        let x = render_spec(es2);
        lemma_split_all_append_segment(x, e);
        let withe = split_all(x + e);
        assert(withe =~= es2.push(e)) by {
            assert(split_all(x) == es2.push(Seq::<u8>::empty()));
            assert(split_all(x).last() =~= Seq::<u8>::empty());
            assert(Seq::<u8>::empty() + e =~= e);
        }
        lemma_split_all_append_newline(x + e);
        assert(render_spec(entries) == x + e + seq![NEWLINE]);
        assert(x + e + seq![NEWLINE] =~= (x + e).push(NEWLINE));
        assert(split_all(render_spec(entries)) =~= es2.push(e).push(Seq::<u8>::empty()));
        assert(es2.push(e) =~= entries);
        let segs = split_all(render_spec(entries));
        assert(segs.last().len() == 0);
        assert(segs.drop_last() =~= entries);
    }
}

/// Split the persisted content into its lines, newline bytes consumed, an
/// empty final segment dropped.
pub fn split_lines(content: &Vec<u8>) -> (r: Vec<Vec<u8>>)
    ensures
        crate::merge::lines_view(r@) == lines_spec(content@),
{
    let mut out: Vec<Vec<u8>> = Vec::new();
    let mut cur: Vec<u8> = Vec::new();
    let mut i: usize = 0;
    proof {
        assert(content@.take(0) =~= Seq::<u8>::empty());
        assert(crate::merge::lines_view(out@).push(cur@) =~= split_all(content@.take(0)));
    }
    while i < content.len()
        invariant
            i <= content@.len(),
            crate::merge::lines_view(out@).push(cur@) == split_all(content@.take(i as int)),
        decreases content@.len() - i,
    {
        let ghost segs = split_all(content@.take(i as int));
        let ghost outv = crate::merge::lines_view(out@);
        let b = content[i];
        proof {
            assert(content@.take(i + 1).drop_last() =~= content@.take(i as int));
            assert(content@.take(i + 1).last() == b);
        }
        if b == NEWLINE {
            out.push(cur);
            cur = Vec::new();
            proof {
                assert(split_all(content@.take(i + 1)) == segs.push(Seq::<u8>::empty()));
                assert(crate::merge::lines_view(out@).push(cur@) =~= segs.push(
                    Seq::<u8>::empty(),
                ));
            }
        } else {
            let ghost curv = cur@;
            cur.push(b);
            proof {
                assert(split_all(content@.take(i + 1)) == segs.update(
                    segs.len() - 1,
                    segs.last().push(b),
                ));
                assert(segs.last() == curv);
                assert(crate::merge::lines_view(out@).push(cur@) =~= segs.update(
                    segs.len() - 1,
                    curv.push(b),
                ));
            }
        }
        i = i + 1;
    }
    proof {
        assert(content@.take(content@.len() as int) =~= content@);
    }
    let ghost segs = split_all(content@);
    if cur.len() > 0 {
        let ghost outv = crate::merge::lines_view(out@);
        out.push(cur);
        proof {
            assert(segs.last().len() > 0);
            assert(crate::merge::lines_view(out@) =~= segs);
            assert(lines_spec(content@) == segs);
        }
    } else {
        proof {
            assert(segs.last().len() == 0);
            assert(crate::merge::lines_view(out@) =~= segs.drop_last());
            assert(lines_spec(content@) == segs.drop_last());
        }
    }
    out
}

/// Render the entries as the persisted file: each entry, then one newline.
pub fn render_history(entries: &Vec<Vec<u8>>) -> (r: Vec<u8>)
    ensures
        r@ == render_spec(crate::merge::lines_view(entries@)),
{
    let ghost all = crate::merge::lines_view(entries@);
    let mut out: Vec<u8> = Vec::new();
    let mut i: usize = 0;
    proof {
        assert(all.take(0) =~= Seq::<Seq<u8>>::empty());
    }
    while i < entries.len()
        invariant
            i <= entries@.len(),
            all == crate::merge::lines_view(entries@),
            all.len() == entries@.len(),
            out@ == render_spec(all.take(i as int)),
        decreases entries@.len() - i,
    {
        let ghost prev = out@;
        let entry = &entries[i];
        let mut j: usize = 0;
        while j < entry.len()
            invariant
                j <= entry@.len(),
                out@ == prev + entry@.take(j as int),
            decreases entry@.len() - j,
        {
            out.push(entry[j]);
            j = j + 1;
            proof {
                assert(prev + entry@.take(j as int) =~= (prev + entry@.take(j - 1)).push(
                    entry@[j - 1],
                ));
            }
        }
        out.push(NEWLINE);
        i = i + 1;
        proof {
            assert(entry@.take(entry@.len() as int) =~= entry@);
            assert(all.take(i as int).drop_last() =~= all.take(i - 1));
            assert(all.take(i as int).last() == all[i - 1]);
            assert(all[i - 1] == entry@);
            assert(out@ =~= render_spec(all.take(i - 1)) + entry@ + seq![NEWLINE]);
        }
    }
    proof {
        assert(all.take(all.len() as int) =~= all);
    }
    out
}

/// Strip every trailing newline byte from one line of input.
pub fn trim_trailing_newlines(s: &Vec<u8>) -> (r: Vec<u8>)
    ensures
        r@ == trim_newlines_spec(s@),
{
    let mut end: usize = s.len();
    proof {
        assert(s@.take(s@.len() as int) =~= s@);
    }
    while end > 0 && s[end - 1] == NEWLINE
        invariant
            end <= s@.len(),
            trim_newlines_spec(s@) == trim_newlines_spec(s@.take(end as int)),
        decreases end,
    {
        proof {
            assert(s@.take(end as int).last() == s@[end - 1]);
            assert(s@.take(end as int).drop_last() =~= s@.take(end - 1));
        }
        end = end - 1;
    }
    let ghost kept = s@.take(end as int);
    proof {
        if end > 0 {
            assert(kept.last() == s@[end - 1]);
        }
        assert(trim_newlines_spec(kept) == kept);
    }
    let mut out: Vec<u8> = Vec::new();
    let mut i: usize = 0;
    while i < end
        invariant
            i <= end <= s@.len(),
            out@ == s@.take(i as int),
        decreases end - i,
    {
        out.push(s[i]);
        i = i + 1;
        proof {
            assert(s@.take(i as int) =~= s@.take(i - 1).push(s@[i - 1]));
        }
    }
    proof {
        assert(out@ =~= kept);
    }
    out
}

} // verus!
