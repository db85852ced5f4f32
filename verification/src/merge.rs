//! Merging one new item into an ordered, deduplicated, capped history.
//!
//! A history is a sequence of byte-string entries, most recent first. The
//! merge starts from the new item alone and then offers the prior entries one
//! by one, in order: an entry is kept only while the list is still below its
//! cap and no equal entry is already present.

use vstd::prelude::*;

verus! {

/// The mathematical contents of a list of byte-string entries.
pub open spec fn lines_view(entries: Seq<Vec<u8>>) -> Seq<Seq<u8>> {
    entries.map_values(|e: Vec<u8>| e@)
}

/// One merge step: a candidate line joins the list only when the list is
/// still below its cap and holds no equal entry yet.
pub open spec fn offer_spec(acc: Seq<Seq<u8>>, line: Seq<u8>, cap: nat) -> Seq<Seq<u8>> {
    if acc.len() >= cap {
        acc
    } else if acc.contains(line) {
        acc
    } else {
        acc.push(line)
    }
}

/// The merge of `lines`, offered in order, into `acc`.
pub open spec fn merge_rec(acc: Seq<Seq<u8>>, lines: Seq<Seq<u8>>, cap: nat) -> Seq<Seq<u8>>
    decreases lines.len(),
{
    if lines.len() == 0 {
        acc
    } else {
        merge_rec(offer_spec(acc, lines[0], cap), lines.skip(1), cap)
    }
}

/// The merged history: the new item first, then the prior lines in their old
/// order, with duplicates dropped and the length capped at `cap`.
pub open spec fn merged(item: Seq<u8>, lines: Seq<Seq<u8>>, cap: nat) -> Seq<Seq<u8>> {
    merge_rec(seq![item], lines, cap)
}

/// A list that has already reached its cap absorbs nothing more.
pub proof fn lemma_merge_rec_full(acc: Seq<Seq<u8>>, lines: Seq<Seq<u8>>, cap: nat)
    requires
        acc.len() >= cap,
    ensures
        merge_rec(acc, lines, cap) == acc,
    decreases lines.len(),
{
    if lines.len() > 0 {
        lemma_merge_rec_full(acc, lines.skip(1), cap);
    }
}

/// The merge never shrinks the list and never grows it past the cap.
pub proof fn lemma_merge_rec_len(acc: Seq<Seq<u8>>, lines: Seq<Seq<u8>>, cap: nat)
    ensures
        merge_rec(acc, lines, cap).len() >= acc.len(),
        acc.len() <= cap ==> merge_rec(acc, lines, cap).len() <= cap,
    decreases lines.len(),
{
    if lines.len() > 0 {
        lemma_merge_rec_len(offer_spec(acc, lines[0], cap), lines.skip(1), cap);
    }
}

/// The accumulator survives the merge unchanged, as a prefix of the result.
pub proof fn lemma_merge_rec_prefix(acc: Seq<Seq<u8>>, lines: Seq<Seq<u8>>, cap: nat)
    ensures
        forall|i: int|
            0 <= i < acc.len() ==> #[trigger] merge_rec(acc, lines, cap)[i] == acc[i],
    decreases lines.len(),
{
    if lines.len() > 0 {
        let acc2 = offer_spec(acc, lines[0], cap);
        lemma_merge_rec_prefix(acc2, lines.skip(1), cap);
        assert forall|i: int|
            0 <= i < acc.len() implies #[trigger] merge_rec(acc, lines, cap)[i] == acc[i] by {
            assert(merge_rec(acc, lines, cap) == merge_rec(acc2, lines.skip(1), cap));
            assert(merge_rec(acc2, lines.skip(1), cap)[i] == acc2[i]);
            assert(acc2[i] == acc[i]);
        }
    }
}

/// One offer step keeps the list free of duplicates.
pub proof fn lemma_offer_no_duplicates(acc: Seq<Seq<u8>>, line: Seq<u8>, cap: nat)
    requires
        acc.no_duplicates(),
    ensures
        offer_spec(acc, line, cap).no_duplicates(),
{
    let acc2 = offer_spec(acc, line, cap);
    if acc.len() < cap && !acc.contains(line) {
        assert forall|i: int, j: int|
            0 <= i < acc2.len() && 0 <= j < acc2.len() && i != j implies acc2[i] != acc2[j] by {
            if i == acc.len() && acc2[i] == acc2[j] {
                assert(acc[j] == line);
                assert(acc.contains(line));
            }
            if j == acc.len() && acc2[i] == acc2[j] {
                assert(acc[i] == line);
                assert(acc.contains(line));
            }
        }
    }
}

/// Every entry of the merged list was already in the accumulator or is one
/// of the offered lines: the merge invents nothing.
pub proof fn lemma_merge_rec_sources(acc: Seq<Seq<u8>>, lines: Seq<Seq<u8>>, cap: nat)
    ensures
        forall|x: Seq<u8>|
            #[trigger] merge_rec(acc, lines, cap).contains(x) ==> acc.contains(x)
                || lines.contains(x),
    decreases lines.len(),
{
    if lines.len() > 0 {
        let acc2 = offer_spec(acc, lines[0], cap);
        lemma_merge_rec_sources(acc2, lines.skip(1), cap);
        assert forall|x: Seq<u8>|
            #[trigger] merge_rec(acc, lines, cap).contains(x) implies acc.contains(x)
            || lines.contains(x) by {
            assert(merge_rec(acc, lines, cap) == merge_rec(acc2, lines.skip(1), cap));
            assert(merge_rec(acc2, lines.skip(1), cap).contains(x));
            if acc2.contains(x) {
                if !acc.contains(x) {
                    let j = choose|j: int| 0 <= j < acc2.len() && acc2[j] == x;
                    assert(j == acc.len());
                    assert(x == lines[0]);
                    assert(lines.contains(x)) by {
                        assert(lines[0] == x);
                    }
                }
            } else {
                assert(lines.skip(1).contains(x));
                let j = choose|j: int| 0 <= j < lines.skip(1).len() && lines.skip(1)[j] == x;
                assert(lines[j + 1] == x);
                assert(lines.contains(x));
            }
        }
    }
}

/// The lines of `lines`, in order, that have no equal entry in `acc`.
pub open spec fn fresh_of(lines: Seq<Seq<u8>>, acc: Seq<Seq<u8>>) -> Seq<Seq<u8>>
    decreases lines.len(),
{
    if lines.len() == 0 {
        lines
    } else if acc.contains(lines[0]) {
        fresh_of(lines.skip(1), acc)
    } else {
        seq![lines[0]] + fresh_of(lines.skip(1), acc)
    }
}

/// Membership in a list extended by one entry.
proof fn lemma_push_contains(acc: Seq<Seq<u8>>, x: Seq<u8>, y: Seq<u8>)
    ensures
        acc.push(x).contains(y) == (acc.contains(y) || y == x),
{
    if acc.push(x).contains(y) {
        let j = choose|j: int| 0 <= j < acc.push(x).len() && acc.push(x)[j] == y;
        if j < acc.len() {
            assert(acc[j] == y);
            assert(acc.contains(y));
        }
    }
    if acc.contains(y) {
        let j = choose|j: int| 0 <= j < acc.len() && acc[j] == y;
        assert(acc.push(x)[j] == y);
        assert(acc.push(x).contains(y));
    }
    if y == x {
        assert(acc.push(x)[acc.len() as int] == y);
        assert(acc.push(x).contains(y));
    }
}

/// Extending the list by an entry that the lines never mention does not
/// change which lines are fresh.
proof fn lemma_fresh_of_push_absent(lines: Seq<Seq<u8>>, acc: Seq<Seq<u8>>, x: Seq<u8>)
    requires
        !lines.contains(x),
    ensures
        fresh_of(lines, acc.push(x)) == fresh_of(lines, acc),
    decreases lines.len(),
{
    if lines.len() > 0 {
        assert(lines.contains(lines[0])) by {
            assert(lines[0] == lines[0]);
        }
        assert(lines[0] != x);
        lemma_push_contains(acc, x, lines[0]);
        assert(!lines.skip(1).contains(x)) by {
            if lines.skip(1).contains(x) {
                let j = choose|j: int| 0 <= j < lines.skip(1).len() && lines.skip(1)[j] == x;
                assert(lines[j + 1] == x);
                assert(lines.contains(x));
            }
        }
        lemma_fresh_of_push_absent(lines.skip(1), acc, x);
    }
}

/// Below the cap, the merge appends exactly the fresh lines, in order.
proof fn lemma_merge_rec_fresh(acc: Seq<Seq<u8>>, lines: Seq<Seq<u8>>, cap: nat)
    requires
        lines.no_duplicates(),
        acc.len() + fresh_of(lines, acc).len() <= cap,
    ensures
        merge_rec(acc, lines, cap) == acc + fresh_of(lines, acc),
    decreases lines.len(),
{
    if lines.len() == 0 {
        assert(acc + fresh_of(lines, acc) =~= acc);
    } else {
        let rest = lines.skip(1);
        assert(rest.no_duplicates()) by {
            assert(forall|i: int, j: int|
                0 <= i < rest.len() && 0 <= j < rest.len() && i != j ==> rest[i] != rest[j]);
        }
        if acc.contains(lines[0]) {
            assert(offer_spec(acc, lines[0], cap) == acc);
            assert(fresh_of(lines, acc) == fresh_of(rest, acc));
            lemma_merge_rec_fresh(acc, rest, cap);
        } else {
            assert(fresh_of(lines, acc) == seq![lines[0]] + fresh_of(rest, acc));
            assert(acc.len() < cap);
            let acc2 = acc.push(lines[0]);
            assert(offer_spec(acc, lines[0], cap) == acc2);
            assert(!rest.contains(lines[0])) by {
                if rest.contains(lines[0]) {
                    let j = choose|j: int| 0 <= j < rest.len() && rest[j] == lines[0];
                    assert(lines[j + 1] == lines[0]);
                }
            }
            lemma_fresh_of_push_absent(rest, acc, lines[0]);
            lemma_merge_rec_fresh(acc2, rest, cap);
            assert(acc2 + fresh_of(rest, acc2) =~= acc + fresh_of(lines, acc));
        }
    }
}

/// Every line is fresh against a list that holds none of them.
proof fn lemma_fresh_of_all(lines: Seq<Seq<u8>>, acc: Seq<Seq<u8>>)
    requires
        forall|x: Seq<u8>| #[trigger] lines.contains(x) ==> !acc.contains(x),
    ensures
        fresh_of(lines, acc) == lines,
    decreases lines.len(),
{
    if lines.len() > 0 {
        assert(lines.contains(lines[0])) by {
            assert(lines[0] == lines[0]);
        }
        assert(forall|x: Seq<u8>| #[trigger] lines.skip(1).contains(x) ==> lines.contains(x)) by {
            assert forall|x: Seq<u8>| #[trigger] lines.skip(1).contains(x) implies lines.contains(
                x,
            ) by {
                let j = choose|j: int| 0 <= j < lines.skip(1).len() && lines.skip(1)[j] == x;
                assert(lines[j + 1] == x);
            }
        }
        lemma_fresh_of_all(lines.skip(1), acc);
        assert(seq![lines[0]] + lines.skip(1) =~= lines);
    }
}

/// Against the singleton list of the new item, the fresh lines of a
/// duplicate-free history that already holds the item are all of it but the
/// item itself.
proof fn lemma_fresh_of_singleton(lines: Seq<Seq<u8>>, item: Seq<u8>)
    requires
        lines.no_duplicates(),
        lines.contains(item),
    ensures
        fresh_of(lines, seq![item]).len() == lines.len() - 1,
    decreases lines.len(),
{
    let rest = lines.skip(1);
    assert(rest.no_duplicates()) by {
        assert(forall|i: int, j: int|
            0 <= i < rest.len() && 0 <= j < rest.len() && i != j ==> rest[i] != rest[j]);
    }
    if seq![item].contains(lines[0]) {
        assert(lines[0] == item);
        assert(!rest.contains(item)) by {
            if rest.contains(item) {
                let j = choose|j: int| 0 <= j < rest.len() && rest[j] == item;
                assert(lines[j + 1] == item);
            }
        }
        assert(forall|x: Seq<u8>| #[trigger] rest.contains(x) ==> !seq![item].contains(x)) by {
            assert forall|x: Seq<u8>| #[trigger] rest.contains(x) implies !seq![item].contains(
                x,
            ) by {
                if seq![item].contains(x) {
                    assert(seq![item][0] == item);
                    assert(x == item);
                }
            }
        }
        lemma_fresh_of_all(rest, seq![item]);
    } else {
        assert(lines[0] != item) by {
            assert(seq![item][0] == item);
        }
        assert(rest.contains(item)) by {
            let j = choose|j: int| 0 <= j < lines.len() && lines[j] == item;
            assert(j != 0);
            assert(rest[j - 1] == item);
        }
        lemma_fresh_of_singleton(rest, item);
    }
}

/// Re-submitting an item that the history already holds moves it to the
/// front and changes nothing else: the merged list is the item followed by
/// the other entries in their old order, and its length is the old length.
pub proof fn lemma_resubmit_moves_to_front(item: Seq<u8>, h: Seq<Seq<u8>>, cap: nat)
    requires
        cap >= 1,
        h.no_duplicates(),
        h.contains(item),
        h.len() <= cap,
    ensures
        merged(item, h, cap) == seq![item] + fresh_of(h, seq![item]),
        merged(item, h, cap).len() == h.len(),
        merged(item, h, cap)[0] == item,
{
    lemma_fresh_of_singleton(h, item);
    lemma_merge_rec_fresh(seq![item], h, cap);
    assert((seq![item] + fresh_of(h, seq![item]))[0] == item);
}

/// An exact copy of a byte string.
pub fn copy_bytes(src: &Vec<u8>) -> (r: Vec<u8>)
    ensures
        r@ == src@,
{
    let mut out: Vec<u8> = Vec::new();
    let mut i: usize = 0;
    while i < src.len()
        invariant
            i <= src@.len(),
            out@ == src@.take(i as int),
        decreases src@.len() - i,
    {
        out.push(src[i]);
        i = i + 1;
        proof {
            assert(out@ =~= src@.take(i as int));
        }
    }
    proof {
        assert(src@.take(src@.len() as int) =~= src@);
    }
    out
}

/// Exact byte-for-byte equality of two entries.
pub fn bytes_eq(a: &Vec<u8>, b: &Vec<u8>) -> (r: bool)
    ensures
        r == (a@ == b@),
{
    if a.len() != b.len() {
        return false;
    }
    let mut i: usize = 0;
    while i < a.len()
        invariant
            a@.len() == b@.len(),
            i <= a@.len(),
            forall|j: int| 0 <= j < i ==> a@[j] == b@[j],
        decreases a@.len() - i,
    {
        if a[i] != b[i] {
            return false;
        }
        i = i + 1;
    }
    proof {
        assert(a@ =~= b@);
    }
    true
}

/// Whether an equal entry already stands somewhere in the list.
pub fn contains_line(entries: &Vec<Vec<u8>>, line: &Vec<u8>) -> (r: bool)
    ensures
        r == lines_view(entries@).contains(line@),
{
    let mut i: usize = 0;
    while i < entries.len()
        invariant
            i <= entries@.len(),
            forall|j: int| 0 <= j < i ==> lines_view(entries@)[j] != line@,
        decreases entries@.len() - i,
    {
        if bytes_eq(&entries[i], line) {
            proof {
                assert(lines_view(entries@)[i as int] == line@);
            }
            return true;
        }
        i = i + 1;
    }
    false
}

/// The in-memory most-recently-used list of one run: the new item first,
/// then whatever prior entries were offered and kept, never more than `cap`
/// entries and never a duplicate.
pub struct RecentList {
    entries: Vec<Vec<u8>>,
    cap: usize,
}

impl View for RecentList {
    type V = Seq<Seq<u8>>;

    closed spec fn view(&self) -> Seq<Seq<u8>> {
        lines_view(self.entries@)
    }
}

impl RecentList {
    /// The configured maximum number of entries.
    pub closed spec fn cap_spec(&self) -> nat {
        self.cap as nat
    }

    /// The list invariant: nonempty, within its cap, free of duplicates.
    pub open spec fn wf(&self) -> bool {
        &&& 1 <= self@.len()
        &&& self@.len() <= self.cap_spec()
        &&& self@.no_duplicates()
    }

    /// A fresh list holding only the newly submitted item.
    pub fn new(item: Vec<u8>, cap: usize) -> (r: RecentList)
        requires
            cap >= 1,
        ensures
            r.wf(),
            r.cap_spec() == cap,
            r@ == seq![item@],
    {
        let mut entries: Vec<Vec<u8>> = Vec::new();
        entries.push(item);
        let r = RecentList { entries, cap };
        proof {
            assert(r@ =~= seq![item@]);
        }
        r
    }

    /// Offer one prior line to the list. It is kept only while the list is
    /// below its cap and holds no equal entry. Returns whether the list can
    /// still take more, so a caller may stop reading as soon as it is full.
    pub fn offer(&mut self, line: Vec<u8>) -> (more: bool)
        requires
            old(self).wf(),
        ensures
            final(self).wf(),
            final(self).cap_spec() == old(self).cap_spec(),
            final(self)@ == offer_spec(old(self)@, line@, old(self).cap_spec()),
            more == (final(self)@.len() < final(self).cap_spec()),
    {
        proof {
            lemma_offer_no_duplicates(old(self)@, line@, old(self).cap_spec());
        }
        if self.entries.len() >= self.cap {
            return false;
        }
        if !contains_line(&self.entries, &line) {
            let ghost before = self.entries@;
            self.entries.push(line);
            proof {
                assert(lines_view(self.entries@) =~= lines_view(before).push(line@));
            }
        }
        self.entries.len() < self.cap
    }

    /// The current number of entries.
    pub fn len(&self) -> (n: usize)
        ensures
            n == self@.len(),
    {
        self.entries.len()
    }

    /// The entries themselves, most recent first.
    pub fn entries(&self) -> (r: &Vec<Vec<u8>>)
        ensures
            lines_view(r@) == self@,
    {
        &self.entries
    }
}

/// Merge the prior history lines into a fresh list seeded with `item`.
///
/// The result is the new item first, then the prior lines in their old
/// order, skipping any line equal to an entry already kept, and stopping at
/// `max` entries.
pub fn merge_history(item: Vec<u8>, lines: &Vec<Vec<u8>>, max: usize) -> (r: RecentList)
    requires
        max >= 1,
    ensures
        r.wf(),
        r.cap_spec() == max,
        r@ == merged(item@, lines_view(lines@), max as nat),
        r@[0] == item@,
        1 <= r@.len() <= max,
        r@.no_duplicates(),
{
    let ghost all = lines_view(lines@);
    let mut list = RecentList::new(item, max);
    let mut i: usize = 0;
    let mut more: bool = list.len() < max;
    proof {
        assert(all.skip(0) =~= all);
    }
    while more && i < lines.len()
        invariant
            list.wf(),
            list.cap_spec() == max,
            all == lines_view(lines@),
            all.len() == lines@.len(),
            i <= lines@.len(),
            more == (list@.len() < max),
            merged(item@, all, max as nat) == merge_rec(list@, all.skip(i as int), max as nat),
        decreases lines@.len() - i,
    {
        let ghost before = list@;
        let ghost idx = i as int;
        more = list.offer(copy_bytes(&lines[i]));
        i = i + 1;
        proof {
            assert(all[idx] == lines@[idx]@);
            assert(all.skip(idx).len() > 0);
            assert(all.skip(idx)[0] == all[idx]);
            assert(all.skip(idx).skip(1) =~= all.skip(idx + 1));
            assert(merge_rec(before, all.skip(idx), max as nat) == merge_rec(
                list@,
                all.skip(idx + 1),
                max as nat,
            ));
        }
    }
    proof {
        if !more {
            lemma_merge_rec_full(list@, all.skip(i as int), max as nat);
        } else {
            assert(all.skip(i as int) =~= Seq::<Seq<u8>>::empty());
        }
        lemma_merge_rec_prefix(seq![item@], all, max as nat);
        lemma_merge_rec_len(seq![item@], all, max as nat);
    }
    list
}

} // verus!
