//! Target-site-duplication candidates: the k-mers found at both ends of a
//! sequence, tallied per sequence and window length, merged, grouped by
//! sequence and freed of those that are part of another.

use crate::utils::alignment::{copy_range, rectangular, width, Alignment, SequenceView, GAP};
use vstd::prelude::*;

verus! {

/// K-mers with the number of times each was seen, in the order in which
/// they were first seen. No k-mer is listed twice.
#[derive(Debug)]
pub struct KmerCounts {
    pub entries: Vec<(Vec<u8>, usize)>,
}

impl View for KmerCounts {
    type V = Seq<(Seq<u8>, nat)>;

    open spec fn view(&self) -> Seq<(Seq<u8>, nat)> {
        Seq::new(self.entries@.len(), |i: int| (self.entries@[i].0@, self.entries@[i].1 as nat))
    }
}

/// Whether no k-mer is listed twice.
pub open spec fn distinct_keys(t: Seq<(Seq<u8>, nat)>) -> bool {
    forall|i: int, j: int|
        0 <= i < t.len() && 0 <= j < t.len() && i != j ==> (#[trigger] t[i]).0 != (#[trigger] t[j]).0
}

/// Whether `kmer` is listed.
pub open spec fn has_key(t: Seq<(Seq<u8>, nat)>, kmer: Seq<u8>) -> bool {
    exists|i: int| 0 <= i < t.len() && (#[trigger] t[i]).0 == kmer
}

/// Where `kmer` is listed, if it is.
pub open spec fn key_index(t: Seq<(Seq<u8>, nat)>, kmer: Seq<u8>) -> int {
    choose|i: int| 0 <= i < t.len() && (#[trigger] t[i]).0 == kmer
}

/// The number of times `kmer` was seen: 0 where it is not listed.
pub open spec fn count_in(t: Seq<(Seq<u8>, nat)>, kmer: Seq<u8>) -> nat {
    if has_key(t, kmer) {
        t[key_index(t, kmer)].1
    } else {
        0
    }
}

/// The tally after `kmer` was seen once more: its count is one higher
/// where it is listed, and it is added at the end with count 1 where it
/// is not.
pub open spec fn bump(t: Seq<(Seq<u8>, nat)>, kmer: Seq<u8>) -> Seq<(Seq<u8>, nat)> {
    if has_key(t, kmer) {
        t.update(key_index(t, kmer), (kmer, t[key_index(t, kmer)].1 + 1))
    } else {
        t.push((kmer, 1))
    }
}

/// The tally of a list of k-mers, seen one after the other.
pub open spec fn tally(kmers: Seq<Seq<u8>>) -> Seq<(Seq<u8>, nat)>
    decreases kmers.len(),
{
    if kmers.len() == 0 {
        Seq::empty()
    } else {
        bump(tally(kmers.drop_last()), kmers.last())
    }
}

/// What seeing a k-mer once more does to a tally: no k-mer is listed
/// twice afterwards either, the k-mer seen is listed, and only its count
/// has changed, by one.
pub proof fn lemma_bump(t: Seq<(Seq<u8>, nat)>, kmer: Seq<u8>)
    requires
        distinct_keys(t),
    ensures
        distinct_keys(bump(t, kmer)),
        forall|k: Seq<u8>| #[trigger] has_key(bump(t, kmer), k) <==> (has_key(t, k) || k == kmer),
        count_in(bump(t, kmer), kmer) == count_in(t, kmer) + 1,
        forall|k: Seq<u8>| k != kmer ==> #[trigger] count_in(bump(t, kmer), k) == count_in(t, k),
{
    let b = bump(t, kmer);
    if has_key(t, kmer) {
        let at = key_index(t, kmer);
        assert(b.len() == t.len());
        assert forall|i: int| 0 <= i < b.len() implies (#[trigger] b[i]).0 == t[i].0 by {}
        assert forall|k: Seq<u8>| has_key(b, k) <==> (has_key(t, k) || k == kmer) by {
            if has_key(b, k) {
                let i = key_index(b, k);
                assert(t[i].0 == k);
            }
            if has_key(t, k) {
                let i = key_index(t, k);
                assert(b[i].0 == k);
            }
        }
        assert(b[at].0 == kmer);
        assert(has_key(b, kmer));
        assert(key_index(b, kmer) == at) by {
            let i = key_index(b, kmer);
            assert(b[i].0 == kmer && b[at].0 == kmer);
            assert(t[i].0 == t[at].0);
        }
        assert forall|k: Seq<u8>| k != kmer implies count_in(b, k) == count_in(t, k) by {
            if has_key(t, k) {
                let i = key_index(t, k);
                assert(b[i].0 == k);
                let j = key_index(b, k);
                assert(t[j].0 == k);
                assert(i == j);
            }
        }
    } else {
        let at = t.len() as int;
        assert(b[at].0 == kmer);
        assert forall|i: int, j: int|
            0 <= i < b.len() && 0 <= j < b.len() && i != j implies (#[trigger] b[i]).0 != (
        #[trigger] b[j]).0 by {
            if i < at && j < at {
                assert(b[i] == t[i] && b[j] == t[j]);
            } else if i < at {
                assert(b[i] == t[i]);
            } else {
                assert(b[j] == t[j]);
            }
        }
        assert forall|k: Seq<u8>| has_key(b, k) <==> (has_key(t, k) || k == kmer) by {
            if has_key(b, k) {
                let i = key_index(b, k);
                if i < at {
                    assert(t[i].0 == k);
                }
            }
            if has_key(t, k) {
                let i = key_index(t, k);
                assert(b[i].0 == k);
            }
        }
        assert(has_key(b, kmer));
        assert(key_index(b, kmer) == at) by {
            let i = key_index(b, kmer);
            if i < at {
                assert(t[i].0 == kmer);
            }
        }
        assert forall|k: Seq<u8>| k != kmer implies count_in(b, k) == count_in(t, k) by {
            if has_key(t, k) {
                let i = key_index(t, k);
                assert(b[i].0 == k);
                let j = key_index(b, k);
                assert(j < at);
                assert(t[j].0 == k);
                assert(i == j);
            }
        }
    }
}

/// The tally of a list of k-mers lists each k-mer of the list once, with
/// the number of its occurrences in the list, and no other.
pub proof fn lemma_tally_counts(kmers: Seq<Seq<u8>>)
    ensures
        distinct_keys(tally(kmers)),
        forall|k: Seq<u8>| has_key(tally(kmers), k) <==> kmers.contains(k),
        forall|k: Seq<u8>| count_in(tally(kmers), k) == kmers.to_multiset().count(k),
    decreases kmers.len(),
{
    broadcast use vstd::multiset::group_multiset_axioms;

    if kmers.len() == 0 {
        assert(kmers.to_multiset().len() == 0) by {
            broadcast use vstd::seq_lib::to_multiset_len;

        }
        assert forall|k: Seq<u8>| kmers.to_multiset().count(k) == 0 by {
            vstd::multiset::axiom_count_le_len(kmers.to_multiset(), k);
        }
    } else {
        let rest = kmers.drop_last();
        let last = kmers.last();
        lemma_tally_counts(rest);
        lemma_bump(tally(rest), last);
        assert(kmers =~= rest.push(last));
        vstd::seq_lib::to_multiset_build(rest, last);
        assert forall|k: Seq<u8>| has_key(tally(kmers), k) <==> kmers.contains(k) by {
            if kmers.contains(k) {
                let i = choose|i: int| 0 <= i < kmers.len() && kmers[i] == k;
                if i < rest.len() {
                    assert(rest[i] == k);
                }
            }
            if rest.contains(k) {
                let i = choose|i: int| 0 <= i < rest.len() && rest[i] == k;
                assert(kmers[i] == k);
            }
            assert(kmers[kmers.len() - 1] == last);
        }
        assert forall|k: Seq<u8>| count_in(tally(kmers), k) == kmers.to_multiset().count(k) by {
            if k == last {
                vstd::multiset::lemma_insert_increases_count_by_1(rest.to_multiset(), last);
            } else {
                vstd::multiset::lemma_insert_other_elements_unchanged(rest.to_multiset(), last, k);
            }
        }
    }
}

/// Whether two byte vectors hold the same bytes.
pub fn same_bytes(a: &Vec<u8>, b: &Vec<u8>) -> (same: bool)
    ensures
        same <==> a@ == b@,
{
    if a.len() != b.len() {
        return false;
    }
    let mut i: usize = 0;
    while i < a.len()
        invariant
            a@.len() == b@.len(),
            i <= a@.len(),
            forall|k: int| 0 <= k < i ==> a@[k] == b@[k],
        decreases a@.len() - i,
    {
        if a[i] != b[i] {
            return false;
        }
        i += 1;
    }
    assert(a@ =~= b@);
    true
}

impl KmerCounts {
    /// Whether no k-mer is listed twice.
    pub open spec fn wf(&self) -> bool {
        distinct_keys(self@)
    }

    /// A tally of nothing.
    pub fn new() -> (counts: Self)
        ensures
            counts@ == Seq::<(Seq<u8>, nat)>::empty(),
            counts.wf(),
    {
        let counts = KmerCounts { entries: Vec::new() };
        assert(counts@ =~= Seq::<(Seq<u8>, nat)>::empty());
        counts
    }

    /// Where `kmer` is listed: the first index that holds it.
    pub fn position(&self, kmer: &Vec<u8>) -> (found: Option<usize>)
        ensures
            match found {
                Some(i) => i < self@.len() && self@[i as int].0 == kmer@ && forall|j: int|
                    0 <= j < i ==> (#[trigger] self@[j]).0 != kmer@,
                None => !has_key(self@, kmer@),
            },
    {
        let mut i: usize = 0;
        while i < self.entries.len()
            invariant
                i <= self@.len(),
                self@.len() == self.entries@.len(),
                forall|j: int| 0 <= j < i ==> (#[trigger] self@[j]).0 != kmer@,
            decreases self@.len() - i,
        {
            if same_bytes(&self.entries[i].0, kmer) {
                return Some(i);
            }
            i += 1;
        }
        None
    }

    /// The number of times `kmer` was seen.
    pub fn count(&self, kmer: &Vec<u8>) -> (n: usize)
        requires
            self.wf(),
        ensures
            n == count_in(self@, kmer@),
    {
        match self.position(kmer) {
            Some(i) => {
                assert(self@[i as int].0 == kmer@);
                assert(key_index(self@, kmer@) == i) by {
                    let j = key_index(self@, kmer@);
                    assert(self@[j].0 == self@[i as int].0);
                }
                self.entries[i].1
            },
            None => 0,
        }
    }

    /// Sees `kmer` once more.
    pub fn record(&mut self, kmer: Vec<u8>)
        requires
            old(self).wf(),
            count_in(old(self)@, kmer@) < usize::MAX,
        ensures
            final(self)@ == bump(old(self)@, kmer@),
            final(self).wf(),
    {
        proof {
            lemma_bump(self@, kmer@);
        }
        match self.position(&kmer) {
            Some(i) => {
                assert(self@[i as int].0 == kmer@);
                assert(key_index(self@, kmer@) == i) by {
                    let j = key_index(self@, kmer@);
                    assert(self@[j].0 == self@[i as int].0);
                }
                let n = self.entries[i].1;
                self.entries.set(i, (kmer, n + 1));
                assert(self@ =~= bump(old(self)@, kmer@));
            },
            None => {
                self.entries.push((kmer, 1));
                assert(self@ =~= bump(old(self)@, kmer@));
            },
        }
    }
}

/// All windows of `w` symbols of `region`, from left to right.
pub open spec fn windows_of(region: Seq<u8>, w: int) -> Seq<Seq<u8>> {
    Seq::new(
        if 0 <= w <= region.len() {
            (region.len() - w + 1) as nat
        } else {
            0
        },
        |p: int| region.subrange(p, p + w),
    )
}

/// The test for a k-mer without a gap symbol.
pub open spec fn gap_free() -> spec_fn(Seq<u8>) -> bool {
    |kmer: Seq<u8>| !kmer.contains(GAP)
}

/// The tally of the windows of `w` symbols of `region` that hold no gap.
pub open spec fn region_tally(region: Seq<u8>, w: int) -> Seq<(Seq<u8>, nat)> {
    tally(windows_of(region, w).filter(gap_free()))
}

/// Whether `kmer` holds a gap symbol.
pub fn has_gap(kmer: &Vec<u8>) -> (found: bool)
    ensures
        found <==> kmer@.contains(GAP),
{
    let mut i: usize = 0;
    while i < kmer.len()
        invariant
            i <= kmer@.len(),
            forall|k: int| 0 <= k < i ==> kmer@[k] != GAP,
        decreases kmer@.len() - i,
    {
        if kmer[i] == GAP {
            return true;
        }
        i += 1;
    }
    false
}

/// Tallies the gap-free windows of `window` symbols of `region`.
pub fn count_kmers(region: &Vec<u8>, window: usize) -> (counts: KmerCounts)
    requires
        window >= 1,
    ensures
        counts@ == region_tally(region@, window as int),
        counts.wf(),
        forall|k: Seq<u8>| count_in(counts@, k) <= region@.len(),
{
    let mut counts = KmerCounts::new();
    if window > region.len() {
        proof {
            reveal(Seq::filter);
            assert(windows_of(region@, window as int) =~= Seq::<Seq<u8>>::empty());
        }
        return counts;
    }
    let last = region.len() - window;
    let ghost all = windows_of(region@, window as int);
    let mut p: usize = 0;
    proof {
        reveal(Seq::filter);
        assert(all.take(0) =~= Seq::<Seq<u8>>::empty());
    }
    while p <= last
        invariant
            window >= 1,
            region@.len() <= usize::MAX,
            last == region@.len() - window,
            all == windows_of(region@, window as int),
            all.len() == last + 1,
            p <= last + 1,
            counts@ == tally(all.take(p as int).filter(gap_free())),
            counts.wf(),
            forall|k: Seq<u8>| count_in(counts@, k) <= p,
        decreases last + 1 - p,
    {
        let kmer = copy_range(region, p, p + window);
        proof {
            assert(kmer@ == all[p as int]);
            assert(all.take(p + 1) =~= all.take(p as int).push(kmer@));
            all.take(p as int).lemma_filter_push(kmer@, gap_free());
        }
        if !has_gap(&kmer) {
            proof {
                let seen = all.take(p as int).filter(gap_free());
                assert(seen.push(kmer@).drop_last() =~= seen);
                lemma_bump(counts@, kmer@);
            }
            counts.record(kmer);
        }
        p += 1;
    }
    proof {
        assert(all.take(all.len() as int) =~= all);
    }
    counts
}

/// The k-mers of one sequence at one window length: those of its left
/// end and those of its right end.
#[derive(Debug)]
pub struct AlignHash {
    pub name: String,
    pub window: usize,
    pub left: KmerCounts,
    pub right: KmerCounts,
}

/// What an `AlignHash` is.
pub struct AlignHashView {
    pub name: Seq<char>,
    pub window: nat,
    pub left: Seq<(Seq<u8>, nat)>,
    pub right: Seq<(Seq<u8>, nat)>,
}

impl View for AlignHash {
    type V = AlignHashView;

    open spec fn view(&self) -> AlignHashView {
        AlignHashView {
            name: self.name@,
            window: self.window as nat,
            left: self.left@,
            right: self.right@,
        }
    }
}

/// Whether an entry can be merged: neither end lists a k-mer twice, and
/// the two counts of a k-mer can be added.
pub open spec fn mergeable(entry: AlignHashView) -> bool {
    &&& distinct_keys(entry.left)
    &&& distinct_keys(entry.right)
    &&& forall|k: Seq<u8>| count_in(entry.left, k) + count_in(entry.right, k) <= usize::MAX
}

/// The entries of all sequences and window lengths.
#[derive(Debug)]
pub struct TSDHash(pub Vec<AlignHash>);

impl View for TSDHash {
    type V = Seq<AlignHashView>;

    open spec fn view(&self) -> Seq<AlignHashView> {
        Seq::new(self.0@.len(), |i: int| self.0@[i]@)
    }
}

/// The entry of one row at window length `w`: the tallies of the first
/// `length` symbols and of the last `length` symbols.
pub open spec fn row_entry(row: SequenceView, length: int, w: int) -> AlignHashView {
    AlignHashView {
        name: row.name,
        window: w as nat,
        left: region_tally(row.symbols.subrange(0, length), w),
        right: region_tally(
            row.symbols.subrange(row.symbols.len() - length, row.symbols.len() as int),
            w,
        ),
    }
}

/// The entries of one row: one for each window length from `min_window`
/// to `max_window`, in rising order.
pub open spec fn row_entries(length: int, min_window: int, max_window: int) -> spec_fn(
    SequenceView,
) -> Seq<AlignHashView> {
    |row: SequenceView|
        Seq::new(
            if min_window <= max_window {
                (max_window - min_window + 1) as nat
            } else {
                0
            },
            |i: int| row_entry(row, length, min_window + i),
        )
}

/// The entries of an alignment: those of the first row, then those of
/// the second, and so on.
pub open spec fn tsd_entries(
    rows: Seq<SequenceView>,
    length: int,
    min_window: int,
    max_window: int,
) -> Seq<AlignHashView> {
    rows.flat_map(row_entries(length, min_window, max_window))
}

/// Whether `needle` stands in `hay` at index `p`.
pub open spec fn occurs_at(needle: Seq<u8>, hay: Seq<u8>, p: int) -> bool {
    0 <= p && p + needle.len() <= hay.len() && hay.subrange(p, p + needle.len()) == needle
}

/// Whether `needle` is a contiguous part of `hay`, byte for byte.
pub open spec fn is_part_of(needle: Seq<u8>, hay: Seq<u8>) -> bool {
    exists|p: int| occurs_at(needle, hay, p)
}

/// The k-mer of a tally's entry.
pub open spec fn key_of() -> spec_fn((Seq<u8>, nat)) -> Seq<u8> {
    |e: (Seq<u8>, nat)| e.0
}

/// What becomes of an entry of one tally when it is merged with the tally
/// `other`: it stays, with the two counts added, if `other` lists its
/// k-mer.
pub open spec fn shared_entry(other: Seq<(Seq<u8>, nat)>) -> spec_fn((Seq<u8>, nat)) -> Option<
    (Seq<u8>, nat),
> {
    |e: (Seq<u8>, nat)|
        if has_key(other, e.0) {
            Some((e.0, e.1 + count_in(other, e.0)))
        } else {
            None
        }
}

/// Two tallies merged: the k-mers that both list, in the order of the
/// first, each with the sum of its two counts.
pub open spec fn shared(left: Seq<(Seq<u8>, nat)>, right: Seq<(Seq<u8>, nat)>) -> Seq<
    (Seq<u8>, nat),
> {
    left.filter_map(shared_entry(right))
}

/// The candidates of one entry: the k-mers found at both of its ends.
pub open spec fn entry_candidates() -> spec_fn(AlignHashView) -> Seq<Seq<u8>> {
    |e: AlignHashView| shared(e.left, e.right).map_values(key_of())
}

/// The test for an entry of the sequence `name`.
pub open spec fn named(name: Seq<char>) -> spec_fn(AlignHashView) -> bool {
    |e: AlignHashView| e.name == name
}

/// All candidates of the sequence `name`: those of its entries, one
/// entry after the other.
pub open spec fn candidates_of(entries: Seq<AlignHashView>, name: Seq<char>) -> Seq<Seq<u8>> {
    entries.filter(named(name)).flat_map(entry_candidates())
}

/// The names of the sequences, each once, in the order in which they
/// first occur.
pub open spec fn names_of(entries: Seq<AlignHashView>) -> Seq<Seq<char>>
    decreases entries.len(),
{
    if entries.len() == 0 {
        Seq::empty()
    } else if names_of(entries.drop_last()).contains(entries.last().name) {
        names_of(entries.drop_last())
    } else {
        names_of(entries.drop_last()).push(entries.last().name)
    }
}

/// Whether `c` is redundant among `cands`: a part of another candidate,
/// one that differs from it.
pub open spec fn redundant_in(cands: Seq<Seq<u8>>, c: Seq<u8>) -> bool {
    exists|j: int| 0 <= j < cands.len() && #[trigger] cands[j] != c && is_part_of(c, cands[j])
}

/// The test for a candidate that is not redundant among `cands`.
pub open spec fn irredundant(cands: Seq<Seq<u8>>) -> spec_fn(Seq<u8>) -> bool {
    |c: Seq<u8>| !redundant_in(cands, c)
}

/// The candidates that are not redundant, in their order.
pub open spec fn non_redundant(cands: Seq<Seq<u8>>) -> Seq<Seq<u8>> {
    cands.filter(irredundant(cands))
}

/// The candidates of one sequence.
#[derive(Debug)]
pub struct TsdCandidates {
    pub name: String,
    pub candidates: Vec<Vec<u8>>,
}

/// What a `TsdCandidates` is.
pub struct TsdCandidatesView {
    pub name: Seq<char>,
    pub candidates: Seq<Seq<u8>>,
}

/// The byte sequences that a vector of byte vectors holds.
pub open spec fn kmers_of(v: Seq<Vec<u8>>) -> Seq<Seq<u8>> {
    Seq::new(v.len(), |i: int| v[i]@)
}

impl View for TsdCandidates {
    type V = TsdCandidatesView;

    open spec fn view(&self) -> TsdCandidatesView {
        TsdCandidatesView { name: self.name@, candidates: kmers_of(self.candidates@) }
    }
}

/// The group of the sequence `name`: its candidates without the
/// redundant ones.
pub open spec fn group_of(entries: Seq<AlignHashView>) -> spec_fn(Seq<char>) -> TsdCandidatesView {
    |name: Seq<char>|
        TsdCandidatesView { name, candidates: non_redundant(candidates_of(entries, name)) }
}

/// The result of merging: one group for each sequence name, in the order
/// in which the names first occur.
pub open spec fn merged_groups(entries: Seq<AlignHashView>) -> Seq<TsdCandidatesView> {
    names_of(entries).map_values(group_of(entries))
}

/// Whether an entry of the sequence `name` is among `entries`.
pub open spec fn has_entry_of(entries: Seq<AlignHashView>, name: Seq<char>) -> bool {
    exists|i: int| 0 <= i < entries.len() && (#[trigger] entries[i]).name == name
}

/// No name occurs twice among the names of the sequences, and the names
/// are those of the entries.
pub proof fn lemma_names_once(entries: Seq<AlignHashView>)
    ensures
        names_of(entries).no_duplicates(),
        forall|n: Seq<char>| #[trigger] names_of(entries).contains(n) <==> has_entry_of(entries, n),
    decreases entries.len(),
{
    if entries.len() > 0 {
        let rest = entries.drop_last();
        let last = entries.last();
        let before = names_of(rest);
        let now = names_of(entries);
        lemma_names_once(rest);
        assert forall|n: Seq<char>| #[trigger] now.contains(n) <==> has_entry_of(entries, n) by {
            if now.contains(n) {
                let k = choose|k: int| 0 <= k < now.len() && now[k] == n;
                if k < before.len() {
                    assert(before[k] == n);
                    assert(before.contains(n));
                    assert(has_entry_of(rest, n));
                    let i = choose|i: int| 0 <= i < rest.len() && (#[trigger] rest[i]).name == n;
                    assert(entries[i].name == n);
                } else {
                    assert(entries[entries.len() - 1].name == n);
                }
            }
            if has_entry_of(entries, n) {
                let i = choose|i: int| 0 <= i < entries.len() && (#[trigger] entries[i]).name == n;
                if i < rest.len() {
                    assert(rest[i].name == n);
                    assert(has_entry_of(rest, n));
                    assert(before.contains(n));
                }
                if before.contains(n) {
                    let k = choose|k: int| 0 <= k < before.len() && before[k] == n;
                    assert(now[k] == n);
                } else {
                    assert(n == last.name);
                    assert(now[now.len() - 1] == n);
                }
            }
        }
        if !before.contains(last.name) {
            assert forall|a: int, b: int| 0 <= a < now.len() && 0 <= b < now.len() && a
                != b implies now[a] != now[b] by {
                if a < before.len() && b < before.len() {
                    assert(now[a] == before[a] && now[b] == before[b]);
                } else if a < before.len() {
                    assert(before[a] == now[a]);
                    assert(before.contains(now[a]));
                } else {
                    assert(before[b] == now[b]);
                    assert(before.contains(now[b]));
                }
            }
        }
    }
}

/// Among the candidates that are not redundant, none is a part of another
/// that differs from it.
pub proof fn lemma_non_redundant_has_no_part(cands: Seq<Seq<u8>>)
    ensures
        forall|i: int, j: int|
            #![trigger non_redundant(cands)[i], non_redundant(cands)[j]]
            0 <= i < non_redundant(cands).len() && 0 <= j < non_redundant(cands).len()
                && non_redundant(cands)[i] != non_redundant(cands)[j] ==> !is_part_of(
                non_redundant(cands)[i],
                non_redundant(cands)[j],
            ),
{
    let kept = non_redundant(cands);
    assert forall|i: int, j: int|
        #![trigger kept[i], kept[j]]
        0 <= i < kept.len() && 0 <= j < kept.len() && kept[i] != kept[j] implies !is_part_of(
        kept[i],
        kept[j],
    ) by {
        cands.lemma_filter_pred(irredundant(cands), i);
        assert(kept.contains(kept[j]));
        cands.lemma_filter_contains_rev(irredundant(cands), kept[j]);
        let at = choose|at: int| 0 <= at < cands.len() && cands[at] == kept[j];
        assert(cands[at] == kept[j]);
        assert(!redundant_in(cands, kept[i]));
    }
}

/// The candidates of a sequence among the first entries and one more
/// are those among the first entries, followed by those of the one more
/// where it is of that sequence.
proof fn lemma_candidates_step(entries: Seq<AlignHashView>, i: int, name: Seq<char>)
    requires
        0 <= i < entries.len(),
    ensures
        candidates_of(entries.take(i + 1), name) == candidates_of(entries.take(i), name) + (
        if entries[i].name == name {
            entry_candidates()(entries[i])
        } else {
            Seq::empty()
        }),
{
    let before = entries.take(i);
    assert(entries.take(i + 1) =~= before.push(entries[i]));
    before.lemma_filter_push(entries[i], named(name));
    if entries[i].name == name {
        before.filter(named(name)).lemma_flat_map_push(entry_candidates(), entries[i]);
    } else {
        assert(candidates_of(before, name) + Seq::<Seq<u8>>::empty() =~= candidates_of(
            before,
            name,
        ));
    }
}

/// Whether `needle` stands in `hay` at index `p`.
fn stands_at(needle: &Vec<u8>, hay: &Vec<u8>, p: usize) -> (b: bool)
    requires
        p + needle@.len() <= hay@.len(),
    ensures
        b == occurs_at(needle@, hay@, p as int),
{
    let end = hay.len();
    let mut i: usize = 0;
    while i < needle.len()
        invariant
            i <= needle@.len(),
            p + needle@.len() <= hay@.len() == end,
            forall|k: int| 0 <= k < i ==> hay@[p + k] == needle@[k],
        decreases needle@.len() - i,
    {
        if hay[p + i] != needle[i] {
            assert(hay@.subrange(p as int, p + needle@.len())[i as int] == hay@[p + i]);
            return false;
        }
        i += 1;
    }
    assert(hay@.subrange(p as int, p + needle@.len()) =~= needle@);
    true
}

/// Whether `needle` is a contiguous part of `hay`.
pub fn is_subslice(needle: &Vec<u8>, hay: &Vec<u8>) -> (found: bool)
    ensures
        found == is_part_of(needle@, hay@),
{
    if needle.len() > hay.len() {
        return false;
    }
    let last = hay.len() - needle.len();
    let mut p: usize = 0;
    loop
        invariant
            p <= last,
            last == hay@.len() - needle@.len(),
            forall|q: int| 0 <= q < p ==> !occurs_at(needle@, hay@, q),
        decreases last - p,
    {
        if stands_at(needle, hay, p) {
            return true;
        }
        if p == last {
            return false;
        }
        p += 1;
    }
}

/// The candidates of `cands` that are not redundant: those that are not
/// a part of another candidate that differs from them.
pub fn remove_redundant(cands: &Vec<Vec<u8>>) -> (kept: Vec<Vec<u8>>)
    ensures
        kmers_of(kept@) == non_redundant(kmers_of(cands@)),
        forall|i: int, j: int|
            #![trigger kept@[i], kept@[j]]
            0 <= i < kept@.len() && 0 <= j < kept@.len() && kept@[i]@ != kept@[j]@ ==> !is_part_of(
                kept@[i]@,
                kept@[j]@,
            ),
{
    let ghost all = kmers_of(cands@);
    let mut kept: Vec<Vec<u8>> = Vec::new();
    let mut i: usize = 0;
    proof {
        reveal(Seq::filter);
        assert(all.take(0) =~= Seq::<Seq<u8>>::empty());
        assert(kmers_of(kept@) =~= Seq::<Seq<u8>>::empty());
    }
    while i < cands.len()
        invariant
            i <= cands@.len(),
            all == kmers_of(cands@),
            kmers_of(kept@) == all.take(i as int).filter(irredundant(all)),
        decreases cands@.len() - i,
    {
        let mut substring_found = false;
        let mut j: usize = 0;
        while j < cands.len()
            invariant
                i < cands@.len(),
                j <= cands@.len(),
                all == kmers_of(cands@),
                substring_found <==> exists|k: int|
                    0 <= k < j && #[trigger] all[k] != all[i as int] && is_part_of(
                        all[i as int],
                        all[k],
                    ),
            decreases cands@.len() - j,
        {
            if !same_bytes(&cands[i], &cands[j]) && is_subslice(&cands[i], &cands[j]) {
                assert(all[j as int] != all[i as int] && is_part_of(all[i as int], all[j as int]));
                substring_found = true;
            }
            j += 1;
        }
        assert(substring_found == redundant_in(all, all[i as int]));
        proof {
            assert(all.take(i + 1) =~= all.take(i as int).push(all[i as int]));
            all.take(i as int).lemma_filter_push(all[i as int], irredundant(all));
        }
        if !substring_found {
            let ghost before = kmers_of(kept@);
            kept.push(copy_range(&cands[i], 0, cands[i].len()));
            assert(cands@[i as int]@.subrange(0, cands@[i as int]@.len() as int) =~= all[i as int]);
            assert(kmers_of(kept@) =~= before.push(all[i as int]));
        }
        i += 1;
    }
    proof {
        assert(all.take(all.len() as int) =~= all);
        assert(kmers_of(kept@) == non_redundant(all));
        lemma_non_redundant_has_no_part(all);
        assert forall|i: int, j: int|
            #![trigger kept@[i], kept@[j]]
            0 <= i < kept@.len() && 0 <= j < kept@.len() && kept@[i]@ != kept@[j]@ implies !is_part_of(
            kept@[i]@,
            kept@[j]@,
        ) by {
            assert(non_redundant(all)[i] == kept@[i]@);
            assert(non_redundant(all)[j] == kept@[j]@);
        }
    }
    kept
}

/// Appends the k-mers that `counts` lists to `cands`, in their order.
fn push_keys(cands: &mut Vec<Vec<u8>>, counts: &KmerCounts)
    ensures
        kmers_of(final(cands)@) == kmers_of(old(cands)@) + counts@.map_values(key_of()),
{
    let mut i: usize = 0;
    assert(kmers_of(cands@) =~= kmers_of(old(cands)@) + counts@.map_values(key_of()).take(0));
    while i < counts.entries.len()
        invariant
            i <= counts@.len(),
            counts@.len() == counts.entries@.len(),
            kmers_of(cands@) == kmers_of(old(cands)@) + counts@.map_values(key_of()).take(i as int),
        decreases counts@.len() - i,
    {
        let ghost before = kmers_of(cands@);
        let key = &counts.entries[i].0;
        cands.push(copy_range(key, 0, key.len()));
        proof {
            assert(key@.subrange(0, key@.len() as int) =~= key@);
            assert(kmers_of(cands@) =~= before.push(key@));
            assert(counts@.map_values(key_of()).take(i + 1) =~= counts@.map_values(key_of()).take(
                i as int,
            ).push(key@));
        }
        i += 1;
    }
    assert(counts@.map_values(key_of()).take(counts@.len() as int) =~= counts@.map_values(
        key_of(),
    ));
}

/// The groups that a vector of groups holds.
pub open spec fn groups_in(v: Seq<TsdCandidates>) -> Seq<TsdCandidatesView> {
    Seq::new(v.len(), |i: int| v[i]@)
}

/// The names that a vector of strings holds.
pub open spec fn names_in(v: Seq<String>) -> Seq<Seq<char>> {
    Seq::new(v.len(), |i: int| v[i]@)
}

/// Whether `names` holds `name`.
fn holds_name(names: &Vec<String>, name: &String) -> (found: bool)
    ensures
        found == names_in(names@).contains(name@),
{
    let mut i: usize = 0;
    while i < names.len()
        invariant
            i <= names@.len(),
            forall|k: int| 0 <= k < i ==> names_in(names@)[k] != name@,
        decreases names@.len() - i,
    {
        if names[i] == *name {
            assert(names_in(names@)[i as int] == name@);
            return true;
        }
        i += 1;
    }
    false
}

impl TSDHash {
    /// Whether every entry can be merged.
    pub open spec fn wf(&self) -> bool {
        forall|i: int| 0 <= i < self@.len() ==> mergeable(#[trigger] self@[i])
    }

    /// No entries.
    pub fn new() -> (tsd: Self)
        ensures
            tsd@ == Seq::<AlignHashView>::empty(),
            tsd.wf(),
    {
        let tsd = TSDHash(Vec::new());
        assert(tsd@ =~= Seq::<AlignHashView>::empty());
        tsd
    }

    /// Appends `other` as the last entry.
    pub fn add_entry(&mut self, other: AlignHash)
        ensures
            final(self)@ == old(self)@.push(other@),
    {
        self.0.push(
            AlignHash {
                name: other.name,
                window: other.window,
                left: other.left,
                right: other.right,
            },
        );
        assert(self@ =~= old(self)@.push(other@));
    }
}

impl TSDHash {
    /// Merges two tallies: the result lists the k-mers that both list, in
    /// the order of the first, each with the sum of its two counts.
    pub fn merge_hashmaps(map1: &KmerCounts, map2: &KmerCounts) -> (merged: KmerCounts)
        requires
            map1.wf(),
            map2.wf(),
            forall|k: Seq<u8>| count_in(map1@, k) + count_in(map2@, k) <= usize::MAX,
        ensures
            merged@ == shared(map1@, map2@),
            merged.wf(),
    {
        let ghost keep = shared_entry(map2@);
        let mut merged = KmerCounts::new();
        let mut i: usize = 0;
        proof {
            assert(map1@.take(0) =~= Seq::<(Seq<u8>, nat)>::empty());
        }
        while i < map1.entries.len()
            invariant
                i <= map1@.len(),
                map1@.len() == map1.entries@.len(),
                map1.wf(),
                map2.wf(),
                forall|k: Seq<u8>| count_in(map1@, k) + count_in(map2@, k) <= usize::MAX,
                keep == shared_entry(map2@),
                merged@ == map1@.take(i as int).filter_map(keep),
                forall|k: int|
                    0 <= k < merged@.len() ==> exists|j: int|
                        0 <= j < i && (#[trigger] map1@[j]).0 == (#[trigger] merged@[k]).0,
                merged.wf(),
            decreases map1@.len() - i,
        {
            let k1 = &map1.entries[i].0;
            let v1 = map1.entries[i].1;
            proof {
                map1@.lemma_filter_map_take_succ(keep, i as int);
                assert(map1@[i as int] == (k1@, v1 as nat));
                assert(has_key(map1@, k1@));
                assert(key_index(map1@, k1@) == i) by {
                    let j = key_index(map1@, k1@);
                    assert(map1@[j].0 == map1@[i as int].0);
                }
                assert(count_in(map1@, k1@) == v1);
            }
            match map2.position(k1) {
                Some(j) => {
                    let v2 = map2.entries[j].1;
                    proof {
                        assert(map2@[j as int].0 == k1@);
                        assert(key_index(map2@, k1@) == j) by {
                            let x = key_index(map2@, k1@);
                            assert(map2@[x].0 == map2@[j as int].0);
                        }
                        assert(count_in(map2@, k1@) == v2);
                        assert(count_in(map1@, k1@) + count_in(map2@, k1@) <= usize::MAX);
                    }
                    let ghost before = merged@;
                    merged.entries.push((copy_range(k1, 0, k1.len()), v1 + v2));
                    proof {
                        assert(k1@.subrange(0, k1@.len() as int) =~= k1@);
                        assert(merged@ =~= before.push((k1@, (v1 + v2) as nat)));
                        assert(merged@ =~= before + seq![(k1@, (v1 + v2) as nat)]);
                        assert forall|k: int| 0 <= k < merged@.len() implies exists|j: int|
                            0 <= j < i + 1 && (#[trigger] map1@[j]).0 == (#[trigger] merged@[k]).0 by {
                            if k < before.len() {
                                assert(merged@[k] == before[k]);
                                let j = choose|j: int|
                                    0 <= j < i && (#[trigger] map1@[j]).0 == before[k].0;
                                assert(map1@[j].0 == merged@[k].0);
                            } else {
                                assert(map1@[i as int].0 == merged@[k].0);
                            }
                        }
                        assert forall|a: int, b: int|
                            0 <= a < merged@.len() && 0 <= b < merged@.len() && a != b implies (
                        #[trigger] merged@[a]).0 != (#[trigger] merged@[b]).0 by {
                            if a < before.len() && b < before.len() {
                                assert(merged@[a] == before[a] && merged@[b] == before[b]);
                            } else if a < before.len() {
                                assert(merged@[a] == before[a]);
                                let j = choose|j: int|
                                    0 <= j < i && (#[trigger] map1@[j]).0 == before[a].0;
                                assert(map1@[j].0 != map1@[i as int].0);
                            } else {
                                assert(merged@[b] == before[b]);
                                let j = choose|j: int|
                                    0 <= j < i && (#[trigger] map1@[j]).0 == before[b].0;
                                assert(map1@[j].0 != map1@[i as int].0);
                            }
                        }
                    }
                },
                None => {
                    proof {
                        assert(merged@ + Seq::<(Seq<u8>, nat)>::empty() =~= merged@);
                    }
                },
            }
            i += 1;
        }
        proof {
            assert(map1@.take(map1@.len() as int) =~= map1@);
        }
        merged
    }

    /// The names of the sequences, each once, in the order in which they
    /// first occur among the entries.
    pub fn names(&self) -> (names: Vec<String>)
        ensures
            names_in(names@) == names_of(self@),
    {
        let mut names: Vec<String> = Vec::new();
        let mut i: usize = 0;
        proof {
            assert(self@.take(0) =~= Seq::<AlignHashView>::empty());
            assert(names_in(names@) =~= Seq::<Seq<char>>::empty());
        }
        while i < self.0.len()
            invariant
                i <= self@.len(),
                self@.len() == self.0@.len(),
                names_in(names@) == names_of(self@.take(i as int)),
            decreases self@.len() - i,
        {
            proof {
                assert(self@.take(i + 1).drop_last() =~= self@.take(i as int));
                assert(self@.take(i + 1).last() == self.0@[i as int]@);
            }
            if !holds_name(&names, &self.0[i].name) {
                let ghost before = names_in(names@);
                names.push(self.0[i].name.clone());
                assert(names_in(names@) =~= before.push(self.0@[i as int].name@));
            }
            i += 1;
        }
        proof {
            assert(self@.take(self@.len() as int) =~= self@);
        }
        names
    }

    /// All candidates of the sequence `name`: for each of its entries, one
    /// after the other, the k-mers found at both ends.
    pub fn candidates(&self, name: &String) -> (cands: Vec<Vec<u8>>)
        requires
            self.wf(),
        ensures
            kmers_of(cands@) == candidates_of(self@, name@),
    {
        let mut cands: Vec<Vec<u8>> = Vec::new();
        let mut i: usize = 0;
        proof {
            reveal(Seq::filter);
            assert(self@.take(0) =~= Seq::<AlignHashView>::empty());
            assert(self@.take(0).filter(named(name@)) =~= Seq::<AlignHashView>::empty());
            assert(candidates_of(self@.take(0), name@) =~= Seq::<Seq<u8>>::empty());
            assert(kmers_of(cands@) =~= Seq::<Seq<u8>>::empty());
        }
        while i < self.0.len()
            invariant
                i <= self@.len(),
                self@.len() == self.0@.len(),
                self.wf(),
                kmers_of(cands@) == candidates_of(self@.take(i as int), name@),
            decreases self@.len() - i,
        {
            let hash = &self.0[i];
            proof {
                assert(self@[i as int] == hash@);
                assert(mergeable(self@[i as int]));
                lemma_candidates_step(self@, i as int, name@);
            }
            if hash.name == *name {
                let merged = Self::merge_hashmaps(&hash.left, &hash.right);
                push_keys(&mut cands, &merged);
            } else {
                assert(kmers_of(cands@) + Seq::<Seq<u8>>::empty() =~= kmers_of(cands@));
            }
            i += 1;
        }
        proof {
            assert(self@.take(self@.len() as int) =~= self@);
        }
        cands
    }

    /// The candidates of every sequence. Within each entry the k-mers
    /// found at both ends are merged; the merged k-mers are grouped by
    /// sequence name, over all window lengths; from each group the
    /// candidates that are a part of another, different candidate of the
    /// group are removed. There is one group for each name, in the order
    /// in which the names first occur, also where no candidate is left.
    pub fn merge(&self) -> (groups: Vec<TsdCandidates>)
        requires
            self.wf(),
        ensures
            groups_in(groups@) == merged_groups(self@),
            forall|g: int, i: int, j: int|
                #![trigger groups@[g]@.candidates[i], groups@[g]@.candidates[j]]
                0 <= g < groups@.len() && 0 <= i < groups@[g]@.candidates.len() && 0 <= j
                    < groups@[g]@.candidates.len() && groups@[g]@.candidates[i]
                    != groups@[g]@.candidates[j] ==> !is_part_of(
                    groups@[g]@.candidates[i],
                    groups@[g]@.candidates[j],
                ),
    {
        let names = self.names();
        let mut groups: Vec<TsdCandidates> = Vec::new();
        let mut g: usize = 0;
        while g < names.len()
            invariant
                g <= names@.len(),
                self.wf(),
                names_in(names@) == names_of(self@),
                groups@.len() == g,
                forall|k: int|
                    0 <= k < g ==> (#[trigger] groups@[k])@ == group_of(self@)(names_of(self@)[k]),
            decreases names@.len() - g,
        {
            let name = &names[g];
            assert(names_in(names@)[g as int] == name@);
            let cands = self.candidates(name);
            let no_substr = remove_redundant(&cands);
            groups.push(TsdCandidates { name: name.clone(), candidates: no_substr });
            g += 1;
        }
        proof {
            assert(groups_in(groups@) =~= merged_groups(self@));
            assert forall|g: int, i: int, j: int|
                #![trigger groups@[g]@.candidates[i], groups@[g]@.candidates[j]]
                0 <= g < groups@.len() && 0 <= i < groups@[g]@.candidates.len() && 0 <= j
                    < groups@[g]@.candidates.len() && groups@[g]@.candidates[i]
                    != groups@[g]@.candidates[j] implies !is_part_of(
                groups@[g]@.candidates[i],
                groups@[g]@.candidates[j],
            ) by {
                lemma_non_redundant_has_no_part(candidates_of(self@, names_of(self@)[g]));
            }
        }
        groups
    }
}

impl Alignment {
    /// The k-mers at the two ends of every sequence. The left end of a
    /// row is its first `length` symbols, the right end its last `length`
    /// symbols. For every row and every window length from `min_window`
    /// to `max_window` there is one entry, which tallies the gap-free
    /// windows of that length of the left end and of the right end.
    pub fn to_tsd_hash(&self, length: usize, min_window: usize, max_window: usize) -> (tsd: TSDHash)
        requires
            self@.len() > 0,
            rectangular(self@),
            length <= width(self@),
            min_window >= 1,
            2 * length <= usize::MAX,
        ensures
            tsd@ == tsd_entries(self@, length as int, min_window as int, max_window as int),
            tsd.wf(),
    {
        let sequence_length = self.matrix[0].sequence.len();
        let windows: usize = if min_window <= max_window {
            max_window - min_window + 1
        } else {
            0
        };
        let ghost per_row = row_entries(length as int, min_window as int, max_window as int);
        let mut tsd_hash = TSDHash::new();
        let mut r: usize = 0;
        proof {
            assert(self@.take(0) =~= Seq::<SequenceView>::empty());
            assert(self@.take(0).flat_map(per_row) =~= Seq::<AlignHashView>::empty());
        }
        while r < self.matrix.len()
            invariant
                r <= self@.len(),
                self@.len() == self.matrix@.len(),
                self@.len() > 0,
                rectangular(self@),
                sequence_length == width(self@),
                length <= sequence_length,
                min_window >= 1,
                2 * length <= usize::MAX,
                windows == if min_window <= max_window {
                    max_window - min_window + 1
                } else {
                    0
                },
                per_row == row_entries(length as int, min_window as int, max_window as int),
                tsd_hash@ == self@.take(r as int).flat_map(per_row),
                tsd_hash.wf(),
            decreases self@.len() - r,
        {
            let record = &self.matrix[r];
            assert(self@[r as int] == record@);
            assert(record@.symbols.len() == self@[0].symbols.len());
            let left_seq = copy_range(&record.sequence, 0, length);
            let right_seq = copy_range(
                &record.sequence,
                sequence_length - length,
                sequence_length,
            );
            let ghost before = tsd_hash@;
            let ghost row = per_row(record@);
            let mut i: usize = 0;
            while i < windows
                invariant
                    i <= windows,
                    min_window >= 1,
                    2 * length <= usize::MAX,
                    windows == if min_window <= max_window {
                        max_window - min_window + 1
                    } else {
                        0
                    },
                    per_row == row_entries(length as int, min_window as int, max_window as int),
                    row == per_row(record@),
                    length <= record@.symbols.len(),
                    left_seq@ == record@.symbols.subrange(0, length as int),
                    right_seq@ == record@.symbols.subrange(
                        record@.symbols.len() - length,
                        record@.symbols.len() as int,
                    ),
                    tsd_hash@ == before + row.take(i as int),
                    tsd_hash.wf(),
                decreases windows - i,
            {
                let window = min_window + i;
                let left = count_kmers(&left_seq, window);
                let right = count_kmers(&right_seq, window);
                let entry = AlignHash { name: record.name.clone(), window, left, right };
                proof {
                    assert(entry@ == row[i as int]);
                    assert(mergeable(entry@)) by {
                        assert forall|k: Seq<u8>|
                            count_in(entry@.left, k) + count_in(entry@.right, k)
                                <= usize::MAX by {
                            assert(count_in(entry@.left, k) <= length);
                            assert(count_in(entry@.right, k) <= length);
                        }
                    }
                    assert(row.take(i + 1) =~= row.take(i as int).push(entry@));
                    assert(before + row.take(i + 1) =~= (before + row.take(i as int)).push(
                        entry@,
                    ));
                }
                let ghost so_far = tsd_hash@;
                tsd_hash.add_entry(entry);
                proof {
                    assert forall|k: int| 0 <= k < tsd_hash@.len() implies mergeable(
                        #[trigger] tsd_hash@[k],
                    ) by {
                        if k < so_far.len() {
                            assert(tsd_hash@[k] == so_far[k]);
                        }
                    }
                }
                i += 1;
            }
            proof {
                assert(row.take(windows as int) =~= row);
                self@.lemma_flat_map_take_append(per_row, r as int);
                assert(self@.take(r + 1) =~= self@.take(r as int).push(record@));
            }
            r += 1;
        }
        proof {
            assert(self@.take(self@.len() as int) =~= self@);
        }
        tsd_hash
    }
}

} // verus!
